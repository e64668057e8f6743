//! Pieces of the audio synchronisation by fingerprints that work on integers.
use vstd::prelude::*;
use std::collections::HashMap;

verus! {

broadcast use vstd::std_specs::hash::group_hash_axioms;

/// Reads four bytes as a little-endian `u32`.
pub fn as_u32_le(array: &[u8; 4]) -> (r: u32)
    ensures
        r as int == array[0] as int + 256 * array[1] as int + 65536 * array[2] as int + 16777216 * array[3] as int,
{
    let a0 = array[0];
    let a1 = array[1];
    let a2 = array[2];
    let a3 = array[3];
    let r = (a0 as u32) | ((a1 as u32) << 8) | ((a2 as u32) << 16) | ((a3 as u32) << 24);
    assert(r as int == a0 as int + 256 * a1 as int + 65536 * a2 as int + 16777216 * a3 as int) by (bit_vector)
        requires
            r == (a0 as u32) | ((a1 as u32) << 8) | ((a2 as u32) << 16) | ((a3 as u32) << 24),
    ;
    r
}

/// Where each fingerprint value occurs last in a fingerprint.
pub open spec fn inverse_index(print: Seq<u32>) -> Map<u32, usize>
    decreases print.len(),
{
    if print.len() == 0 {
        Map::empty()
    } else {
        inverse_index(print.drop_last()).insert(print.last(), (print.len() - 1) as usize)
    }
}

/// Maps each value of a fingerprint to the position of its last occurrence.
pub fn create_inverse_index(chromaprint: &Vec<u32>) -> (r: HashMap<u32, usize>)
    ensures
        r@ == inverse_index(chromaprint@),
{
    let mut index: HashMap<u32, usize> = HashMap::with_capacity(chromaprint.len());
    let mut i: usize = 0;
    assert(chromaprint@.subrange(0, 0) =~= Seq::<u32>::empty());
    while i < chromaprint.len()
        invariant
            i <= chromaprint@.len(),
            index@ == inverse_index(chromaprint@.subrange(0, i as int)),
        decreases chromaprint@.len() - i,
    {
        assert(chromaprint@.subrange(0, i + 1).drop_last() =~= chromaprint@.subrange(0, i as int));
        index.insert(chromaprint[i], i);
        i = i + 1;
    }
    assert(chromaprint@.subrange(0, chromaprint@.len() as int) =~= chromaprint@);
    index
}

/// The value `v + d` (for `d` in `-2..=2`), wrapping around the `u32` range.
pub open spec fn near(v: u32, d: int) -> u32 {
    ((v as int + d + 0x1_0000_0000) % 0x1_0000_0000) as u32
}

/// Whether `s` is a shift between two fingerprints: for some value `v` of `lhs`, a value of `rhs`
/// within 2 of it occurs (last) `s` positions after the last occurrence of `v` in `lhs`.
pub open spec fn is_shift(lhs: Seq<u32>, rhs: Seq<u32>, s: int) -> bool {
    exists|v: u32, d: int|
        -2 <= d <= 2 && #[trigger] inverse_index(lhs).contains_key(v) && #[trigger] inverse_index(rhs).contains_key(near(v, d))
            && s == inverse_index(rhs)[near(v, d)] as int - inverse_index(lhs)[v] as int
}

/// The last occurrence of a value is a position that holds it; every value held has one.
proof fn lemma_inverse_index(print: Seq<u32>)
    requires
        print.len() <= usize::MAX,
    ensures
        forall|v: u32| #[trigger] inverse_index(print).contains_key(v) ==> {
            let k = inverse_index(print)[v] as int;
            0 <= k < print.len() && print[k] == v && forall|j: int| k < j < print.len() ==> print[j] != v
        },
        forall|k: int| 0 <= k < print.len() ==> #[trigger] inverse_index(print).contains_key(print[k]),
    decreases print.len(),
{
    if print.len() > 0 {
        let prev = print.drop_last();
        lemma_inverse_index(prev);
        assert(inverse_index(print) == inverse_index(prev).insert(print.last(), (print.len() - 1) as usize));
        assert forall|v: u32| #[trigger] inverse_index(print).contains_key(v) implies {
            let k = inverse_index(print)[v] as int;
            0 <= k < print.len() && print[k] == v && forall|j: int| k < j < print.len() ==> print[j] != v
        } by {
            if v != print.last() {
                assert(inverse_index(prev).contains_key(v));
                let k = inverse_index(prev)[v] as int;
                assert(prev[k] == print[k]);
                assert forall|j: int| k < j < print.len() implies print[j] != v by {
                    if j < print.len() - 1 {
                        assert(prev[j] == print[j]);
                    }
                }
            }
        }
        assert forall|k: int| 0 <= k < print.len() implies #[trigger] inverse_index(print).contains_key(print[k]) by {
            if k < print.len() - 1 {
                assert(prev[k] == print[k]);
                assert(inverse_index(prev).contains_key(prev[k]));
            }
        }
    }
}

/// The value `v + d` as `near` gives it.
fn near_exec(v: u32, d: i64) -> (r: u32)
    requires
        -2 <= d <= 2,
    ensures
        r == near(v, d as int),
{
    let w: i64 = v as i64 + d + 0x1_0000_0000;
    (w % 0x1_0000_0000) as u32
}

fn contains_i64(v: &Vec<i64>, x: i64) -> (r: bool)
    ensures
        r == v@.contains(x),
{
    let mut i: usize = 0;
    while i < v.len()
        invariant
            i <= v@.len(),
            forall|j: int| 0 <= j < i ==> v@[j] != x,
        decreases v@.len() - i,
    {
        if v[i] == x {
            return true;
        }
        i = i + 1;
    }
    false
}

/// The shifts between two fingerprints (see [`is_shift`]), each once, in no particular order.
pub fn possible_shifts(lhs: &Vec<u32>, rhs: &Vec<u32>) -> (r: Vec<i64>)
    requires
        lhs@.len() <= i64::MAX,
        rhs@.len() <= i64::MAX,
    ensures
        r@.no_duplicates(),
        forall|t: int| 0 <= t < r@.len() ==> is_shift(lhs@, rhs@, #[trigger] r@[t] as int),
        forall|s: int| #[trigger] is_shift(lhs@, rhs@, s) ==> r@.contains(s as i64),
{
    let linv = create_inverse_index(lhs);
    let rinv = create_inverse_index(rhs);
    let ln = lhs.len();
    let rn = rhs.len();
    proof {
        lemma_inverse_index(lhs@);
        lemma_inverse_index(rhs@);
    }
    let mut r: Vec<i64> = Vec::new();
    let mut i: usize = 0;
    while i < lhs.len()
        invariant
            i <= lhs@.len(),
            lhs@.len() <= i64::MAX,
            rhs@.len() <= i64::MAX,
            linv@ == inverse_index(lhs@),
            rinv@ == inverse_index(rhs@),
            forall|v: u32| #[trigger] inverse_index(lhs@).contains_key(v) ==> {
                let k = inverse_index(lhs@)[v] as int;
                0 <= k < lhs@.len() && lhs@[k] == v
            },
            forall|v: u32| #[trigger] inverse_index(rhs@).contains_key(v) ==> {
                let k = inverse_index(rhs@)[v] as int;
                0 <= k < rhs@.len() && rhs@[k] == v
            },
            forall|k: int| 0 <= k < lhs@.len() ==> #[trigger] inverse_index(lhs@).contains_key(lhs@[k]),
            r@.no_duplicates(),
            forall|t: int| 0 <= t < r@.len() ==> is_shift(lhs@, rhs@, #[trigger] r@[t] as int),
            forall|v: u32, d: int|
                -2 <= d <= 2 && #[trigger] inverse_index(lhs@).contains_key(v) && inverse_index(lhs@)[v] < i
                    && #[trigger] inverse_index(rhs@).contains_key(near(v, d)) ==> r@.contains(
                    (inverse_index(rhs@)[near(v, d)] as int - inverse_index(lhs@)[v] as int) as i64,
                ),
        decreases lhs@.len() - i,
    {
        let v = lhs[i];
        assert(inverse_index(lhs@).contains_key(lhs@[i as int]));
        let last = linv.get(&v);
        let ghost r_before = r@;
        if let Some(k) = last {
            if *k == i {
                let mut d: i64 = -2;
                while d <= 2
                    invariant
                        -2 <= d <= 3,
                        i < lhs@.len(),
                        lhs@.len() <= i64::MAX,
                        rhs@.len() <= i64::MAX,
                        v == lhs@[i as int],
                        inverse_index(lhs@).contains_key(v),
                        inverse_index(lhs@)[v] == i,
                        rinv@ == inverse_index(rhs@),
                        forall|w: u32| #[trigger] inverse_index(rhs@).contains_key(w) ==> {
                            let k = inverse_index(rhs@)[w] as int;
                            0 <= k < rhs@.len() && rhs@[k] == w
                        },
                        r@.no_duplicates(),
                        forall|t: int| 0 <= t < r@.len() ==> is_shift(lhs@, rhs@, #[trigger] r@[t] as int),
                        forall|e: int|
                            -2 <= e < d && #[trigger] inverse_index(rhs@).contains_key(near(v, e)) ==> r@.contains(
                                (inverse_index(rhs@)[near(v, e)] as int - i as int) as i64,
                            ),
                        forall|x: i64| #[trigger] r_before.contains(x) ==> r@.contains(x),
                    decreases 3 - d,
                {
                    let w = near_exec(v, d);
                    let ghost r_mid = r@;
                    if let Some(j) = rinv.get(&w) {
                        assert(inverse_index(rhs@).contains_key(w));
                        assert(rinv@[w] == *j);
                        let shift: i64 = *j as i64 - i as i64;
                        assert(is_shift(lhs@, rhs@, shift as int)) by {
                            assert(-2 <= d as int <= 2 && inverse_index(lhs@).contains_key(v) && inverse_index(rhs@).contains_key(
                                near(v, d as int),
                            ));
                        }
                        if !contains_i64(&r, shift) {
                            r.push(shift);
                            assert(r@[r@.len() - 1] == shift);
                        }
                        assert(r@.contains(shift));
                    } else {
                        assert(!inverse_index(rhs@).contains_key(w));
                    }
                    assert forall|x: i64| #[trigger] r_mid.contains(x) implies r@.contains(x) by {
                        let t = choose|t: int| 0 <= t < r_mid.len() && r_mid[t] == x;
                        assert(r@[t] == x);
                    }
                    assert forall|e: int|
                        -2 <= e < d + 1 && #[trigger] inverse_index(rhs@).contains_key(near(v, e)) implies r@.contains(
                        (inverse_index(rhs@)[near(v, e)] as int - i as int) as i64,
                    ) by {
                        if e < d {
                            assert(r_mid.contains((inverse_index(rhs@)[near(v, e)] as int - i as int) as i64));
                        }
                    }
                    d = d + 1;
                }
            }
        }
        assert forall|v2: u32, d2: int|
            -2 <= d2 <= 2 && #[trigger] inverse_index(lhs@).contains_key(v2) && inverse_index(lhs@)[v2] < i + 1
                && #[trigger] inverse_index(rhs@).contains_key(near(v2, d2)) implies r@.contains(
            (inverse_index(rhs@)[near(v2, d2)] as int - inverse_index(lhs@)[v2] as int) as i64,
        ) by {
            let x = (inverse_index(rhs@)[near(v2, d2)] as int - inverse_index(lhs@)[v2] as int) as i64;
            if inverse_index(lhs@)[v2] < i {
                assert(r_before.contains(x));
                if !(r@ == r_before) {
                    let t = choose|t: int| 0 <= t < r_before.len() && r_before[t] == x;
                }
            } else {
                assert(lhs@[i as int] == v2);
                assert(v2 == v);
                assert(linv@[v] == i);
            }
        }
        i = i + 1;
    }
    proof {
        assert forall|s: int| #[trigger] is_shift(lhs@, rhs@, s) implies r@.contains(s as i64) by {
            let (v, d) = choose|v: u32, d: int|
                -2 <= d <= 2 && #[trigger] inverse_index(lhs@).contains_key(v) && #[trigger] inverse_index(rhs@).contains_key(
                    near(v, d),
                ) && s == inverse_index(rhs@)[near(v, d)] as int - inverse_index(lhs@)[v] as int;
        }
    }
    r
}

/// The number of bits set in `x`.
pub open spec fn popcount(x: u32) -> nat
    decreases x,
{
    if x == 0 {
        0
    } else {
        (x % 2) as nat + popcount(x / 2)
    }
}

fn popcount_exec(x: u32) -> (r: u32)
    ensures
        r == popcount(x),
{
    proof { lemma_popcount_le(x); }
    let mut y = x;
    let mut c: u32 = 0;
    while y > 0
        invariant
            c + popcount(y) == popcount(x),
            popcount(x) <= x,
        decreases y,
    {
        c = c + y % 2;
        y = y / 2;
    }
    c
}

proof fn lemma_popcount_le(y: u32)
    ensures
        popcount(y) <= y,
    decreases y,
{
    if y > 0 {
        lemma_popcount_le(y / 2);
    }
}

/// The start positions of the compared stretches of two fingerprints under `shift`: the one
/// that starts later is skipped by the amount of the shift.
pub open spec fn shift_starts(shift: int) -> (int, int) {
    if shift < 0 {
        (-shift, 0)
    } else {
        (0, shift)
    }
}

/// How many positions are compared under `shift`: the shorter fingerprint's length less the
/// shift.
pub open spec fn compared(lhs: Seq<u32>, rhs: Seq<u32>, shift: int) -> int {
    (if lhs.len() < rhs.len() { lhs.len() as int } else { rhs.len() as int }) - if shift < 0 { -shift } else { shift }
}

/// Whether the fingerprints agree at the `i`-th compared position under `shift`: their values
/// there differ in at most `tolerance` bits.
pub open spec fn agree_at(lhs: Seq<u32>, rhs: Seq<u32>, shift: int, tolerance: nat, i: int) -> bool {
    popcount(lhs[i + shift_starts(shift).0] ^ rhs[i + shift_starts(shift).1]) <= tolerance
}

/// The positions at which two fingerprints agree under `shift` (see [`agree_at`]): for each
/// agreeing compared position `i`, in order, `i` plus the start in `lhs` and `i` plus the start in
/// `rhs` (see [`shift_starts`]).
pub fn matching_positions(lhs: &Vec<u32>, rhs: &Vec<u32>, shift: i64, tolerance: u32) -> (r: (Vec<usize>, Vec<usize>))
    requires
        shift > i64::MIN,
    ensures
        ({
            let (ls, rs) = shift_starts(shift as int);
            &&& r.0@.len() == r.1@.len()
            &&& forall|t: int| 0 <= t < r.0@.len() ==> #[trigger] r.0@[t] - ls == r.1@[t] - rs && r.0@[t] >= ls
            &&& crate::search::retained(
                r.0@.map_values(|p: usize| (p - ls) as usize),
                if compared(lhs@, rhs@, shift as int) > 0 { compared(lhs@, rhs@, shift as int) as nat } else { 0 },
                |i: int| agree_at(lhs@, rhs@, shift as int, tolerance as nat, i),
            )
        }),
{
    let ls: usize;
    let rs: usize;
    let magnitude: u64 = if shift < 0 { (0 - shift) as u64 } else { shift as u64 };
    let shorter = if lhs.len() < rhs.len() { lhs.len() } else { rhs.len() };
    let fits = (magnitude as u128) < (shorter as u128);
    let upper: usize = if fits { shorter - magnitude as usize } else { 0 };
    let m: usize = if fits { magnitude as usize } else { 0 };
    if shift < 0 {
        ls = m;
        rs = 0;
    } else {
        ls = 0;
        rs = m;
    }
    let ghost pred = |i: int| agree_at(lhs@, rhs@, shift as int, tolerance as nat, i);
    assert(upper > 0 ==> ls + upper <= shorter && rs + upper <= shorter && upper == compared(lhs@, rhs@, shift as int));
    let mut a: Vec<usize> = Vec::new();
    let mut b: Vec<usize> = Vec::new();
    let mut i: usize = 0;
    while i < upper
        invariant
            i <= upper,
            shorter <= lhs@.len(),
            shorter <= rhs@.len(),
            upper > 0 ==> ls + upper <= shorter && rs + upper <= shorter,
            upper > 0 ==> (ls as int, rs as int) == shift_starts(shift as int),
            pred == (|i: int| agree_at(lhs@, rhs@, shift as int, tolerance as nat, i)),
            a@.len() == b@.len(),
            forall|t: int| 0 <= t < a@.len() ==> #[trigger] a@[t] - ls == b@[t] - rs && a@[t] >= ls,
            crate::search::retained(a@.map_values(|p: usize| (p - ls) as usize), i as nat, pred),
        decreases upper - i,
    {
        let ghost before = a@.map_values(|p: usize| (p - ls) as usize);
        let x = lhs[i + ls] ^ rhs[i + rs];
        let ok = popcount_exec(x) <= tolerance;
        assert(ok == pred(i as int));
        if ok {
            a.push(i + ls);
            b.push(i + rs);
            assert(a@.map_values(|p: usize| (p - ls) as usize) =~= before.push(i));
        } else {
            assert(a@.map_values(|p: usize| (p - ls) as usize) =~= before);
        }
        let ghost now = a@.map_values(|p: usize| (p - ls) as usize);
        assert forall|q: int| 0 <= q < i && #[trigger] before.contains(q as usize) implies now.contains(q as usize) by {
            let t = choose|t: int| 0 <= t < before.len() && before[t] == q as usize;
            assert(now[t] == q as usize);
        }
        if ok {
            assert(now[now.len() - 1] == i);
        }
        i = i + 1;
    }
    assert(upper == (if compared(lhs@, rhs@, shift as int) > 0 { compared(lhs@, rhs@, shift as int) as nat } else { 0 }));
    proof {
        let sl = shift_starts(shift as int).0;
        if upper > 0 {
            assert(a@.map_values(|p: usize| (p - ls) as usize) =~= a@.map_values(|p: usize| (p - sl) as usize));
        } else {
            if a@.len() > 0 {
                assert(a@.map_values(|p: usize| (p - ls) as usize)[0] < i);
            }
            assert(a@.len() == 0);
            assert(a@.map_values(|p: usize| (p - sl) as usize) =~= Seq::<usize>::empty());
            assert(a@.map_values(|p: usize| (p - ls) as usize) =~= Seq::<usize>::empty());
        }
    }
    (a, b)
}

} // verus!
