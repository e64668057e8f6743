//! Seasons grouped and checked by their number. The service may list several seasons under one
//! number, usually one per audio language.
use vstd::prelude::*;
use crate::download::{stable_order, stably_sorted, is_permutation, listed};
use crate::visit::{
    covers, lemma_text_less_irreflexive, lemma_text_less_total, lemma_text_less_transitive, text_less,
    text_less_exec, texts,
};

verus! {

/// How often `n` occurs in `s`.
pub open spec fn occurrences(s: Seq<u32>, n: u32) -> nat
    decreases s.len(),
{
    if s.len() == 0 {
        0
    } else {
        occurrences(s.drop_last(), n) + if s.last() == n { 1nat } else { 0nat }
    }
}

/// Whether the season numbers are listed in ascending order.
pub open spec fn ascending(s: Seq<u32>) -> bool {
    forall|i: int, j: int| 0 <= i < j < s.len() ==> s[i] < s[j]
}

/// How often `n` occurs in `v`.
fn occurrences_exec(v: &Vec<u32>, n: u32) -> (r: usize)
    ensures
        r == occurrences(v@, n),
{
    let mut c: usize = 0;
    let mut i: usize = 0;
    assert(v@.subrange(0, 0) =~= Seq::<u32>::empty());
    while i < v.len()
        invariant
            i <= v@.len(),
            c == occurrences(v@.subrange(0, i as int), n),
            c <= i,
        decreases v@.len() - i,
    {
        assert(v@.subrange(0, i + 1).drop_last() =~= v@.subrange(0, i as int));
        if v[i] == n {
            c = c + 1;
        }
        i = i + 1;
    }
    assert(v@.subrange(0, v@.len() as int) =~= v@);
    c
}

/// A number occurs in a sequence exactly where it occurs at least once.
proof fn lemma_occurrences_contains(s: Seq<u32>, n: u32)
    ensures
        occurrences(s, n) > 0 <==> s.contains(n),
    decreases s.len(),
{
    if s.len() > 0 {
        lemma_occurrences_contains(s.drop_last(), n);
        if s.drop_last().contains(n) {
            let j = choose|j: int| 0 <= j < s.drop_last().len() && s.drop_last()[j] == n;
            assert(s[j] == n);
        }
        if s.contains(n) && s.last() != n {
            let j = choose|j: int| 0 <= j < s.len() && s[j] == n;
            assert(s.drop_last()[j] == n);
        }
    }
}

/// Whether no number occurs twice.
fn contains_u32(v: &Vec<u32>, n: u32) -> (r: bool)
    ensures
        r == v@.contains(n),
{
    let mut i: usize = 0;
    while i < v.len()
        invariant
            i <= v@.len(),
            forall|k: int| 0 <= k < i ==> v@[k] != n,
        decreases v@.len() - i,
    {
        if v[i] == n {
            return true;
        }
        i = i + 1;
    }
    false
}

/// The season numbers that occur more than once, in ascending order.
pub fn get_duplicated_seasons(season_numbers: &Vec<u32>) -> (r: Vec<u32>)
    ensures
        ascending(r@),
        forall|n: u32| #[trigger] r@.contains(n) <==> occurrences(season_numbers@, n) >= 2,
{
    let mut dup: Vec<u32> = Vec::new();
    let mut i: usize = 0;
    while i < season_numbers.len()
        invariant
            i <= season_numbers@.len(),
            dup@.no_duplicates(),
            forall|n: u32| #[trigger] dup@.contains(n) <==> (occurrences(season_numbers@, n) >= 2 && season_numbers@.subrange(
                0,
                i as int,
            ).contains(n)),
        decreases season_numbers@.len() - i,
    {
        let n = season_numbers[i];
        assert forall|m: u32| #[trigger] season_numbers@.subrange(0, i + 1).contains(m) <==> (season_numbers@.subrange(
            0,
            i as int,
        ).contains(m) || m == n) by {
            if season_numbers@.subrange(0, i + 1).contains(m) && m != n {
                let j = choose|j: int| 0 <= j < i + 1 && #[trigger] season_numbers@.subrange(0, i + 1)[j] == m;
                assert(season_numbers@.subrange(0, i as int)[j] == m);
            }
            if season_numbers@.subrange(0, i as int).contains(m) {
                let j = choose|j: int| 0 <= j < i && #[trigger] season_numbers@.subrange(0, i as int)[j] == m;
                assert(season_numbers@.subrange(0, i + 1)[j] == m);
            }
            if m == n {
                assert(season_numbers@.subrange(0, i + 1)[i as int] == m);
            }
        }
        let ghost before = dup@;
        if occurrences_exec(season_numbers, n) >= 2 && !contains_u32(&dup, n) {
            dup.push(n);
            assert forall|m: u32| #[trigger] dup@.contains(m) <==> (before.contains(m) || m == n) by {
                if dup@.contains(m) && m != n {
                    let j = choose|j: int| 0 <= j < dup@.len() && dup@[j] == m;
                    assert(before[j] == m);
                }
                if before.contains(m) {
                    let j = choose|j: int| 0 <= j < before.len() && before[j] == m;
                    assert(dup@[j] == m);
                }
                if m == n {
                    assert(dup@[before.len() as int] == m);
                }
            }
        }
        i = i + 1;
    }
    assert(season_numbers@.subrange(0, season_numbers@.len() as int) =~= season_numbers@);
    let keys = widen(&dup);
    let order = stable_order(&keys);
    let mut r: Vec<u32> = Vec::new();
    let mut k: usize = 0;
    while k < order.len()
        invariant
            k <= order@.len(),
            is_permutation(order@, dup@.len()),
            stably_sorted(keys@, order@),
            keys@.len() == dup@.len(),
            forall|j: int| 0 <= j < keys@.len() ==> #[trigger] keys@[j] == dup@[j] as u64,
            dup@.no_duplicates(),
            forall|n: u32| #[trigger] dup@.contains(n) <==> (occurrences(season_numbers@, n) >= 2 && season_numbers@.contains(n)),
            r@.len() == k,
            forall|j: int| 0 <= j < k ==> #[trigger] r@[j] == dup@[order@[j] as int],
        decreases order@.len() - k,
    {
        r.push(dup[order[k]]);
        k = k + 1;
    }
    proof {
        assert forall|a: int, b: int| 0 <= a < b < r@.len() implies r@[a] < r@[b] by {
            assert(keys@[order@[a] as int] < keys@[order@[b] as int] || (keys@[order@[a] as int] == keys@[order@[b] as int]
                && order@[a] < order@[b]));
            assert(order@[a] != order@[b]);
        }
        assert forall|n: u32| #[trigger] r@.contains(n) <==> dup@.contains(n) by {
            lemma_occurrences_contains(season_numbers@, n);
            if dup@.contains(n) {
                let j = choose|j: int| 0 <= j < dup@.len() && dup@[j] == n;
                assert(crate::download::listed(order@, j));
                let a = choose|a: int| 0 <= a < order@.len() && order@[a] == j;
                assert(r@[a] == n);
            }
            if r@.contains(n) {
                let a = choose|a: int| 0 <= a < r@.len() && r@[a] == n;
                assert(dup@[order@[a] as int] == n);
            }
        }
        assert forall|n: u32| #[trigger] r@.contains(n) <==> occurrences(season_numbers@, n) >= 2 by {
            lemma_occurrences_contains(season_numbers@, n);
            assert(r@.contains(n) <==> dup@.contains(n));
        }
    }
    r
}

/// The numbers as `u64`.
fn widen(v: &Vec<u32>) -> (r: Vec<u64>)
    ensures
        r@.len() == v@.len(),
        forall|k: int| 0 <= k < v@.len() ==> #[trigger] r@[k] == v@[k] as u64,
{
    let mut r: Vec<u64> = Vec::new();
    let mut i: usize = 0;
    while i < v.len()
        invariant
            i <= v@.len(),
            r@.len() == i,
            forall|k: int| 0 <= k < i ==> #[trigger] r@[k] == v@[k] as u64,
        decreases v@.len() - i,
    {
        r.push(v[i] as u64);
        i = i + 1;
    }
    r
}

/// The numbers that occur in `v`, ascending, each once.
fn present_numbers(v: &Vec<u32>) -> (r: Vec<u32>)
    ensures
        ascending(r@),
        forall|n: u32| #[trigger] r@.contains(n) <==> v@.contains(n),
{
    let mut r: Vec<u32> = Vec::new();
    let mut i: usize = 0;
    while i < v.len()
        invariant
            i <= v@.len(),
            ascending(r@),
            forall|n: u32| #[trigger] r@.contains(n) <==> v@.subrange(0, i as int).contains(n),
        decreases v@.len() - i,
    {
        let x = v[i];
        let ghost before = r@;
        let ghost pre = v@.subrange(0, i as int);
        let ghost post = v@.subrange(0, i + 1);
        assert forall|n: u32| #[trigger] post.contains(n) <==> (pre.contains(n) || n == x) by {
            if post.contains(n) {
                let j = choose|j: int| 0 <= j < post.len() && post[j] == n;
                if j < i {
                    assert(pre[j] == n);
                }
            }
            if pre.contains(n) {
                let j = choose|j: int| 0 <= j < pre.len() && pre[j] == n;
                assert(post[j] == n);
            }
            if n == x {
                assert(post[i as int] == n);
            }
        }
        if !contains_u32(&r, x) {
            let mut p: usize = 0;
            while p < r.len() && r[p] < x
                invariant
                    p <= r@.len(),
                    forall|q: int| 0 <= q < p ==> r@[q] < x,
                decreases r@.len() - p,
            {
                p = p + 1;
            }
            r.insert(p, x);
            assert forall|a: int, b: int| 0 <= a < b < r@.len() implies r@[a] < r@[b] by {
                if b < p {
                    assert(r@[a] == before[a] && r@[b] == before[b]);
                } else if b == p {
                    assert(r@[a] == before[a]);
                } else if a == p {
                    assert(r@[b] == before[b - 1]);
                    assert(before[p as int] != x);
                    assert(before[p as int] >= x);
                    if b - 1 > p {
                        assert(before[p as int] < before[b - 1]);
                    }
                } else if a < p {
                    assert(r@[a] == before[a] && r@[b] == before[b - 1]);
                } else {
                    assert(r@[a] == before[a - 1] && r@[b] == before[b - 1]);
                }
            }
            assert forall|n: u32| #[trigger] r@.contains(n) <==> (before.contains(n) || n == x) by {
                if r@.contains(n) {
                    let j = choose|j: int| 0 <= j < r@.len() && r@[j] == n;
                    if j < p {
                        assert(before[j] == n);
                    } else if j > p {
                        assert(before[j - 1] == n);
                    }
                }
                if before.contains(n) {
                    let j = choose|j: int| 0 <= j < before.len() && before[j] == n;
                    if j < p {
                        assert(r@[j] == n);
                    } else {
                        assert(r@[j + 1] == n);
                    }
                }
                if n == x {
                    assert(r@[p as int] == n);
                }
            }
        }
        i = i + 1;
    }
    assert(v@.subrange(0, v@.len() as int) =~= v@);
    r
}

/// The positions of the entries of `numbers` equal to `n`, ascending.
fn positions_of(numbers: &Vec<u32>, n: u32) -> (r: Vec<usize>)
    ensures
        forall|a: int, b: int| 0 <= a < b < r@.len() ==> r@[a] < r@[b],
        forall|a: int| 0 <= a < r@.len() ==> (#[trigger] r@[a]) < numbers@.len() && numbers@[r@[a] as int] == n,
        forall|k: int| 0 <= k < numbers@.len() && numbers@[k] == n ==> r@.contains(k as usize),
{
    let mut r: Vec<usize> = Vec::new();
    let mut k: usize = 0;
    while k < numbers.len()
        invariant
            k <= numbers@.len(),
            forall|a: int, b: int| 0 <= a < b < r@.len() ==> r@[a] < r@[b],
            forall|a: int| 0 <= a < r@.len() ==> (#[trigger] r@[a]) < k && numbers@[r@[a] as int] == n,
            forall|q: int| 0 <= q < k && numbers@[q] == n ==> r@.contains(q as usize),
        decreases numbers@.len() - k,
    {
        let ghost before = r@;
        if numbers[k] == n {
            r.push(k);
        }
        assert forall|q: int| 0 <= q <= k && numbers@[q] == n implies r@.contains(q as usize) by {
            if q < k {
                let j = choose|j: int| 0 <= j < before.len() && before[j] == q as usize;
                assert(r@[j] == q as usize);
            } else {
                assert(r@[r@.len() - 1] == k);
            }
        }
        k = k + 1;
    }
    r
}

/// The seasons grouped by their numbers `numbers`: one group of positions per number, the groups
/// by ascending number, each group's positions ascending.
pub fn season_groups(numbers: &Vec<u32>) -> (r: Vec<Vec<usize>>)
    ensures
        forall|g: int| 0 <= g < r@.len() ==> (#[trigger] r@[g])@.len() > 0,
        forall|g: int, i: int| 0 <= g < r@.len() && 0 <= i < r@[g]@.len() ==> {
            &&& (#[trigger] r@[g]@[i]) < numbers@.len()
            &&& numbers@[r@[g]@[i] as int] == numbers@[r@[g]@[0] as int]
        },
        forall|g: int, i: int, j: int| 0 <= g < r@.len() && 0 <= i < j < r@[g]@.len() ==> #[trigger] r@[g]@[i] < #[trigger] r@[g]@[j],
        forall|g: int, h: int| 0 <= g < h < r@.len() ==> numbers@[(#[trigger] r@[g])@[0] as int] < numbers@[(#[trigger] r@[h])@[0] as int],
        forall|k: int| 0 <= k < numbers@.len() ==> #[trigger] crate::visit::covers(r@, k),
{
    let ds = present_numbers(numbers);
    let mut r: Vec<Vec<usize>> = Vec::new();
    let mut d: usize = 0;
    while d < ds.len()
        invariant
            d <= ds@.len(),
            ascending(ds@),
            forall|n: u32| #[trigger] ds@.contains(n) <==> numbers@.contains(n),
            r@.len() == d,
            forall|g: int| 0 <= g < d ==> (#[trigger] r@[g])@.len() > 0 && numbers@[r@[g]@[0] as int] == ds@[g],
            forall|g: int, i: int| 0 <= g < r@.len() && 0 <= i < r@[g]@.len() ==> {
                &&& (#[trigger] r@[g]@[i]) < numbers@.len()
                &&& numbers@[r@[g]@[i] as int] == ds@[g]
            },
            forall|g: int, i: int, j: int| 0 <= g < r@.len() && 0 <= i < j < r@[g]@.len() ==> #[trigger] r@[g]@[i] < #[trigger] r@[g]@[j],
            forall|k: int| 0 <= k < numbers@.len() && ds@.subrange(0, d as int).contains(numbers@[k]) ==> #[trigger] crate::visit::covers(r@, k),
        decreases ds@.len() - d,
    {
        let n = ds[d];
        assert(ds@[d as int] == n);
        assert(ds@.contains(n));
        assert(numbers@.contains(n));
        let members = positions_of(numbers, n);
        let ghost mv = members@;
        proof {
            let j = choose|j: int| 0 <= j < numbers@.len() && numbers@[j] == n;
            assert(members@.contains(j as usize));
        }
        let ghost before = r@;
        let ghost pre = ds@.subrange(0, d as int);
        let ghost post = ds@.subrange(0, d + 1);
        r.push(members);
        assert forall|k: int| 0 <= k < numbers@.len() && post.contains(numbers@[k]) implies #[trigger] crate::visit::covers(r@, k) by {
            let j = choose|j: int| 0 <= j < post.len() && post[j] == numbers@[k];
            if j < d {
                assert(pre[j] == numbers@[k]);
                assert(crate::visit::covers(before, k));
                let (g, i) = choose|g: int, i: int| 0 <= g < before.len() && 0 <= i < before[g]@.len() && #[trigger] before[g]@[i] == k;
                assert(r@[g]@[i] == k);
            } else {
                assert(numbers@[k] == n);
                assert(k < numbers.len());
                assert((k as usize) as int == k);
                assert(mv.contains(k as usize));
                assert(r@[d as int]@ == mv);
                let i = choose|i: int| 0 <= i < mv.len() && mv[i] == k as usize;
                assert(r@[d as int]@[i] == k);
            }
        }
        d = d + 1;
    }
    proof {
        assert(ds@.subrange(0, ds@.len() as int) =~= ds@);
        assert forall|k: int| 0 <= k < numbers@.len() implies #[trigger] crate::visit::covers(r@, k) by {
            assert(numbers@.contains(numbers@[k]));
            assert(ds@.contains(numbers@[k]));
        }
    }
    r
}

/// The seasons whose number is shared with another season, as positions: by ascending number,
/// seasons of one number in their order. These are the seasons offered for a choice.
pub fn duplicated_season_entries(numbers: &Vec<u32>) -> (r: Vec<usize>)
    ensures
        forall|a: int, b: int| 0 <= a < b < r@.len() ==> numbers@[#[trigger] r@[a] as int] < numbers@[#[trigger] r@[b] as int]
            || (numbers@[r@[a] as int] == numbers@[r@[b] as int] && r@[a] < r@[b]),
        forall|a: int| 0 <= a < r@.len() ==> (#[trigger] r@[a]) < numbers@.len() && occurrences(numbers@, numbers@[r@[a] as int]) >= 2,
        forall|k: int| 0 <= k < numbers@.len() && occurrences(numbers@, #[trigger] numbers@[k]) >= 2 ==> r@.contains(k as usize),
{
    let groups = season_groups(numbers);
    let mut r: Vec<usize> = Vec::new();
    let mut gi: usize = 0;
    while gi < groups.len()
        invariant
            gi <= groups@.len(),
            forall|g: int| 0 <= g < groups@.len() ==> (#[trigger] groups@[g])@.len() > 0,
            forall|g: int, i: int| 0 <= g < groups@.len() && 0 <= i < groups@[g]@.len() ==> {
                &&& (#[trigger] groups@[g]@[i]) < numbers@.len()
                &&& numbers@[groups@[g]@[i] as int] == numbers@[groups@[g]@[0] as int]
            },
            forall|g: int, i: int, j: int| 0 <= g < groups@.len() && 0 <= i < j < groups@[g]@.len() ==> #[trigger] groups@[g]@[i]
                < #[trigger] groups@[g]@[j],
            forall|g: int, h: int| 0 <= g < h < groups@.len() ==> numbers@[(#[trigger] groups@[g])@[0] as int]
                < numbers@[(#[trigger] groups@[h])@[0] as int],
            forall|a: int, b: int| 0 <= a < b < r@.len() ==> numbers@[#[trigger] r@[a] as int] < numbers@[#[trigger] r@[b] as int]
                || (numbers@[r@[a] as int] == numbers@[r@[b] as int] && r@[a] < r@[b]),
            forall|a: int| 0 <= a < r@.len() ==> (#[trigger] r@[a]) < numbers@.len() && occurrences(numbers@, numbers@[r@[a] as int]) >= 2,
            gi < groups@.len() ==> forall|a: int| 0 <= a < r@.len() ==> numbers@[#[trigger] r@[a] as int] < numbers@[groups@[gi as int]@[0] as int],
            forall|g: int, i: int| 0 <= g < gi && 0 <= i < groups@[g]@.len() && occurrences(numbers@, numbers@[#[trigger] groups@[g]@[i] as int]) >= 2
                ==> r@.contains(groups@[g]@[i]),
        decreases groups@.len() - gi,
    {
        let members = &groups[gi];
        let ghost start = r@;
        let n = numbers[members[0]];
        if occurrences_exec(numbers, n) >= 2 {
            let mut t: usize = 0;
            while t < members.len()
                invariant
                    t <= members@.len(),
                    members == groups@[gi as int],
                    gi < groups@.len(),
                    members@.len() > 0,
                    n == numbers@[members@[0] as int],
                    occurrences(numbers@, n) >= 2,
                    forall|i: int| 0 <= i < members@.len() ==> (#[trigger] members@[i]) < numbers@.len() && numbers@[members@[i] as int] == n,
                    forall|i: int, j: int| 0 <= i < j < members@.len() ==> #[trigger] members@[i] < #[trigger] members@[j],
                    forall|a: int| 0 <= a < start.len() ==> numbers@[#[trigger] start[a] as int] < n,
                    r@ == start + members@.subrange(0, t as int),
                    forall|a: int, b: int| 0 <= a < b < start.len() ==> numbers@[#[trigger] start[a] as int] < numbers@[#[trigger] start[b] as int]
                        || (numbers@[start[a] as int] == numbers@[start[b] as int] && start[a] < start[b]),
                    forall|a: int| 0 <= a < start.len() ==> (#[trigger] start[a]) < numbers@.len() && occurrences(numbers@, numbers@[start[a] as int]) >= 2,
                decreases members@.len() - t,
            {
                r.push(members[t]);
                t = t + 1;
                assert(r@ =~= start + members@.subrange(0, t as int));
            }
            assert(members@.subrange(0, t as int) =~= members@);
            assert forall|a: int, b: int| 0 <= a < b < r@.len() implies numbers@[#[trigger] r@[a] as int] < numbers@[#[trigger] r@[b] as int]
                || (numbers@[r@[a] as int] == numbers@[r@[b] as int] && r@[a] < r@[b]) by {
                if b < start.len() {
                    assert(r@[a] == start[a] && r@[b] == start[b]);
                } else if a < start.len() {
                    assert(r@[a] == start[a] && r@[b] == members@[b - start.len()]);
                } else {
                    assert(r@[a] == members@[a - start.len()] && r@[b] == members@[b - start.len()]);
                }
            }
            assert forall|a: int| 0 <= a < r@.len() implies (#[trigger] r@[a]) < numbers@.len() && occurrences(numbers@, numbers@[r@[a] as int]) >= 2 by {
                if a >= start.len() {
                    assert(r@[a] == members@[a - start.len()]);
                }
            }
        }
        proof {
            if gi + 1 < groups@.len() {
                assert(numbers@[groups@[gi as int]@[0] as int] < numbers@[groups@[gi + 1]@[0] as int]);
                assert forall|a: int| 0 <= a < r@.len() implies numbers@[#[trigger] r@[a] as int] < numbers@[groups@[gi + 1]@[0] as int] by {
                    if a >= start.len() {
                        assert(r@[a] == groups@[gi as int]@[a - start.len()]);
                    }
                }
            }
            assert forall|g: int, i: int| 0 <= g < gi + 1 && 0 <= i < groups@[g]@.len() && occurrences(numbers@, numbers@[#[trigger] groups@[g]@[i] as int]) >= 2
                implies r@.contains(groups@[g]@[i]) by {
                if g < gi {
                    assert(start.contains(groups@[g]@[i]));
                    let a = choose|a: int| 0 <= a < start.len() && start[a] == groups@[g]@[i];
                    assert(r@[a] == groups@[g]@[i]);
                } else {
                    assert(numbers@[groups@[g]@[i] as int] == n);
                    assert(r@[start.len() + i] == groups@[g]@[i]);
                }
            }
        }
        gi = gi + 1;
    }
    proof {
        assert forall|k: int| 0 <= k < numbers@.len() && occurrences(numbers@, #[trigger] numbers@[k]) >= 2 implies r@.contains(k as usize) by {
            assert(crate::visit::covers(groups@, k));
            let (g, i) = choose|g: int, i: int| 0 <= g < groups@.len() && 0 <= i < groups@[g]@.len() && #[trigger] groups@[g]@[i] == k;
            assert(occurrences(numbers@, numbers@[groups@[g]@[i] as int]) >= 2);
        }
    }
    r
}

/// The seasons left after a choice among the duplicated ones: `duplicates` are the positions of
/// the seasons offered (see [`duplicated_season_entries`]), `keep` the positions in that list of
/// the ones chosen; every season whose id is that of an offered season not chosen is dropped.
/// The positions of the seasons left, ascending.
pub fn kept_after_choice(season_ids: &Vec<String>, duplicates: &Vec<usize>, keep: &Vec<usize>) -> (r: Vec<usize>)
    requires
        forall|i: int| 0 <= i < duplicates@.len() ==> (#[trigger] duplicates@[i]) < season_ids@.len(),
    ensures
        forall|a: int, b: int| 0 <= a < b < r@.len() ==> r@[a] < r@[b],
        forall|a: int| 0 <= a < r@.len() ==> (#[trigger] r@[a]) < season_ids@.len(),
        forall|j: int| 0 <= j < season_ids@.len() ==> (r@.contains(j as usize) <==> !dropped_by_choice(
            season_ids@,
            duplicates@,
            keep@,
            #[trigger] season_ids@[j]@,
        )),
{
    let mut r: Vec<usize> = Vec::new();
    let mut j: usize = 0;
    while j < season_ids.len()
        invariant
            j <= season_ids@.len(),
            forall|i: int| 0 <= i < duplicates@.len() ==> (#[trigger] duplicates@[i]) < season_ids@.len(),
            forall|a: int, b: int| 0 <= a < b < r@.len() ==> r@[a] < r@[b],
            forall|a: int| 0 <= a < r@.len() ==> (#[trigger] r@[a]) < j,
            forall|a: int| 0 <= a < r@.len() ==> !dropped_by_choice(season_ids@, duplicates@, keep@, season_ids@[#[trigger] r@[a] as int]@),
            forall|q: int| 0 <= q < j && !dropped_by_choice(season_ids@, duplicates@, keep@, #[trigger] season_ids@[q]@) ==> r@.contains(q as usize),
        decreases season_ids@.len() - j,
    {
        let mut dropped = false;
        let mut i: usize = 0;
        while i < duplicates.len()
            invariant
                i <= duplicates@.len(),
                j < season_ids@.len(),
                forall|i2: int| 0 <= i2 < duplicates@.len() ==> (#[trigger] duplicates@[i2]) < season_ids@.len(),
                dropped == exists|i2: int| 0 <= i2 < i && !keep@.contains(i2 as usize)
                    && #[trigger] season_ids@[duplicates@[i2] as int]@ == season_ids@[j as int]@,
            decreases duplicates@.len() - i,
        {
            if !contains_usize(keep, i) && season_ids[duplicates[i]].eq(&season_ids[j]) {
                dropped = true;
            }
            i = i + 1;
        }
        let ghost before = r@;
        if !dropped {
            r.push(j);
        }
        assert forall|q: int| 0 <= q < j + 1 && !dropped_by_choice(season_ids@, duplicates@, keep@, #[trigger] season_ids@[q]@)
            implies r@.contains(q as usize) by {
            if q < j {
                let a = choose|a: int| 0 <= a < before.len() && before[a] == q as usize;
                assert(r@[a] == q as usize);
            } else {
                assert(r@[r@.len() - 1] == j);
            }
        }
        j = j + 1;
    }
    proof {
        assert forall|q: int| 0 <= q < season_ids@.len() && r@.contains(q as usize) implies !dropped_by_choice(
            season_ids@,
            duplicates@,
            keep@,
            #[trigger] season_ids@[q]@,
        ) by {
            let a = choose|a: int| 0 <= a < r@.len() && r@[a] == q as usize;
            assert(season_ids@[r@[a] as int]@ == season_ids@[q]@);
        }
    }
    r
}

/// Whether a season with the id `id` is dropped by a choice among duplicated seasons: an offered
/// season that was not chosen has that id.
pub open spec fn dropped_by_choice(ids: Seq<String>, duplicates: Seq<usize>, keep: Seq<usize>, id: Seq<char>) -> bool {
    exists|i: int| 0 <= i < duplicates.len() && !keep.contains(i as usize) && #[trigger] ids[duplicates[i] as int]@ == id
}

fn contains_usize(v: &Vec<usize>, n: usize) -> (r: bool)
    ensures
        r == v@.contains(n),
{
    let mut i: usize = 0;
    while i < v.len()
        invariant
            i <= v@.len(),
            forall|k: int| 0 <= k < i ==> v@[k] != n,
        decreases v@.len() - i,
    {
        if v[i] == n {
            assert(v@[i as int] == n);
            return true;
        }
        i = i + 1;
    }
    false
}

/// Whether `order` lists indices by their texts in `keys`, indices of equal texts in their own
/// order (a stable sort by text).
pub open spec fn stably_sorted_by_text(keys: Seq<Seq<char>>, order: Seq<usize>) -> bool {
    forall|i: int, j: int|
        0 <= i < j < order.len() ==> (text_less(keys[order[i] as int], keys[order[j] as int]) || (keys[order[i] as int]
            == keys[order[j] as int] && order[i] < order[j]))
}

/// The order in which a stable sort by text puts the indices of `keys`.
fn stable_text_order(keys: &Vec<String>) -> (r: Vec<usize>)
    ensures
        is_permutation(r@, keys@.len()),
        stably_sorted_by_text(texts(keys@), r@),
{
    let ghost t = texts(keys@);
    let mut order: Vec<usize> = Vec::new();
    let mut idx: usize = 0;
    while idx < keys.len()
        invariant
            idx <= keys@.len(),
            t == texts(keys@),
            order@.len() == idx,
            forall|i: int| 0 <= i < idx ==> #[trigger] order@[i] < idx,
            forall|k: int| 0 <= k < idx ==> #[trigger] listed(order@, k),
            stably_sorted_by_text(t, order@),
        decreases keys@.len() - idx,
    {
        let mut p: usize = 0;
        while p < order.len() && !text_less_exec(&keys[idx], &keys[order[p]])
            invariant
                p <= order@.len(),
                order@.len() == idx,
                idx < keys@.len(),
                t == texts(keys@),
                forall|i: int| 0 <= i < idx ==> #[trigger] order@[i] < idx,
                forall|q: int| 0 <= q < p ==> !text_less(t[idx as int], t[#[trigger] order@[q] as int]),
            decreases order@.len() - p,
        {
            p = p + 1;
        }
        let ghost before = order@;
        order.insert(p, idx);
        assert forall|k: int| 0 <= k < idx + 1 implies #[trigger] listed(order@, k) by {
            if k == idx {
                assert(order@[p as int] == k);
            } else {
                assert(listed(before, k));
                let q = choose|i: int| 0 <= i < before.len() && before[i] == k;
                if q < p {
                    assert(order@[q] == k);
                } else {
                    assert(order@[q + 1] == k);
                }
            }
        }
        assert forall|i: int, j: int| 0 <= i < j < order@.len() implies (text_less(t[order@[i] as int], t[order@[j] as int])
            || (t[order@[i] as int] == t[order@[j] as int] && order@[i] < order@[j])) by {
            if j < p {
                assert(order@[i] == before[i] && order@[j] == before[j]);
            } else if j == p {
                assert(order@[i] == before[i]);
                assert(!text_less(t[idx as int], t[before[i] as int]));
                if t[before[i] as int] != t[idx as int] {
                    lemma_text_less_total(t[before[i] as int], t[idx as int]);
                }
            } else if i == p {
                assert(order@[j] == before[j - 1]);
                assert(p < before.len());
                assert(text_less(t[idx as int], t[before[p as int] as int]));
                if j - 1 > p {
                    assert(text_less(t[before[p as int] as int], t[before[j - 1] as int]) || t[before[p as int] as int]
                        == t[before[j - 1] as int]);
                    if t[before[p as int] as int] != t[before[j - 1] as int] {
                        lemma_text_less_transitive(t[idx as int], t[before[p as int] as int], t[before[j - 1] as int]);
                    }
                }
            } else if i < p {
                assert(order@[i] == before[i] && order@[j] == before[j - 1]);
            } else {
                assert(order@[i] == before[i - 1] && order@[j] == before[j - 1]);
            }
        }
        idx = idx + 1;
    }
    proof {
        assert forall|i: int, j: int| 0 <= i < j < keys@.len() implies order@[i] != order@[j] by {
            lemma_text_less_irreflexive(t[order@[i] as int]);
        }
    }
    order
}

/// Whether `a` and `b` hold the same entries, each once where `b` holds each once.
pub open spec fn same_members(a: Seq<usize>, b: Seq<usize>) -> bool {
    &&& a.len() == b.len()
    &&& forall|t: int| 0 <= t < a.len() ==> b.contains(#[trigger] a[t])
    &&& forall|u: int| 0 <= u < b.len() ==> a.contains(#[trigger] b[u])
}

/// The formats of one series, each given as `(season number, episode number, series id)`,
/// grouped by season and ordered, as positions: one group per season number, each group by
/// episode number (equal numbers in the order given); the groups by the series id of their first
/// format, groups of one series id by ascending season number.
pub fn sort_formats_after_seasons(formats: &Vec<(u32, u64, String)>) -> (r: Vec<Vec<usize>>)
    ensures
        forall|g: int| 0 <= g < r@.len() ==> (#[trigger] r@[g])@.len() > 0,
        forall|g: int, i: int| 0 <= g < r@.len() && 0 <= i < r@[g]@.len() ==> {
            &&& (#[trigger] r@[g]@[i]) < formats@.len()
            &&& formats@[r@[g]@[i] as int].0 == formats@[r@[g]@[0] as int].0
        },
        forall|k: int| 0 <= k < formats@.len() ==> #[trigger] covers(r@, k),
        forall|g: int, i: int, h: int, j: int|
            0 <= g < r@.len() && 0 <= i < r@[g]@.len() && 0 <= h < r@.len() && 0 <= j < r@[h]@.len() && #[trigger] r@[g]@[i]
                == #[trigger] r@[h]@[j] ==> g == h && i == j,
        forall|g: int, h: int| 0 <= g < h < r@.len() ==> formats@[(#[trigger] r@[g])@[0] as int].0 != formats@[(
        #[trigger] r@[h])@[0] as int].0,
        forall|g: int, i: int, j: int| 0 <= g < r@.len() && 0 <= i < j < r@[g]@.len() ==> {
            let a = #[trigger] r@[g]@[i];
            let b = #[trigger] r@[g]@[j];
            formats@[a as int].1 < formats@[b as int].1 || (formats@[a as int].1 == formats@[b as int].1 && a < b)
        },
        forall|g: int, h: int| 0 <= g < h < r@.len() ==> {
            let a = (#[trigger] r@[g])@[0];
            let b = (#[trigger] r@[h])@[0];
            text_less(formats@[a as int].2@, formats@[b as int].2@) || (formats@[a as int].2@ == formats@[b as int].2@
                && formats@[a as int].0 < formats@[b as int].0)
        },
{
    let ghost f = formats@;
    let mut seasons: Vec<u32> = Vec::new();
    let mut k: usize = 0;
    while k < formats.len()
        invariant
            k <= f.len(),
            f == formats@,
            seasons@.len() == k,
            forall|q: int| 0 <= q < k ==> #[trigger] seasons@[q] == f[q].0,
        decreases f.len() - k,
    {
        seasons.push(formats[k].0);
        k = k + 1;
    }
    let groups = season_groups(&seasons);
    // Each group ordered by episode number.
    let mut inner: Vec<Vec<usize>> = Vec::new();
    let mut gi: usize = 0;
    while gi < groups.len()
        invariant
            gi <= groups@.len(),
            f == formats@,
            seasons@.len() == f.len(),
            forall|q: int| 0 <= q < f.len() ==> #[trigger] seasons@[q] == f[q].0,
            forall|g: int| 0 <= g < groups@.len() ==> (#[trigger] groups@[g])@.len() > 0,
            forall|g: int, i: int| 0 <= g < groups@.len() && 0 <= i < groups@[g]@.len() ==> {
                &&& (#[trigger] groups@[g]@[i]) < f.len()
                &&& seasons@[groups@[g]@[i] as int] == seasons@[groups@[g]@[0] as int]
            },
            forall|g: int, i: int, j: int| 0 <= g < groups@.len() && 0 <= i < j < groups@[g]@.len() ==> #[trigger] groups@[g]@[i]
                < #[trigger] groups@[g]@[j],
            inner@.len() == gi,
            forall|g: int| 0 <= g < gi ==> same_members((#[trigger] inner@[g])@, groups@[g]@),
            forall|g: int, i: int, j: int| 0 <= g < gi && 0 <= i < j < inner@[g]@.len() ==> {
                let a = #[trigger] inner@[g]@[i];
                let b = #[trigger] inner@[g]@[j];
                f[a as int].1 < f[b as int].1 || (f[a as int].1 == f[b as int].1 && a < b)
            },
        decreases groups@.len() - gi,
    {
        let members = &groups[gi];
        let ghost mv = members@;
        let mut keys: Vec<u64> = Vec::new();
        let mut t: usize = 0;
        while t < members.len()
            invariant
                t <= mv.len(),
                mv == members@,
                f == formats@,
                forall|i: int| 0 <= i < mv.len() ==> (#[trigger] mv[i]) < f.len(),
                keys@.len() == t,
                forall|q: int| 0 <= q < t ==> #[trigger] keys@[q] == f[mv[q] as int].1,
            decreases mv.len() - t,
        {
            keys.push(formats[members[t]].1);
            t = t + 1;
        }
        let ord = stable_order(&keys);
        let mut sorted: Vec<usize> = Vec::new();
        let mut u: usize = 0;
        while u < ord.len()
            invariant
                u <= ord@.len(),
                ord@.len() == mv.len(),
                mv == members@,
                is_permutation(ord@, keys@.len()),
                keys@.len() == mv.len(),
                sorted@.len() == u,
                forall|q: int| 0 <= q < u ==> #[trigger] sorted@[q] == mv[ord@[q] as int],
            decreases ord@.len() - u,
        {
            sorted.push(members[ord[u]]);
            u = u + 1;
        }
        proof {
            assert forall|i: int, j: int| 0 <= i < j < sorted@.len() implies ({
                let a = #[trigger] sorted@[i];
                let b = #[trigger] sorted@[j];
                f[a as int].1 < f[b as int].1 || (f[a as int].1 == f[b as int].1 && a < b)
            }) by {
                assert(stably_sorted(keys@, ord@));
                let oi = ord@[i];
                let oj = ord@[j];
                assert(keys@[oi as int] < keys@[oj as int] || (keys@[oi as int] == keys@[oj as int] && oi < oj));
                assert(oi < mv.len() && oj < mv.len());
                if oi < oj {
                    assert(mv[oi as int] < mv[oj as int]);
                }
                assert(keys@[ord@[i] as int] == f[mv[ord@[i] as int] as int].1);
                assert(keys@[ord@[j] as int] == f[mv[ord@[j] as int] as int].1);
            }
            assert forall|t2: int| 0 <= t2 < sorted@.len() implies mv.contains(#[trigger] sorted@[t2]) by {
                assert(sorted@[t2] == mv[ord@[t2] as int]);
            }
            assert forall|u2: int| 0 <= u2 < mv.len() implies sorted@.contains(#[trigger] mv[u2]) by {
                assert(listed(ord@, u2));
                let q = choose|q: int| 0 <= q < ord@.len() && ord@[q] == u2;
                assert(sorted@[q] == mv[u2]);
            }
        }
        inner.push(sorted);
        gi = gi + 1;
    }
    proof {
        assert forall|g: int, i: int| 0 <= g < inner@.len() && 0 <= i < inner@[g]@.len() implies {
            &&& (#[trigger] inner@[g]@[i]) < f.len()
            &&& f[inner@[g]@[i] as int].0 == f[groups@[g]@[0] as int].0
        } by {
            assert(same_members(inner@[g]@, groups@[g]@));
            assert(groups@[g]@.contains(inner@[g]@[i]));
            let u = choose|u: int| 0 <= u < groups@[g]@.len() && groups@[g]@[u] == inner@[g]@[i];
            assert(groups@[g]@[u] < f.len());
            assert(seasons@[groups@[g]@[u] as int] == seasons@[groups@[g]@[0] as int]);
        }
        assert forall|q: int| 0 <= q < f.len() implies #[trigger] covers(inner@, q) by {
            assert(covers(groups@, q));
            let (g, i) = choose|g: int, i: int| 0 <= g < groups@.len() && 0 <= i < groups@[g]@.len() && #[trigger] groups@[g]@[i] == q;
            assert(same_members(inner@[g]@, groups@[g]@));
            assert(inner@[g]@.contains(groups@[g]@[i]));
            let j = choose|j: int| 0 <= j < inner@[g]@.len() && inner@[g]@[j] == groups@[g]@[i];
            assert(inner@[g]@[j] == q);
        }
        assert forall|g: int, h: int| 0 <= g < h < inner@.len() implies f[(#[trigger] inner@[g])@[0] as int].0 < f[(
        #[trigger] inner@[h])@[0] as int].0 by {
            assert(same_members(inner@[g]@, groups@[g]@));
            assert(same_members(inner@[h]@, groups@[h]@));
            assert(inner@[g]@.len() > 0 && inner@[h]@.len() > 0);
            assert(f[inner@[g]@[0] as int].0 == f[groups@[g]@[0] as int].0);
            assert(f[inner@[h]@[0] as int].0 == f[groups@[h]@[0] as int].0);
            assert(seasons@[groups@[g]@[0] as int] < seasons@[groups@[h]@[0] as int]);
        }
    }
    // The series id of each group's first format.
    let mut ids: Vec<String> = Vec::new();
    let mut g: usize = 0;
    while g < inner.len()
        invariant
            g <= inner@.len(),
            f == formats@,
            forall|g2: int| 0 <= g2 < inner@.len() ==> (#[trigger] inner@[g2])@.len() > 0,
            forall|g2: int, i: int| 0 <= g2 < inner@.len() && 0 <= i < inner@[g2]@.len() ==> (#[trigger] inner@[g2]@[i])
                < f.len(),
            ids@.len() == g,
            forall|q: int| 0 <= q < g ==> (#[trigger] ids@[q])@ == f[inner@[q]@[0] as int].2@,
        decreases inner@.len() - g,
    {
        let first = inner[g][0];
        ids.push(formats[first].2.clone());
        g = g + 1;
    }
    let ord = stable_text_order(&ids);
    let mut r: Vec<Vec<usize>> = Vec::new();
    let mut t: usize = 0;
    while t < ord.len()
        invariant
            t <= ord@.len(),
            is_permutation(ord@, ids@.len()),
            ids@.len() == inner@.len(),
            r@.len() == t,
            forall|q: int| 0 <= q < t ==> (#[trigger] r@[q])@ == inner@[ord@[q] as int]@,
        decreases ord@.len() - t,
    {
        let c = inner[ord[t]].clone();
        assert(c@ =~= inner@[ord@[t as int] as int]@);
        r.push(c);
        t = t + 1;
    }
    proof {
        let tx = texts(ids@);
        assert forall|q: int| 0 <= q < f.len() implies #[trigger] covers(r@, q) by {
            assert(covers(inner@, q));
            let (g2, i) = choose|g2: int, i: int| 0 <= g2 < inner@.len() && 0 <= i < inner@[g2]@.len() && #[trigger] inner@[g2]@[i] == q;
            assert(listed(ord@, g2));
            let w = choose|w: int| 0 <= w < ord@.len() && ord@[w] == g2;
            assert(r@[w]@[i] == q);
        }
        assert forall|a: int, b: int| 0 <= a < b < r@.len() implies ({
            let x = (#[trigger] r@[a])@[0];
            let y = (#[trigger] r@[b])@[0];
            text_less(f[x as int].2@, f[y as int].2@) || (f[x as int].2@ == f[y as int].2@ && f[x as int].0 < f[y as int].0)
        }) by {
            assert(stably_sorted_by_text(tx, ord@));
            assert(tx[ord@[a] as int] == ids@[ord@[a] as int]@);
            assert(tx[ord@[b] as int] == ids@[ord@[b] as int]@);
        }
        assert forall|a: int, b: int| 0 <= a < b < r@.len() implies f[(#[trigger] r@[a])@[0] as int].0 != f[(
        #[trigger] r@[b])@[0] as int].0 by {
            let oa = ord@[a] as int;
            let ob = ord@[b] as int;
            assert(oa != ob);
            if oa < ob {
                assert(f[inner@[oa]@[0] as int].0 < f[inner@[ob]@[0] as int].0);
            } else {
                assert(f[inner@[ob]@[0] as int].0 < f[inner@[oa]@[0] as int].0);
            }
        }
        assert forall|a: int, i: int, b: int, j: int|
            0 <= a < r@.len() && 0 <= i < r@[a]@.len() && 0 <= b < r@.len() && 0 <= j < r@[b]@.len() && #[trigger] r@[a]@[i]
                == #[trigger] r@[b]@[j] implies a == b && i == j by {
            if a != b {
                assert(f[r@[a]@[i] as int].0 == f[r@[a]@[0] as int].0);
                assert(f[r@[b]@[j] as int].0 == f[r@[b]@[0] as int].0);
                if a < b {
                    assert(f[r@[a]@[0] as int].0 != f[r@[b]@[0] as int].0);
                } else {
                    assert(f[r@[b]@[0] as int].0 != f[r@[a]@[0] as int].0);
                }
            } else if i < j {
                assert(r@[a]@[i] < r@[a]@[j] || f[r@[a]@[i] as int].1 < f[r@[a]@[j] as int].1);
            } else if j < i {
                assert(r@[a]@[j] < r@[a]@[i] || f[r@[a]@[j] as int].1 < f[r@[a]@[i] as int].1);
            }
        }
    }
    r
}

} // verus!
