//! How the segments of a stream are shared among download workers and written back in order.
use vstd::prelude::*;
use std::collections::BTreeMap;
use vstd::std_specs::btree::{spec_keys_iter, increasing_seq};
use vstd::std_specs::iter::IteratorSpec;
use vstd::std_specs::cmp::OrdSpec;
use crate::text::{decimal, decimal_exec, string_from};

verus! {

broadcast use vstd::string::group_string_axioms, vstd::std_specs::btree::group_btree_axioms,
    vstd::laws_cmp::group_laws_cmp;

/// The segments (by number) that each of `workers` download workers fetches, out of `count`:
/// worker `t` fetches `t`, `t + workers`, `t + 2 * workers`, ... in that order.
pub fn distribute_segments(count: usize, workers: usize) -> (r: Vec<Vec<usize>>)
    requires
        workers > 0,
    ensures
        r@.len() == workers,
        forall|t: int, j: int|
            0 <= t < workers && 0 <= j < r@[t]@.len() ==> #[trigger] r@[t]@[j] == t + j * workers
                && r@[t]@[j] < count,
        forall|t: int| 0 <= t < workers ==> t + #[trigger] r@[t]@.len() * workers >= count,
{
    let mut r: Vec<Vec<usize>> = Vec::new();
    let mut t: usize = 0;
    while t < workers
        invariant
            t <= workers,
            workers > 0,
            r@.len() == t,
            forall|u: int, j: int|
                0 <= u < t && 0 <= j < r@[u]@.len() ==> #[trigger] r@[u]@[j] == u + j * workers && r@[u]@[j]
                    < count,
            forall|u: int| 0 <= u < t ==> u + #[trigger] r@[u]@.len() * workers >= count,
        decreases workers - t,
    {
        let n: usize = if t < count { (count - t - 1) / workers + 1 } else { 0 };
        proof {
            if t < count {
                let q = (count - t - 1) as int / workers as int;
                assert(q * workers <= count - t - 1 && count - t - 1 < (q + 1) * workers) by (nonlinear_arith)
                    requires
                        q == (count - t - 1) as int / workers as int,
                        workers > 0,
                        count > t,
                ;
            }
        }
        let mut own: Vec<usize> = Vec::new();
        let mut j: usize = 0;
        while j < n
            invariant
                t < workers,
                workers > 0,
                j <= n,
                own@.len() == j,
                t < count ==> (n - 1) * workers <= count - t - 1 && count - t <= n * workers,
                t >= count ==> n == 0,
                forall|k: int| 0 <= k < j ==> #[trigger] own@[k] == t + k * workers && own@[k] < count,
            decreases n - j,
        {
            assert(j * workers <= (n - 1) * workers) by (nonlinear_arith)
                requires
                    j <= n - 1,
                    workers > 0,
            ;
            let v = t + j * workers;
            own.push(v);
            j = j + 1;
        }
        r.push(own);
        t = t + 1;
    }
    r
}

/// The segments that arrived before their turn, buffered until they can be written in order.
pub struct SegmentBuffer {
    next: u64,
    pending: BTreeMap<u64, Vec<u8>>,
}

/// The contents of a buffer of segments as a value of specifications.
pub open spec fn contents(m: Map<u64, Vec<u8>>) -> Map<u64, Seq<u8>> {
    m.map_values(|v: Vec<u8>| v@)
}

/// The buffered segments after `bytes` arrived at position `pos`: the segment due next is not
/// buffered, any other is (replacing what was buffered at its position).
pub open spec fn received(pending: Map<u64, Seq<u8>>, next: u64, pos: u64, bytes: Seq<u8>) -> Map<u64, Seq<u8>> {
    if pos == next {
        pending
    } else {
        pending.insert(pos, bytes)
    }
}

/// The segments of a batch handed back, each by its bytes.
pub open spec fn written(r: Seq<Vec<u8>>) -> Seq<Seq<u8>> {
    r.map_values(|v: Vec<u8>| v@)
}

/// What taking `bytes` for position `pos` does to a buffer that waits for position `next` and holds
/// `waiting`: with `m` the buffered segments after the arrival (see `received`), the segments handed
/// back (`out`) are the arrival itself when it is the one due, then each buffered segment of the
/// consecutive run that follows; `next2` is the position after that run, which is not buffered, and
/// the run leaves the buffer (`waiting2`).
pub open spec fn released(
    waiting: Map<u64, Seq<u8>>,
    next: nat,
    pos: u64,
    bytes: Seq<u8>,
    out: Seq<Seq<u8>>,
    next2: nat,
    waiting2: Map<u64, Seq<u8>>,
) -> bool {
    let m = received(waiting, next as u64, pos, bytes);
    let first: int = if pos == next { 1 } else { 0 };
    let n0 = next + first;
    &&& out.len() >= first
    &&& first == 1 ==> out[0] == bytes
    &&& next2 == n0 + out.len() - first
    &&& forall|k: u64| #![trigger m.dom().contains(k)] n0 <= k < next2 ==> m.contains_key(k)
    &&& forall|k: u64| #![trigger m[k]] n0 <= k < next2 ==> out[first + k - n0] == m[k]
    &&& !m.contains_key(next2 as u64)
    &&& waiting2 == m.remove_keys(Set::new(|k: u64| n0 <= k < next2))
}

/// `"Download buffer is not empty. Remaining segments: "` and the positions, separated by `, `.
pub open spec fn remaining_message(keys: Seq<u64>) -> Seq<char> {
    "Download buffer is not empty. Remaining segments: "@ + joined_positions(keys)
}

/// The decimal positions separated by `, `.
pub open spec fn joined_positions(keys: Seq<u64>) -> Seq<char>
    decreases keys.len(),
{
    if keys.len() == 0 {
        Seq::empty()
    } else if keys.len() == 1 {
        decimal(keys[0] as nat)
    } else {
        joined_positions(keys.drop_last()) + ", "@ + decimal(keys.last() as nat)
    }
}

impl SegmentBuffer {
    /// The position of the segment that is written next.
    pub closed spec fn next_position(&self) -> nat {
        self.next as nat
    }

    /// The segments waiting for their turn, by position.
    pub closed spec fn waiting(&self) -> Map<u64, Seq<u8>> {
        contents(self.pending@)
    }

    /// The segment due next is never waiting, and no position is the largest `u64`.
    pub closed spec fn wf(&self) -> bool {
        &&& !self.pending@.contains_key(self.next)
        &&& forall|k: u64| #[trigger] self.pending@.contains_key(k) ==> k < u64::MAX
    }

    /// An empty buffer that waits for the first segment.
    pub fn new() -> (r: SegmentBuffer)
        ensures
            r.wf(),
            r.next_position() == 0,
            r.waiting() == Map::<u64, Seq<u8>>::empty(),
    {
        let r = SegmentBuffer { next: 0, pending: BTreeMap::new() };
        assert(contents(r.pending@) =~= Map::<u64, Seq<u8>>::empty());
        r
    }

    /// Takes the segment `bytes` that arrived for position `pos` and returns the segments that can
    /// now be written, in order: the run of consecutive positions from the one due next on.
    pub fn receive(&mut self, pos: u64, bytes: Vec<u8>) -> (r: Vec<Vec<u8>>)
        requires
            old(self).wf(),
            pos < u64::MAX,
        ensures
            final(self).wf(),
            released(
                old(self).waiting(),
                old(self).next_position(),
                pos,
                bytes@,
                written(r@),
                final(self).next_position(),
                final(self).waiting(),
            ),
    {
        let ghost m = received(self.waiting(), self.next, pos, bytes@);
        let ghost old_next = self.next;
        let mut out: Vec<Vec<u8>> = Vec::new();
        if pos == self.next {
            out.push(bytes);
            self.next = self.next + 1;
        } else {
            self.pending.insert(pos, bytes);
        }
        let ghost first: int = if pos == old_next { 1 } else { 0 };
        let ghost n0 = old_next + first;
        assert(contents(self.pending@) =~= m.remove_keys(Set::new(|k: u64| n0 <= k < self.next as nat)));
        loop
            invariant
                0 <= first <= 1,
                out@.len() >= first,
                first == 1 ==> out@[0]@ == bytes@,
                self.next == n0 + out@.len() - first,
                forall|k: u64| #[trigger] m.contains_key(k) ==> k < u64::MAX,
                forall|k: u64| #![trigger m.dom().contains(k)] n0 <= k && k < self.next ==> m.contains_key(k),
                forall|k: u64| #![trigger m[k]] n0 <= k && k < self.next ==> out@[first + k - n0]@ == m[k],
                contents(self.pending@) == m.remove_keys(Set::new(|k: u64| n0 <= k < self.next as nat)),
                forall|k: u64| #[trigger] self.pending@.contains_key(k) ==> k < u64::MAX,
            ensures
                out@.len() >= first,
                first == 1 ==> out@[0]@ == bytes@,
                self.next == n0 + out@.len() - first,
                forall|k: u64| #![trigger m.dom().contains(k)] n0 <= k && k < self.next ==> m.contains_key(k),
                forall|k: u64| #![trigger m[k]] n0 <= k && k < self.next ==> out@[first + k - n0]@ == m[k],
                contents(self.pending@) == m.remove_keys(Set::new(|k: u64| n0 <= k < self.next as nat)),
                !self.pending@.contains_key(self.next),
                !m.contains_key(self.next),
                forall|k: u64| #[trigger] self.pending@.contains_key(k) ==> k < u64::MAX,
            decreases u64::MAX - self.next,
        {
            let key = self.next;
            let ghost before = self.pending@;
            assert(!Set::new(|k: u64| n0 <= k < self.next as nat).contains(key));
            match self.pending.remove(&key) {
                Some(b) => {
                    assert(before.contains_key(key));
                    assert(contents(before).contains_key(key));
                    assert(m.contains_key(key));
                    assert(contents(before)[key] == b@);
                    assert(m.remove_keys(Set::new(|k: u64| n0 <= k < self.next as nat))[key] == m[key]);
                    assert(m[key] == b@);
                    assert(self.pending@ =~= before.remove(key));
                    proof { lemma_remove_next(before, m, n0, key); }
                    let ghost out_before = out@;
                    let ghost bv = b;
                    out.push(b);
                    self.next = self.next + 1;
                    assert forall|k: u64| #![trigger m.dom().contains(k)] n0 <= k && k < self.next implies m.contains_key(k) by {
                        if k < key {
                        } else {
                            assert(k == key);
                        }
                    }
                    assert forall|k: u64| #![trigger m[k]] n0 <= k && k < self.next implies out@[first + k - n0]@
                        == m[k] by {
                        if k < key {
                            assert(out@[first + k - n0] == out_before[first + k - n0]);
                        } else {
                            assert(k == key);
                            assert(first + k - n0 == out_before.len());
                            assert(out@[first + k - n0] == bv);
                        }
                    }
                },
                None => {
                    assert(!before.contains_key(key));
                    assert(self.pending@ =~= before);
                    assert(!m.contains_key(key)) by {
                        if m.contains_key(key) {
                            assert(contents(before).contains_key(key));
                        }
                    }
                    break;
                },
            }
        }
        out
    }

    /// Checks that nothing is left waiting once every segment was received: an error names the
    /// positions still waiting, in ascending order.
    pub fn finish(&self) -> (r: Result<(), String>)
        ensures
            match r {
                Ok(()) => self.waiting().dom() == Set::<u64>::empty(),
                Err(e) => exists|keys: Seq<u64>|
                    {
                        &&& keys.to_set() == self.waiting().dom()
                        &&& forall|i: int, j: int| 0 <= i < j < keys.len() ==> keys[i] < keys[j]
                        &&& e@ == remaining_message(keys)
                    },
            },
    {
        if self.pending.is_empty() {
            assert(self.pending@.dom() =~= Set::<u64>::empty());
            assert(self.waiting().dom() =~= Set::<u64>::empty());
            return Ok(());
        }
        let mut e = String::from_str("Download buffer is not empty. Remaining segments: ");
        let mut seen: Vec<u64> = Vec::new();
        let ghost all = spec_keys_iter(&self.pending).remaining();
        for k in it: self.pending.keys()
            invariant
                seen@.len() == it.index(),
                it.seq() == all,
                forall|i: int| 0 <= i < seen@.len() ==> seen@[i] == *#[trigger] it.seq()[i],
                e@ == remaining_message(seen@),
        {
            if seen.len() > 0 {
                e.append(", ");
            }
            let d = string_from(&decimal_exec(*k));
            e.append(d.as_str());
            let ghost before = seen@;
            seen.push(*k);
            assert(seen@.drop_last() =~= before);
        }
        proof {
            assert(seen@.len() == all.len());
            assert(seen@ =~= all.unref());
            assert(seen@.to_set() == self.pending@.dom());
            assert(self.waiting().dom() =~= self.pending@.dom());
            assert(vstd::laws_cmp::obeys_cmp::<u64>());
            assert(vstd::laws_cmp::obeys_cmp::<&u64>());
            assert(increasing_seq(all));
            assert forall|i: int, j: int| 0 <= i < j < seen@.len() implies seen@[i] < seen@[j] by {
                assert((&all[i]).cmp_spec(&&all[j]) is Less);
            }
            assert(seen@.to_set() == self.waiting().dom() && (forall|i: int, j: int|
                0 <= i < j < seen@.len() ==> seen@[i] < seen@[j]) && e@ == remaining_message(seen@));
        }
        Err(e)
    }
}

/// A buffer that waits for position `next` and holds `waiting` agrees with the segments `segs` of a
/// stream of which the positions in `got` have arrived: every position before `next` has arrived
/// (and was written), and every other arrival waits under its position with its bytes.
pub open spec fn agrees(segs: Seq<Seq<u8>>, got: Set<u64>, next: nat, waiting: Map<u64, Seq<u8>>) -> bool {
    &&& next <= segs.len()
    &&& forall|k: u64| #[trigger] got.contains(k) <==> (k < next || waiting.contains_key(k))
    &&& forall|k: u64| #[trigger] waiting.contains_key(k) ==> next < k < segs.len() && waiting[k] == segs[k as int]
}

/// A fresh buffer agrees with any stream of which nothing has arrived yet.
pub proof fn lemma_fresh_buffer_agrees(segs: Seq<Seq<u8>>)
    ensures
        agrees(segs, Set::empty(), 0, Map::empty()),
{
}

/// Segments are written in order: when a segment of the stream arrives that had not arrived before,
/// a buffer that agreed with the stream hands back exactly the segments from the one it waited for
/// up to (not including) the one it waits for now, in order, and agrees with the stream again.
pub proof fn lemma_arrival_writes_in_order(
    segs: Seq<Seq<u8>>,
    got: Set<u64>,
    next: nat,
    waiting: Map<u64, Seq<u8>>,
    pos: u64,
    out: Seq<Seq<u8>>,
    next2: nat,
    waiting2: Map<u64, Seq<u8>>,
)
    requires
        segs.len() <= u64::MAX,
        agrees(segs, got, next, waiting),
        pos < segs.len(),
        !got.contains(pos),
        released(waiting, next, pos, segs[pos as int], out, next2, waiting2),
    ensures
        next <= next2,
        out == segs.subrange(next as int, next2 as int),
        agrees(segs, got.insert(pos), next2, waiting2),
{
    let bytes = segs[pos as int];
    let m = received(waiting, next as u64, pos, bytes);
    let first: int = if pos == next { 1 } else { 0 };
    let n0 = next + first;
    assert(pos >= next) by {
        if pos < next {
            assert(got.contains(pos));
        }
    }
    assert forall|k: u64| #[trigger] m.contains_key(k) implies next <= k < segs.len() && m[k] == segs[k as int]
        && (k == next ==> pos == next) by {
        if pos != next && k == pos {
        } else {
            assert(waiting.contains_key(k));
        }
    }
    assert(next2 <= segs.len()) by {
        if next2 > segs.len() {
            let k = segs.len() as u64;
            assert(n0 <= k < next2);
            assert(m.dom().contains(k));
        }
    }
    assert(first == 0 ==> next2 == next) by {
        if first == 0 && next2 > next {
            let k = next as u64;
            assert(m.dom().contains(k));
        }
    }
    assert forall|i: int| 0 <= i < out.len() implies #[trigger] out[i] == segs[next + i] by {
        if first == 1 && i == 0 {
        } else {
            let k = (next + i) as u64;
            assert(n0 <= k < next2);
            assert(m.dom().contains(k));
            assert(out[first + k - n0] == m[k]);
        }
    }
    assert(out =~= segs.subrange(next as int, next2 as int));
    let got2 = got.insert(pos);
    assert forall|k: u64| #[trigger] got2.contains(k) <==> (k < next2 || waiting2.contains_key(k)) by {
        if k < next {
            assert(got.contains(k));
        } else if k == next {
            assert(!waiting.contains_key(k));
            assert(!got.contains(k));
            if pos != next {
                assert(!m.contains_key(k));
            }
        } else {
            assert(got.contains(k) <==> waiting.contains_key(k));
            if n0 <= k < next2 {
                assert(m.dom().contains(k));
            }
        }
    }
    assert forall|k: u64| #[trigger] waiting2.contains_key(k) implies next2 < k < segs.len() && waiting2[k]
        == segs[k as int] by {
        assert(m.contains_key(k));
        assert(k != next2);
    }
}

/// Once every segment of the stream has arrived, a buffer that agreed with the stream has written
/// them all and holds nothing, so finishing it succeeds.
pub proof fn lemma_all_arrived_leaves_nothing(
    segs: Seq<Seq<u8>>,
    got: Set<u64>,
    next: nat,
    waiting: Map<u64, Seq<u8>>,
)
    requires
        segs.len() <= u64::MAX,
        agrees(segs, got, next, waiting),
        forall|k: u64| k < segs.len() ==> got.contains(k),
    ensures
        next == segs.len(),
        waiting.dom() == Set::<u64>::empty(),
{
    if next < segs.len() {
        let k = next as u64;
        assert(got.contains(k));
        assert(waiting.contains_key(k));
    }
    assert(waiting.dom() =~= Set::<u64>::empty());
}

/// Taking the segment due next out of the buffer extends the run of written positions by one.
proof fn lemma_remove_next(before: Map<u64, Vec<u8>>, m: Map<u64, Seq<u8>>, n0: int, key: u64)
    requires
        n0 <= key,
        contents(before) == m.remove_keys(Set::new(|k: u64| n0 <= k < key as nat)),
    ensures
        contents(before.remove(key)) == m.remove_keys(Set::new(|k: u64| n0 <= k < key + 1)),
{
    let lhs = contents(before.remove(key));
    let rhs = m.remove_keys(Set::new(|k: u64| n0 <= k < key + 1));
    assert forall|k: u64| #[trigger] lhs.contains_key(k) <==> rhs.contains_key(k) by {
        assert(contents(before).contains_key(k) <==> before.contains_key(k));
        assert(m.remove_keys(Set::new(|k: u64| n0 <= k < key as nat)).contains_key(k) <==> (m.contains_key(k)
            && !(n0 <= k < key as nat)));
    }
    assert forall|k: u64| #[trigger] lhs.contains_key(k) implies lhs[k] == rhs[k] by {
        assert(contents(before)[k] == before[k]@);
        assert(m.remove_keys(Set::new(|k: u64| n0 <= k < key as nat))[k] == m[k]);
    }
    assert(lhs =~= rhs);
}

} // verus!
