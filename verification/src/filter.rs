//! Which languages a selection lacks, and lists of languages without repetitions.
use vstd::prelude::*;
use crate::locale::{Locale, LocaleView, views, contains_locale, lemma_views_push};

verus! {

/// The locales of `searched` that `available` lacks, in the order of `searched`.
pub open spec fn missing(available: Seq<LocaleView>, searched: Seq<LocaleView>) -> Seq<LocaleView>
    decreases searched.len(),
{
    if searched.len() == 0 {
        searched
    } else {
        missing(available, searched.drop_last()) + if available.contains(searched.last()) {
            Seq::empty()
        } else {
            seq![searched.last()]
        }
    }
}

/// The locales of `searched` that `available` lacks (see [`missing`]).
pub fn missing_locales(available: &Vec<Locale>, searched: &Vec<Locale>) -> (r: Vec<Locale>)
    ensures
        views(r@) == missing(views(available@), views(searched@)),
{
    let ghost sv = views(searched@);
    let mut r: Vec<Locale> = Vec::new();
    let mut i: usize = 0;
    while i < searched.len()
        invariant
            i <= searched@.len(),
            sv == views(searched@),
            views(r@) == missing(views(available@), sv.subrange(0, i as int)),
        decreases searched@.len() - i,
    {
        assert(sv.subrange(0, i + 1).drop_last() =~= sv.subrange(0, i as int));
        if !contains_locale(available, &searched[i]) {
            let l = searched[i].copy();
            proof { lemma_views_push(r@, l); }
            r.push(l);
        }
        i = i + 1;
        assert(views(r@) =~= missing(views(available@), sv.subrange(0, i as int)));
    }
    assert(sv.subrange(0, sv.len() as int) =~= sv);
    r
}

/// `s` with every repetition of an earlier element removed.
pub open spec fn dedup(s: Seq<LocaleView>) -> Seq<LocaleView>
    decreases s.len(),
{
    if s.len() == 0 {
        s
    } else {
        let d = dedup(s.drop_last());
        if d.contains(s.last()) {
            d
        } else {
            d.push(s.last())
        }
    }
}

/// Removes every repetition of an earlier element (see [`dedup`]).
pub fn real_dedup_vec(input: &mut Vec<Locale>)
    ensures
        views(final(input)@) == dedup(views(old(input)@)),
{
    let ghost iv = views(input@);
    let mut d: Vec<Locale> = Vec::new();
    let mut i: usize = 0;
    while i < input.len()
        invariant
            i <= input@.len(),
            iv == views(input@),
            views(d@) == dedup(iv.subrange(0, i as int)),
        decreases input@.len() - i,
    {
        assert(iv.subrange(0, i + 1).drop_last() =~= iv.subrange(0, i as int));
        if !contains_locale(&d, &input[i]) {
            let l = input[i].copy();
            proof { lemma_views_push(d@, l); }
            d.push(l);
        }
        i = i + 1;
    }
    assert(iv.subrange(0, iv.len() as int) =~= iv);
    *input = d;
}

/// Removing repetitions leaves no element twice, keeps exactly the elements there were, and
/// changes nothing when done again.
pub proof fn lemma_dedup(s: Seq<LocaleView>)
    ensures
        dedup(s).no_duplicates(),
        forall|x: LocaleView| #[trigger] dedup(s).contains(x) <==> s.contains(x),
        dedup(dedup(s)) == dedup(s),
    decreases s.len(),
{
    if s.len() > 0 {
        let p = s.drop_last();
        lemma_dedup(p);
        assert forall|x: LocaleView| #[trigger] dedup(s).contains(x) <==> s.contains(x) by {
            if s.contains(x) && x != s.last() {
                let j = choose|j: int| 0 <= j < s.len() && s[j] == x;
                assert(p[j] == x);
            }
            if p.contains(x) {
                let j = choose|j: int| 0 <= j < p.len() && p[j] == x;
                assert(s[j] == x);
            }
            if !dedup(p).contains(s.last()) {
                if dedup(s).contains(x) && x != s.last() {
                    let j = choose|j: int| 0 <= j < dedup(s).len() && dedup(s)[j] == x;
                    assert(dedup(p)[j] == x);
                }
                if dedup(p).contains(x) {
                    let j = choose|j: int| 0 <= j < dedup(p).len() && dedup(p)[j] == x;
                    assert(dedup(s)[j] == x);
                }
                assert(dedup(s).last() == s.last());
            }
        }
        lemma_dedup_fixed(dedup(s));
    } else {
        assert(dedup(dedup(s)) =~= dedup(s));
    }
}

/// The positions in `s` that [`dedup`] keeps: those of the first occurrence of each element.
pub open spec fn first_positions(s: Seq<LocaleView>) -> Seq<int>
    decreases s.len(),
{
    if s.len() == 0 {
        Seq::empty()
    } else {
        let f = first_positions(s.drop_last());
        if dedup(s.drop_last()).contains(s.last()) {
            f
        } else {
            f.push(s.len() - 1)
        }
    }
}

/// Whether position `k` of `s` holds the first occurrence of its element.
pub open spec fn first_occurrence(s: Seq<LocaleView>, k: int) -> bool {
    0 <= k < s.len() && forall|j: int| 0 <= j < k ==> s[j] != s[k]
}

/// Removing repetitions keeps the first occurrence of each element, in order: the result is the
/// subsequence of `s` at the ascending positions of first occurrences, and every first occurrence
/// is among them.
pub proof fn lemma_dedup_keeps_first_occurrences(s: Seq<LocaleView>)
    ensures
        first_positions(s).len() == dedup(s).len(),
        forall|i: int| 0 <= i < dedup(s).len() ==> #[trigger] first_occurrence(s, first_positions(s)[i]) && s[first_positions(s)[i]]
            == dedup(s)[i],
        forall|i: int, j: int| 0 <= i < j < dedup(s).len() ==> first_positions(s)[i] < first_positions(s)[j],
        forall|k: int| #[trigger] first_occurrence(s, k) ==> first_positions(s).contains(k),
    decreases s.len(),
{
    if s.len() > 0 {
        let p = s.drop_last();
        let n = p.len() as int;
        lemma_dedup_keeps_first_occurrences(p);
        lemma_dedup(p);
        let fp = first_positions(p);
        assert forall|i: int| 0 <= i < fp.len() implies fp[i] < n by {
            assert(first_occurrence(p, fp[i]));
        }
        assert forall|k: int| 0 <= k < n implies #[trigger] first_occurrence(s, k) == first_occurrence(p, k) by {
            assert forall|j: int| 0 <= j <= k implies s[j] == p[j] by {}
        }
        if dedup(p).contains(s.last()) {
            assert forall|k: int| #[trigger] first_occurrence(s, k) implies first_positions(s).contains(k) by {
                if k == n {
                    assert(p.contains(s.last()));
                    let j = choose|j: int| 0 <= j < p.len() && p[j] == s.last();
                    assert(s[j] != s[k]);
                } else {
                    assert(first_occurrence(p, k));
                }
            }
            assert forall|i: int| 0 <= i < dedup(s).len() implies #[trigger] first_occurrence(s, first_positions(s)[i])
                && s[first_positions(s)[i]] == dedup(s)[i] by {
                assert(first_occurrence(p, fp[i]));
                assert(fp[i] < n);
            }
        } else {
            let f = first_positions(s);
            assert(f == fp.push(n));
            assert(!p.contains(s.last()));
            assert(first_occurrence(s, n)) by {
                assert forall|j: int| 0 <= j < n implies s[j] != s[n] by {
                    assert(p[j] == s[j]);
                }
            }
            assert forall|k: int| #[trigger] first_occurrence(s, k) implies f.contains(k) by {
                if k == n {
                    assert(f[f.len() - 1] == n);
                } else {
                    assert(first_occurrence(p, k));
                    let i = choose|i: int| 0 <= i < fp.len() && fp[i] == k;
                    assert(f[i] == k);
                }
            }
            assert forall|i: int| 0 <= i < dedup(s).len() implies #[trigger] first_occurrence(s, first_positions(s)[i])
                && s[first_positions(s)[i]] == dedup(s)[i] by {
                if i < fp.len() {
                    assert(first_occurrence(p, fp[i]));
                    assert(fp[i] < n);
                }
            }
        }
    }
}

/// A sequence without repetitions is left as it is.
proof fn lemma_dedup_fixed(s: Seq<LocaleView>)
    requires
        s.no_duplicates(),
    ensures
        dedup(s) == s,
    decreases s.len(),
{
    if s.len() > 0 {
        let p = s.drop_last();
        assert(p.no_duplicates());
        lemma_dedup_fixed(p);
        assert(!p.contains(s.last())) by {
            if p.contains(s.last()) {
                let j = choose|j: int| 0 <= j < p.len() && p[j] == s.last();
                assert(s[j] == s[s.len() - 1]);
            }
        }
        assert(p.push(s.last()) =~= s);
    }
}

} // verus!
