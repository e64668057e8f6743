//! The decisions taken while walking from a series down to its episodes: which episodes are
//! taken, how they are numbered within their season, and in which order the results come out.
use vstd::prelude::*;
use crate::parse::{UrlFilter, range_has_episode};
use crate::locale::{Locale, LocaleView, views, contains_locale};

verus! {

broadcast use vstd::string::group_string_axioms;

/// The absolute value of a sequence number in thousandths.
pub open spec fn magnitude(thousandths: i64) -> int {
    if thousandths < 0 { -thousandths } else { thousandths as int }
}

/// Whether an episode numbered `thousandths / 1000` is a special: its number is 0 or has
/// non-zero decimal places.
pub open spec fn is_special(thousandths: i64) -> bool {
    thousandths == 0 || magnitude(thousandths) % 1000 != 0
}

/// The decimal places of an episode number, in thousandths and without sign.
pub open spec fn fraction(thousandths: i64) -> int {
    magnitude(thousandths) % 1000
}

fn fraction_exec(thousandths: i64) -> (r: i64)
    ensures
        r == fraction(thousandths),
        0 <= r < 1000,
{
    let m: i128 = if thousandths < 0 { -(thousandths as i128) } else { thousandths as i128 };
    (m % 1000) as i64
}

/// Whether the episode numbered `thousandths / 1000` is a special (see [`is_special`]).
pub fn is_special_episode(thousandths: i64) -> (r: bool)
    ensures
        r == is_special(thousandths),
{
    thousandths == 0 || fraction_exec(thousandths) != 0
}

/// Whether an episode is taken: the url filter selects it, and it is no special that is to be
/// skipped.
pub fn episode_admitted(url_filter: &UrlFilter, thousandths: i64, season_number: u32, skip_specials: bool) -> (r: bool)
    ensures
        r == ((exists|i: int|
            0 <= i < url_filter.inner@.len() && range_has_episode(#[trigger] url_filter.inner@[i], thousandths, season_number))
            && !(skip_specials && is_special(thousandths))),
{
    url_filter.is_episode_valid(thousandths, season_number) && !(skip_specials && is_special_episode(thousandths))
}

/// How many of the first `n` episode numbers of `seqs` are specials, which the relative
/// numbering of the episodes after them leaves out.
pub open spec fn specials_before(seqs: Seq<i64>, n: int) -> nat
    decreases n,
{
    if n <= 0 {
        0
    } else {
        specials_before(seqs, n - 1) + if is_special(seqs[n - 1]) { 1nat } else { 0nat }
    }
}

/// The position of the first entry of `ids` equal to `id`.
pub open spec fn first_position(ids: Seq<Seq<char>>, id: Seq<char>) -> Option<nat>
    decreases ids.len(),
{
    if ids.len() == 0 {
        None
    } else if ids[0] == id {
        Some(0)
    } else {
        match first_position(ids.drop_first(), id) {
            Some(p) => Some(p + 1),
            None => None,
        }
    }
}

/// The ids of a season's episodes `(id, number in thousandths)`.
pub open spec fn episode_ids(eps: Seq<(String, i64)>) -> Seq<Seq<char>> {
    Seq::new(eps.len(), |i: int| eps[i].0@)
}

/// The numbers of a season's episodes `(id, number in thousandths)`.
pub open spec fn episode_numbers(eps: Seq<(String, i64)>) -> Seq<i64> {
    Seq::new(eps.len(), |i: int| eps[i].1)
}

/// The relative numbers of the episode `id` among the episodes `eps` of its season: its position
/// from 1, and that position less the specials up to it, with the decimal places of its own
/// number (in thousandths).
pub open spec fn relative_numbers_of(eps: Seq<(String, i64)>, id: Seq<char>) -> Option<(u32, i64)> {
    match first_position(episode_ids(eps), id) {
        None => None,
        Some(p) => Some(
            (
                (p + 1) as u32,
                (((p + 1) - specials_before(episode_numbers(eps), (p + 1) as int)) * 1000 + fraction(eps[p as int].1)) as i64,
            ),
        ),
    }
}

proof fn lemma_specials_bound(seqs: Seq<i64>, n: int)
    requires
        0 <= n,
    ensures
        specials_before(seqs, n) <= n,
    decreases n,
{
    if n > 0 {
        lemma_specials_bound(seqs, n - 1);
    }
}

/// The relative numbers of the episode `id` in its season (see [`relative_numbers_of`]), or
/// `None` where the season does not list it.
pub fn relative_numbers(eps: &Vec<(String, i64)>, id: &String) -> (r: Option<(u32, i64)>)
    requires
        eps@.len() < u32::MAX,
    ensures
        r == relative_numbers_of(eps@, id@),
{
    let ghost ids = episode_ids(eps@);
    let ghost seqs = episode_numbers(eps@);
    let mut skipped: u64 = 0;
    let mut i: usize = 0;
    assert(ids.subrange(0, ids.len() as int) =~= ids);
    while i < eps.len()
        invariant
            i <= eps@.len(),
            eps@.len() < u32::MAX,
            ids == episode_ids(eps@),
            seqs == episode_numbers(eps@),
            skipped == specials_before(seqs, i as int),
            first_position(ids, id@) == match first_position(ids.subrange(i as int, ids.len() as int), id@) {
                Some(p) => Some((p + i) as nat),
                None => None,
            },
        decreases eps@.len() - i,
    {
        let ghost rest = ids.subrange(i as int, ids.len() as int);
        assert(rest.drop_first() =~= ids.subrange(i + 1, ids.len() as int));
        assert(rest[0] == eps@[i as int].0@);
        proof { lemma_specials_bound(seqs, i as int); }
        let t = eps[i].1;
        if is_special_episode(t) {
            skipped = skipped + 1;
        }
        assert(seqs[i as int] == t);
        if eps[i].0.eq(id) {
            let n: u64 = (i as u64) + 1;
            proof { lemma_specials_bound(seqs, n as int); }
            let rel: i64 = ((n - skipped) as i64) * 1000 + fraction_exec(t);
            return Some((n as u32, rel));
        }
        i = i + 1;
    }
    assert(ids.subrange(i as int, ids.len() as int) =~= Seq::<Seq<char>>::empty());
    None
}

/// The position from 1 of the episode `id` among the episode ids of its season, or `None` where
/// the season does not list it.
pub fn relative_episode_number(ids: &Vec<String>, id: &String) -> (r: Option<u32>)
    requires
        ids@.len() < u32::MAX,
    ensures
        r == match first_position(Seq::new(ids@.len(), |i: int| ids@[i]@), id@) {
            Some(p) => Some((p + 1) as u32),
            None => None::<u32>,
        },
{
    let ghost all = Seq::new(ids@.len(), |i: int| ids@[i]@);
    let mut i: usize = 0;
    assert(all.subrange(0, all.len() as int) =~= all);
    while i < ids.len()
        invariant
            i <= ids@.len(),
            ids@.len() < u32::MAX,
            all == Seq::new(ids@.len(), |k: int| ids@[k]@),
            first_position(all, id@) == match first_position(all.subrange(i as int, all.len() as int), id@) {
                Some(p) => Some((p + i) as nat),
                None => None,
            },
        decreases ids@.len() - i,
    {
        let ghost rest = all.subrange(i as int, all.len() as int);
        assert(rest.drop_first() =~= all.subrange(i + 1, all.len() as int));
        assert(rest[0] == ids@[i as int]@);
        if ids[i].eq(id) {
            return Some((i + 1) as u32);
        }
        i = i + 1;
    }
    assert(all.subrange(i as int, all.len() as int) =~= Seq::<Seq<char>>::empty());
    None
}

/// Notes that a season lacks requested subtitles, once per season: whether this is the first
/// note for `season_number`; the season is then remembered.
pub fn note_missing_subtitles(noted: &mut Vec<u32>, season_number: u32) -> (first: bool)
    ensures
        first == !old(noted)@.contains(season_number),
        final(noted)@ == if first { old(noted)@.push(season_number) } else { old(noted)@ },
{
    let mut i: usize = 0;
    while i < noted.len()
        invariant
            i <= noted@.len(),
            forall|j: int| 0 <= j < i ==> noted@[j] != season_number,
        decreases noted@.len() - i,
    {
        if noted[i] == season_number {
            assert(noted@[i as int] == season_number);
            return false;
        }
        i = i + 1;
    }
    noted.push(season_number);
    true
}

/// The audio language that every episode of a season with the audio languages `audio` is
/// expected to have: where the season has fewer than two, its first one (Japanese where it has
/// none); a season with several has none.
pub open spec fn season_locale_of(audio: Seq<LocaleView>) -> Option<LocaleView> {
    if audio.len() < 2 {
        if audio.len() == 0 { Some(Locale::ja_JP@) } else { Some(audio[0]) }
    } else {
        None
    }
}

/// The audio language expected of every episode of a season (see [`season_locale_of`]).
pub fn season_locale(audio: &Vec<Locale>) -> (r: Option<Locale>)
    ensures
        match r {
            Some(l) => season_locale_of(views(audio@)) == Some(l@),
            None => season_locale_of(views(audio@)) is None,
        },
{
    if audio.len() < 2 {
        if audio.len() == 0 {
            Some(Locale::ja_JP)
        } else {
            Some(audio[0].copy())
        }
    } else {
        None
    }
}

/// Whether an archive keeps an episode in `episode_audio` of a season: where the season expects
/// one language, the episode must have it; else it must be one of the requested languages.
pub fn archive_episode_kept(season_locale: &Option<Locale>, requested: &Vec<Locale>, episode_audio: &Locale) -> (r: bool)
    ensures
        r == match season_locale {
            Some(l) => episode_audio@ == l@,
            None => views(requested@).contains(episode_audio@),
        },
{
    match season_locale {
        Some(l) => l.same(episode_audio),
        None => contains_locale(requested, episode_audio),
    }
}

/// Whether one of the `requested` languages is among `available`.
pub fn shares_locale(requested: &Vec<Locale>, available: &Vec<Locale>) -> (r: bool)
    ensures
        r == exists|i: int| 0 <= i < requested@.len() && views(available@).contains(#[trigger] views(requested@)[i]),
{
    let mut i: usize = 0;
    while i < requested.len()
        invariant
            i <= requested@.len(),
            forall|j: int| 0 <= j < i ==> !views(available@).contains(#[trigger] views(requested@)[j]),
        decreases requested@.len() - i,
    {
        if contains_locale(available, &requested[i]) {
            assert(views(available@).contains(views(requested@)[i as int]));
            return true;
        }
        i = i + 1;
    }
    false
}

/// The versions of an episode that are downloaded, as positions in order: those in one of the
/// `wanted` audio languages that the account may watch (any, with premium; else those not
/// reserved for premium accounts).
pub fn admitted_versions(wanted: &Vec<Locale>, audios: &Vec<Locale>, premium_only: &Vec<bool>, is_premium: bool) -> (r: Vec<usize>)
    requires
        audios@.len() == premium_only@.len(),
    ensures
        crate::search::retained(
            r@,
            audios@.len(),
            |k: int| views(wanted@).contains(audios@[k]@) && (is_premium || !premium_only@[k]),
        ),
{
    let mut r: Vec<usize> = Vec::new();
    let mut k: usize = 0;
    while k < audios.len()
        invariant
            k <= audios@.len(),
            audios@.len() == premium_only@.len(),
            crate::search::retained(
                r@,
                k as nat,
                |q: int| views(wanted@).contains(audios@[q]@) && (is_premium || !premium_only@[q]),
            ),
        decreases audios@.len() - k,
    {
        let ghost before = r@;
        if contains_locale(wanted, &audios[k]) && (is_premium || !premium_only[k]) {
            r.push(k);
            assert(r@[before.len() as int] == k);
        }
        assert forall|q: int| 0 <= q < k && #[trigger] before.contains(q as usize) implies r@.contains(q as usize) by {
            let t = choose|t: int| 0 <= t < before.len() && before[t] == q as usize;
            assert(r@[t] == q as usize);
        }
        k = k + 1;
    }
    r
}

/// The versions of an episode kept for an account that is not premium: those not reserved for
/// premium accounts (by their flags `premium_only`), as positions in order.
pub fn free_versions(premium_only: &Vec<bool>) -> (r: Vec<usize>)
    ensures
        r@.len() <= premium_only@.len(),
        forall|i: int| 0 <= i < r@.len() ==> (#[trigger] r@[i]) < premium_only@.len() && !premium_only@[r@[i] as int],
        forall|i: int, j: int| 0 <= i < j < r@.len() ==> r@[i] < r@[j],
        forall|k: int| 0 <= k < premium_only@.len() && !premium_only@[k] ==> r@.contains(k as usize),
{
    let mut r: Vec<usize> = Vec::new();
    let mut k: usize = 0;
    while k < premium_only.len()
        invariant
            k <= premium_only@.len(),
            r@.len() <= k,
            forall|i: int| 0 <= i < r@.len() ==> (#[trigger] r@[i]) < k && !premium_only@[r@[i] as int],
            forall|i: int, j: int| 0 <= i < j < r@.len() ==> r@[i] < r@[j],
            forall|q: int| 0 <= q < k && !premium_only@[q] ==> r@.contains(q as usize),
        decreases premium_only@.len() - k,
    {
        let ghost before = r@;
        if !premium_only[k] {
            r.push(k);
            assert(r@[r@.len() - 1] == k);
        }
        assert forall|q: int| 0 <= q <= k && !premium_only@[q] implies r@.contains(q as usize) by {
            if q < k {
                let i = choose|i: int| 0 <= i < before.len() && before[i] == q as usize;
                assert(r@[i] == q as usize);
            } else {
                assert(r@[r@.len() - 1] == k);
            }
        }
        k = k + 1;
    }
    r
}

/// The key of a group of formats: season number, then episode number in thousandths.
pub open spec fn key_less(a: (u32, i64), b: (u32, i64)) -> bool {
    a.0 < b.0 || (a.0 == b.0 && a.1 < b.1)
}

/// The groups of formats to download (the versions of one episode each), by season and episode
/// number; a group added under a key that is taken replaces the group there.
pub struct SingleFormatCollection<T> {
    entries: Vec<(u32, i64, Vec<T>)>,
}

impl<T> SingleFormatCollection<T> {
    /// The groups with their keys, in the order of the keys.
    pub closed spec fn groups(&self) -> Seq<((u32, i64), Seq<T>)> {
        Seq::new(self.entries@.len(), |i: int| ((self.entries@[i].0, self.entries@[i].1), self.entries@[i].2@))
    }

    /// The groups by key.
    pub open spec fn as_map(&self) -> Map<(u32, i64), Seq<T>> {
        seq_map(self.groups())
    }

    /// The keys come in ascending order, each once.
    pub open spec fn wf(&self) -> bool {
        forall|i: int, j: int| 0 <= i < j < self.groups().len() ==> key_less(#[trigger] self.groups()[i].0, #[trigger] self.groups()[j].0)
    }

    /// The empty collection.
    pub fn new() -> (r: Self)
        ensures
            r.wf(),
            r.groups().len() == 0,
    {
        SingleFormatCollection { entries: Vec::new() }
    }

    /// Whether the collection holds no group.
    pub fn is_empty(&self) -> (r: bool)
        ensures
            r == (self.groups().len() == 0),
    {
        self.entries.len() == 0
    }

    /// Adds the group `formats` under the key `(season_number, sequence_number)`, replacing the
    /// group that was there.
    pub fn add_single_formats(&mut self, season_number: u32, sequence_number: i64, formats: Vec<T>)
        requires
            old(self).wf(),
        ensures
            final(self).wf(),
            final(self).as_map() == old(self).as_map().insert((season_number, sequence_number), formats@),
    {
        let ghost k = (season_number, sequence_number);
        let ghost before = self.groups();
        let mut p: usize = 0;
        while p < self.entries.len() && key_less_exec(self.entries[p].0, self.entries[p].1, season_number, sequence_number)
            invariant
                p <= self.entries@.len(),
                before == self.groups(),
                k == (season_number, sequence_number),
                forall|q: int| 0 <= q < p ==> key_less(#[trigger] before[q].0, k),
            decreases self.entries@.len() - p,
        {
            assert(before[p as int].0 == (self.entries@[p as int].0, self.entries@[p as int].1));
            p = p + 1;
        }
        assert(p < before.len() ==> before[p as int].0 == (self.entries@[p as int].0, self.entries@[p as int].1));
        assert(p < before.len() ==> !key_less(before[p as int].0, k));
        if p < self.entries.len() && self.entries[p].0 == season_number && self.entries[p].1 == sequence_number {
            self.entries.set(p, (season_number, sequence_number, formats));
            let ghost after = self.groups();
            assert(after =~= before.update(p as int, (k, formats@)));
            proof { lemma_groups_replaced(before, after, p as int, k, formats@); }
        } else {
            self.entries.insert(p, (season_number, sequence_number, formats));
            let ghost after = self.groups();
            assert(after =~= before.insert(p as int, (k, formats@)));
            proof { lemma_groups_inserted(before, after, p as int, k, formats@); }
        }
    }

    /// The groups in the order of their keys.
    pub fn into_groups(self) -> (r: Vec<Vec<T>>)
        ensures
            r@.len() == self.groups().len(),
            forall|i: int| 0 <= i < r@.len() ==> (#[trigger] r@[i])@ == self.groups()[i].1,
    {
        let ghost g = self.groups();
        let mut entries = self.entries;
        let mut r: Vec<Vec<T>> = Vec::new();
        let ghost n = entries@.len();
        while entries.len() > 0
            invariant
                entries@.len() + r@.len() == n,
                g.len() == n,
                forall|i: int| 0 <= i < r@.len() ==> (#[trigger] r@[i])@ == g[n - 1 - i].1,
                forall|i: int| 0 <= i < entries@.len() ==> (#[trigger] entries@[i]).2@ == g[i].1,
            decreases entries@.len(),
        {
            let e = entries.pop().unwrap();
            r.push(e.2);
        }
        let mut out: Vec<Vec<T>> = Vec::new();
        while r.len() > 0
            invariant
                r@.len() + out@.len() == n,
                g.len() == n,
                forall|i: int| 0 <= i < r@.len() ==> (#[trigger] r@[i])@ == g[n - 1 - i].1,
                forall|i: int| 0 <= i < out@.len() ==> (#[trigger] out@[i])@ == g[i].1,
            decreases r@.len(),
        {
            let v = r.pop().unwrap();
            out.push(v);
        }
        out
    }
}

fn key_less_exec(a0: u32, a1: i64, b0: u32, b1: i64) -> (r: bool)
    ensures
        r == key_less((a0, a1), (b0, b1)),
{
    a0 < b0 || (a0 == b0 && a1 < b1)
}

proof fn lemma_groups_replaced<T>(
    before: Seq<((u32, i64), Seq<T>)>,
    after: Seq<((u32, i64), Seq<T>)>,
    p: int,
    k: (u32, i64),
    v: Seq<T>,
)
    requires
        0 <= p < before.len(),
        before[p].0 == k,
        after == before.update(p, (k, v)),
        forall|i: int, j: int| 0 <= i < j < before.len() ==> key_less(#[trigger] before[i].0, #[trigger] before[j].0),
    ensures
        forall|i: int, j: int| 0 <= i < j < after.len() ==> key_less(#[trigger] after[i].0, #[trigger] after[j].0),
        seq_map(after) == seq_map(before).insert(k, v),
{
    assert forall|i: int, j: int| 0 <= i < j < after.len() implies key_less(#[trigger] after[i].0, #[trigger] after[j].0) by {
        assert(after[i].0 == before[i].0 && after[j].0 == before[j].0);
    }
    lemma_sorted_unique(before);
    lemma_sorted_unique(after);
    assert(seq_map(after) =~= seq_map(before).insert(k, v)) by {
        assert forall|q: (u32, i64)| #[trigger] seq_map(after).dom().contains(q) <==> seq_map(before).insert(k, v).dom().contains(q) by {
            if seq_map(after).dom().contains(q) {
                let i = choose|i: int| 0 <= i < after.len() && #[trigger] after[i].0 == q;
                assert(before[i].0 == q);
            }
            if seq_map(before).dom().contains(q) {
                let i = choose|i: int| 0 <= i < before.len() && #[trigger] before[i].0 == q;
                assert(after[i].0 == q);
            }
            if q == k {
                assert(after[p].0 == q);
            }
        }
        assert forall|q: (u32, i64)| #[trigger] seq_map(after).dom().contains(q) implies seq_map(after)[q] == seq_map(before).insert(k, v)[q] by {
            let i = choose|i: int| 0 <= i < after.len() && #[trigger] after[i].0 == q;
            if q == k {
                assert(i == p);
            } else {
                assert(before[i].0 == q);
                assert(seq_map(before)[q] == before[i].1);
            }
        }
    }
}

proof fn lemma_groups_inserted<T>(
    before: Seq<((u32, i64), Seq<T>)>,
    after: Seq<((u32, i64), Seq<T>)>,
    p: int,
    k: (u32, i64),
    v: Seq<T>,
)
    requires
        0 <= p <= before.len(),
        forall|q: int| 0 <= q < p ==> key_less(#[trigger] before[q].0, k),
        p < before.len() ==> !key_less(before[p].0, k) && before[p].0 != k,
        after == before.insert(p, (k, v)),
        forall|i: int, j: int| 0 <= i < j < before.len() ==> key_less(#[trigger] before[i].0, #[trigger] before[j].0),
    ensures
        forall|i: int, j: int| 0 <= i < j < after.len() ==> key_less(#[trigger] after[i].0, #[trigger] after[j].0),
        seq_map(after) == seq_map(before).insert(k, v),
{
    assert forall|i: int, j: int| 0 <= i < j < after.len() implies key_less(#[trigger] after[i].0, #[trigger] after[j].0) by {
        if j < p {
            assert(after[i].0 == before[i].0 && after[j].0 == before[j].0);
        } else if j == p {
            assert(after[i].0 == before[i].0);
        } else if i == p {
            assert(after[j].0 == before[j - 1].0);
            if j - 1 > p {
                assert(key_less(before[p].0, before[j - 1].0));
            }
        } else if i < p {
            assert(after[i].0 == before[i].0 && after[j].0 == before[j - 1].0);
        } else {
            assert(after[i].0 == before[i - 1].0 && after[j].0 == before[j - 1].0);
        }
    }
    lemma_sorted_unique(before);
    lemma_sorted_unique(after);
    assert(seq_map(after) =~= seq_map(before).insert(k, v)) by {
        assert forall|q: (u32, i64)| #[trigger] seq_map(after).dom().contains(q) <==> seq_map(before).insert(k, v).dom().contains(q) by {
            if seq_map(after).dom().contains(q) {
                let i = choose|i: int| 0 <= i < after.len() && #[trigger] after[i].0 == q;
                if i < p {
                    assert(before[i].0 == q);
                } else if i > p {
                    assert(before[i - 1].0 == q);
                }
            }
            if seq_map(before).dom().contains(q) {
                let i = choose|i: int| 0 <= i < before.len() && #[trigger] before[i].0 == q;
                if i < p {
                    assert(after[i].0 == q);
                } else {
                    assert(after[i + 1].0 == q);
                }
            }
            if q == k {
                assert(after[p].0 == q);
            }
        }
        assert forall|q: (u32, i64)| #[trigger] seq_map(after).dom().contains(q) implies seq_map(after)[q] == seq_map(before).insert(k, v)[q] by {
            let i = choose|i: int| 0 <= i < after.len() && #[trigger] after[i].0 == q;
            if q == k {
                assert(after[p].0 == k);
                assert(i == p);
            } else if i < p {
                assert(before[i].0 == q);
                assert(seq_map(before)[q] == before[i].1);
            } else {
                assert(i != p);
                assert(before[i - 1].0 == q);
                assert(seq_map(before)[q] == before[i - 1].1);
            }
        }
    }
}

/// The map from key to group of a sequence of keyed groups.
pub open spec fn seq_map<T>(s: Seq<((u32, i64), Seq<T>)>) -> Map<(u32, i64), Seq<T>> {
    Map::new(
        |k: (u32, i64)| exists|i: int| 0 <= i < s.len() && #[trigger] s[i].0 == k,
        |k: (u32, i64)| s[choose|i: int| 0 <= i < s.len() && #[trigger] s[i].0 == k].1,
    )
}

/// In a sequence with strictly ascending keys, a key names one position.
proof fn lemma_sorted_unique<T>(s: Seq<((u32, i64), Seq<T>)>)
    requires
        forall|i: int, j: int| 0 <= i < j < s.len() ==> key_less(#[trigger] s[i].0, #[trigger] s[j].0),
    ensures
        forall|i: int, j: int| 0 <= i < s.len() && 0 <= j < s.len() && #[trigger] s[i].0 == #[trigger] s[j].0 ==> i == j,
        forall|i: int| 0 <= i < s.len() ==> seq_map(s).dom().contains(#[trigger] s[i].0) && seq_map(s)[s[i].0] == s[i].1,
{
    assert forall|i: int, j: int| 0 <= i < s.len() && 0 <= j < s.len() && #[trigger] s[i].0 == #[trigger] s[j].0 implies i == j by {
        if i < j {
            assert(key_less(s[i].0, s[j].0));
        } else if j < i {
            assert(key_less(s[j].0, s[i].0));
        }
    }
    assert forall|i: int| 0 <= i < s.len() implies seq_map(s).dom().contains(#[trigger] s[i].0) && seq_map(s)[s[i].0] == s[i].1 by {
        let q = s[i].0;
        assert(seq_map(s).dom().contains(q));
        let c = choose|c: int| 0 <= c < s.len() && #[trigger] s[c].0 == q;
        assert(s[c].0 == s[i].0);
    }
}

/// The texts of a sequence of strings.
pub open spec fn texts(v: Seq<String>) -> Seq<Seq<char>> {
    Seq::new(v.len(), |i: int| v[i]@)
}

/// The position of the first string of `v` equal to `id`.
pub fn find_text(v: &Vec<String>, id: &String) -> (r: Option<usize>)
    ensures
        match r {
            Some(p) => first_position(texts(v@), id@) == Some(p as nat) && p < v@.len(),
            None => first_position(texts(v@), id@) is None,
        },
{
    let ghost all = texts(v@);
    let mut i: usize = 0;
    assert(all.subrange(0, all.len() as int) =~= all);
    while i < v.len()
        invariant
            i <= v@.len(),
            all == texts(v@),
            first_position(all, id@) == match first_position(all.subrange(i as int, all.len() as int), id@) {
                Some(p) => Some((p + i) as nat),
                None => None,
            },
        decreases v@.len() - i,
    {
        let ghost rest = all.subrange(i as int, all.len() as int);
        assert(rest.drop_first() =~= all.subrange(i + 1, all.len() as int));
        assert(rest[0] == v@[i as int]@);
        if v[i].eq(id) {
            return Some(i);
        }
        i = i + 1;
    }
    assert(all.subrange(i as int, all.len() as int) =~= Seq::<Seq<char>>::empty());
    None
}

/// Lexicographic order of texts by code points, as the order of `String` compares them.
pub open spec fn text_less(a: Seq<char>, b: Seq<char>) -> bool
    decreases a.len(),
{
    if b.len() == 0 {
        false
    } else if a.len() == 0 {
        true
    } else if a[0] != b[0] {
        a[0] < b[0]
    } else {
        text_less(a.drop_first(), b.drop_first())
    }
}

pub(crate) proof fn lemma_text_less_irreflexive(a: Seq<char>)
    ensures
        !text_less(a, a),
    decreases a.len(),
{
    if a.len() > 0 {
        lemma_text_less_irreflexive(a.drop_first());
    }
}

pub(crate) proof fn lemma_text_less_total(a: Seq<char>, b: Seq<char>)
    requires
        a != b,
    ensures
        text_less(a, b) || text_less(b, a),
    decreases a.len(),
{
    if a.len() > 0 && b.len() > 0 && a[0] == b[0] {
        if a.drop_first() == b.drop_first() {
            assert(a =~= seq![a[0]] + a.drop_first());
            assert(b =~= seq![b[0]] + b.drop_first());
        }
        lemma_text_less_total(a.drop_first(), b.drop_first());
    } else if a.len() == 0 && b.len() == 0 {
        assert(a =~= b);
    }
}

pub(crate) proof fn lemma_text_less_transitive(a: Seq<char>, b: Seq<char>, c: Seq<char>)
    requires
        text_less(a, b),
        text_less(b, c),
    ensures
        text_less(a, c),
    decreases a.len(),
{
    if a.len() > 0 && b.len() > 0 && c.len() > 0 && a[0] == b[0] && b[0] == c[0] {
        lemma_text_less_transitive(a.drop_first(), b.drop_first(), c.drop_first());
    }
}

/// Whether `a` comes before `b` in the order of texts (see [`text_less`]).
pub fn text_less_exec(a: &String, b: &String) -> (r: bool)
    ensures
        r == text_less(a@, b@),
{
    let x = crate::text::chars_of(a.as_str());
    let y = crate::text::chars_of(b.as_str());
    let mut i: usize = 0;
    assert(x@.subrange(0, x@.len() as int) =~= x@);
    assert(y@.subrange(0, y@.len() as int) =~= y@);
    while i < x.len() && i < y.len() && x[i] == y[i]
        invariant
            i <= x@.len(),
            i <= y@.len(),
            text_less(a@, b@) == text_less(x@.subrange(i as int, x@.len() as int), y@.subrange(i as int, y@.len() as int)),
        decreases x@.len() - i,
    {
        let ghost u = x@.subrange(i as int, x@.len() as int);
        let ghost w = y@.subrange(i as int, y@.len() as int);
        assert(u.drop_first() =~= x@.subrange(i + 1, x@.len() as int));
        assert(w.drop_first() =~= y@.subrange(i + 1, y@.len() as int));
        i = i + 1;
    }
    let ghost u = x@.subrange(i as int, x@.len() as int);
    let ghost w = y@.subrange(i as int, y@.len() as int);
    if i == y.len() {
        false
    } else if i == x.len() {
        true
    } else {
        assert(u[0] == x@[i as int] && w[0] == y@[i as int]);
        x[i] < y[i]
    }
}

/// The position of the season of format `k` (of `(identifier, season id, audio)` entries)
/// among the seasons in the order in which the walk met them.
pub open spec fn season_rank(f: Seq<(String, String, Locale)>, sorting: Seq<String>, k: int) -> nat {
    first_position(texts(sorting), f[k].1@)->0
}

/// Whether the group whose first format is `a` comes before the one whose first format is `b`:
/// by the position of their season, then by identifier.
pub open spec fn group_before(f: Seq<(String, String, Locale)>, sorting: Seq<String>, a: int, b: int) -> bool {
    season_rank(f, sorting, a) < season_rank(f, sorting, b) || (season_rank(f, sorting, a) == season_rank(
        f,
        sorting,
        b,
    ) && text_less(f[a].0@, f[b].0@))
}

/// The rank of an audio language under the requested order: its position there, or after all
/// of them.
pub open spec fn audio_rank(sort: Seq<LocaleView>, l: LocaleView) -> u64 {
    match crate::download::position_of(sort, l) {
        Some(p) => p as u64,
        None => u64::MAX,
    }
}

/// Whether some group of `gs` holds `q`.
pub open spec fn covers(gs: Seq<Vec<usize>>, q: int) -> bool {
    exists|g: int, i: int| 0 <= g < gs.len() && 0 <= i < gs[g]@.len() && #[trigger] gs[g]@[i] == q
}

/// Whether `x` is the smallest entry of `g`.
pub open spec fn is_lead(g: Seq<usize>, x: usize) -> bool {
    g.contains(x) && forall|i: int| 0 <= i < g.len() ==> x <= #[trigger] g[i]
}

/// Whether `out` holds the entries of `members` (which ascend), each once, ordered by the rank of
/// their audio language and then by position.
pub open spec fn arranged(out: Seq<usize>, members: Seq<usize>, f: Seq<(String, String, Locale)>, sort: Seq<LocaleView>) -> bool {
    &&& out.len() == members.len()
    &&& forall|t: int| 0 <= t < out.len() ==> members.contains(#[trigger] out[t])
    &&& forall|u: int| 0 <= u < members.len() ==> out.contains(#[trigger] members[u])
    &&& forall|t1: int, t2: int| 0 <= t1 < t2 < out.len() ==> {
        let a = #[trigger] out[t1];
        let b = #[trigger] out[t2];
        audio_rank(sort, f[a as int].2@) < audio_rank(sort, f[b as int].2@) || (audio_rank(sort, f[a as int].2@)
            == audio_rank(sort, f[b as int].2@) && a < b)
    }
}

proof fn lemma_group_before_transitive(f: Seq<(String, String, Locale)>, sorting: Seq<String>, a: int, b: int, c: int)
    requires
        group_before(f, sorting, a, b),
        group_before(f, sorting, b, c),
    ensures
        group_before(f, sorting, a, c),
{
    if season_rank(f, sorting, a) == season_rank(f, sorting, b) && season_rank(f, sorting, b) == season_rank(f, sorting, c) {
        lemma_text_less_transitive(f[a].0@, f[b].0@, f[c].0@);
    }
}

proof fn lemma_group_before_total(f: Seq<(String, String, Locale)>, sorting: Seq<String>, a: int, b: int)
    requires
        f[a].0@ != f[b].0@,
    ensures
        group_before(f, sorting, a, b) || group_before(f, sorting, b, a),
{
    lemma_text_less_total(f[a].0@, f[b].0@);
}

proof fn lemma_group_before_irreflexive(f: Seq<(String, String, Locale)>, sorting: Seq<String>, a: int)
    ensures
        !group_before(f, sorting, a, a),
{
    lemma_text_less_irreflexive(f[a].0@);
}

/// Groups the formats `(identifier, season id, audio)` that a walk found and orders them, as the
/// walk's end does before the groups are collected: one group per identifier, the groups by
/// the position of the season of their first format among the seasons in the order the walk met
/// them (`season_sorting`), then by identifier; within a group, the formats by the position of
/// their audio language in `audio_sort` (those missing from it last), then in the order found.
/// Every season id must be listed in `season_sorting`.
pub fn finish_order(formats: &Vec<(String, String, Locale)>, season_sorting: &Vec<String>, audio_sort: &Vec<Locale>) -> (r: Vec<Vec<usize>>)
    requires
        forall|k: int| 0 <= k < formats@.len() ==> first_position(texts(season_sorting@), (#[trigger] formats@[k]).1@) is Some,
    ensures
        forall|g: int| 0 <= g < r@.len() ==> (#[trigger] r@[g])@.len() > 0,
        forall|g: int, i: int| 0 <= g < r@.len() && 0 <= i < r@[g]@.len() ==> {
            &&& (#[trigger] r@[g]@[i]) < formats@.len()
            &&& formats@[r@[g]@[i] as int].0@ == formats@[r@[g]@[0] as int].0@
        },
        forall|k: int| 0 <= k < formats@.len() ==> #[trigger] covers(r@, k),
        forall|g: int, i: int, h: int, j: int|
            0 <= g < r@.len() && 0 <= i < r@[g]@.len() && 0 <= h < r@.len() && 0 <= j < r@[h]@.len() && #[trigger] r@[g]@[i]
                == #[trigger] r@[h]@[j] ==> g == h && i == j,
        forall|g: int, h: int| 0 <= g < h < r@.len() ==> formats@[(#[trigger] r@[g])@[0] as int].0@ != formats@[(#[trigger] r@[h])@[0] as int].0@,
        forall|g: int, i: int, j: int| 0 <= g < r@.len() && 0 <= i < j < r@[g]@.len() ==> {
            let a = #[trigger] r@[g]@[i];
            let b = #[trigger] r@[g]@[j];
            audio_rank(views(audio_sort@), formats@[a as int].2@) < audio_rank(views(audio_sort@), formats@[b as int].2@) || (
            audio_rank(views(audio_sort@), formats@[a as int].2@) == audio_rank(views(audio_sort@), formats@[b as int].2@) && a < b)
        },
        forall|g: int, h: int, a: usize, b: usize|
            0 <= g < h < r@.len() && #[trigger] is_lead(r@[g]@, a) && #[trigger] is_lead(r@[h]@, b) ==> group_before(
                formats@,
                season_sorting@,
                a as int,
                b as int,
            ),
{
    let ghost f = formats@;
    let n = formats.len();
    // The groups in the order their identifiers first occur, each with its formats ascending.
    let mut groups: Vec<Vec<usize>> = Vec::new();
    let mut k: usize = 0;
    while k < n
        invariant
            k <= n,
            n == f.len(),
            f == formats@,
            forall|g: int| 0 <= g < groups@.len() ==> (#[trigger] groups@[g])@.len() > 0,
            forall|g: int, i: int| 0 <= g < groups@.len() && 0 <= i < groups@[g]@.len() ==> {
                &&& (#[trigger] groups@[g]@[i]) < k
                &&& f[groups@[g]@[i] as int].0@ == f[groups@[g]@[0] as int].0@
            },
            forall|g: int, i: int, j: int| 0 <= g < groups@.len() && 0 <= i < j < groups@[g]@.len() ==> #[trigger] groups@[g]@[i]
                < #[trigger] groups@[g]@[j],
            forall|g: int, h: int| 0 <= g < h < groups@.len() ==> f[(#[trigger] groups@[g])@[0] as int].0@ != f[(#[trigger] groups@[h])@[0] as int].0@,
            forall|q: int| 0 <= q < k ==> #[trigger] covers(groups@, q),
        decreases n - k,
    {
        let mut found: Option<usize> = None;
        let mut g: usize = 0;
        while g < groups.len()
            invariant
                g <= groups@.len(),
                k < n,
                n == f.len(),
                f == formats@,
                forall|g2: int| 0 <= g2 < groups@.len() ==> (#[trigger] groups@[g2])@.len() > 0,
                forall|g2: int| 0 <= g2 < groups@.len() ==> (#[trigger] groups@[g2])@[0] < k,
                match found {
                    Some(x) => x < groups@.len() && f[groups@[x as int]@[0] as int].0@ == f[k as int].0@,
                    None => forall|g2: int| 0 <= g2 < g ==> f[(#[trigger] groups@[g2])@[0] as int].0@ != f[k as int].0@,
                },
            ensures
                match found {
                    Some(x) => x < groups@.len() && f[groups@[x as int]@[0] as int].0@ == f[k as int].0@,
                    None => forall|g2: int| 0 <= g2 < groups@.len() ==> f[(#[trigger] groups@[g2])@[0] as int].0@ != f[k as int].0@,
                },
            decreases groups@.len() - g,
        {
            if formats[groups[g][0]].0.eq(&formats[k].0) {
                found = Some(g);
                break;
            }
            g = g + 1;
        }
        let ghost before = groups@;
        match found {
            Some(x) => {
                let mut v = groups.remove(x);
                v.push(k);
                groups.insert(x, v);
                assert forall|g2: int| 0 <= g2 < groups@.len() implies (#[trigger] groups@[g2])@ == if g2 == x {
                    before[g2]@.push(k)
                } else {
                    before[g2]@
                } by {}
            },
            None => {
                let mut v: Vec<usize> = Vec::new();
                v.push(k);
                groups.push(v);
            },
        }
        assert forall|q: int| 0 <= q < k + 1 implies #[trigger] covers(groups@, q) by {
            if q < k {
                assert(covers(before, q));
                let (g2, i) = choose|g2: int, i: int| 0 <= g2 < before.len() && 0 <= i < before[g2]@.len() && #[trigger] before[g2]@[i] == q;
                assert(groups@[g2]@[i] == q);
            } else {
                match found {
                    Some(x) => {
                        assert(groups@[x as int]@[before[x as int]@.len() as int] == q);
                    },
                    None => {
                        assert(groups@[before.len() as int]@[0] == q);
                    },
                }
            }
        }
        k = k + 1;
    }
    let m = groups.len();
    // The season position of every format.
    let mut ranks: Vec<usize> = Vec::new();
    let mut k: usize = 0;
    while k < n
        invariant
            k <= n,
            n == f.len(),
            f == formats@,
            ranks@.len() == k,
            forall|q: int| 0 <= q < n ==> first_position(texts(season_sorting@), (#[trigger] f[q]).1@) is Some,
            forall|q: int| 0 <= q < k ==> #[trigger] ranks@[q] == season_rank(f, season_sorting@, q),
        decreases n - k,
    {
        assert(first_position(texts(season_sorting@), f[k as int].1@) is Some);
        match find_text(season_sorting, &formats[k].1) {
            Some(p) => {
                ranks.push(p);
            },
            None => {
                ranks.push(0);
            },
        }
        k = k + 1;
    }
    // The groups in order (an insertion sort of their positions by their first formats).
    let mut order: Vec<usize> = Vec::new();
    let mut idx: usize = 0;
    while idx < m
        invariant
            idx <= m,
            m == groups@.len(),
            n == f.len(),
            f == formats@,
            ranks@.len() == n,
            forall|q: int| 0 <= q < n ==> #[trigger] ranks@[q] == season_rank(f, season_sorting@, q),
            forall|g: int| 0 <= g < m ==> (#[trigger] groups@[g])@.len() > 0 && groups@[g]@[0] < n,
            forall|g: int, h: int| 0 <= g < h < m ==> f[(#[trigger] groups@[g])@[0] as int].0@ != f[(#[trigger] groups@[h])@[0] as int].0@,
            order@.len() == idx,
            forall|i: int| 0 <= i < idx ==> #[trigger] order@[i] < idx,
            forall|q: int| 0 <= q < idx ==> #[trigger] crate::download::listed(order@, q),
            forall|i: int, j: int| 0 <= i < j < order@.len() ==> group_before(
                f,
                season_sorting@,
                groups@[#[trigger] order@[i] as int]@[0] as int,
                groups@[#[trigger] order@[j] as int]@[0] as int,
            ),
        decreases m - idx,
    {
        let lead = groups[idx][0];
        let mut p: usize = 0;
        while p < order.len() && (ranks[groups[order[p]][0]] < ranks[lead] || (ranks[groups[order[p]][0]] == ranks[lead]
            && text_less_exec(&formats[groups[order[p]][0]].0, &formats[lead].0)))
            invariant
                p <= order@.len(),
                order@.len() == idx,
                idx < m,
                m == groups@.len(),
                n == f.len(),
                f == formats@,
                lead == groups@[idx as int]@[0],
                ranks@.len() == n,
                forall|q: int| 0 <= q < n ==> #[trigger] ranks@[q] == season_rank(f, season_sorting@, q),
                forall|g: int| 0 <= g < m ==> (#[trigger] groups@[g])@.len() > 0 && groups@[g]@[0] < n,
                forall|i: int| 0 <= i < idx ==> #[trigger] order@[i] < idx,
                forall|q: int| 0 <= q < p ==> group_before(
                    f,
                    season_sorting@,
                    groups@[#[trigger] order@[q] as int]@[0] as int,
                    lead as int,
                ),
            decreases order@.len() - p,
        {
            p = p + 1;
        }
        let ghost before = order@;
        proof {
            if p < before.len() {
                let o = before[p as int];
                assert(o < idx);
                assert(!group_before(f, season_sorting@, groups@[o as int]@[0] as int, lead as int));
                assert(f[groups@[o as int]@[0] as int].0@ != f[lead as int].0@);
                lemma_group_before_total(f, season_sorting@, groups@[o as int]@[0] as int, lead as int);
            }
        }
        order.insert(p, idx);
        assert forall|q: int| 0 <= q < idx + 1 implies #[trigger] crate::download::listed(order@, q) by {
            if q == idx {
                assert(order@[p as int] == q);
            } else {
                assert(crate::download::listed(before, q));
                let i = choose|i: int| 0 <= i < before.len() && before[i] == q;
                if i < p {
                    assert(order@[i] == q);
                } else {
                    assert(order@[i + 1] == q);
                }
            }
        }
        assert forall|i: int, j: int| 0 <= i < j < order@.len() implies group_before(
            f,
            season_sorting@,
            groups@[#[trigger] order@[i] as int]@[0] as int,
            groups@[#[trigger] order@[j] as int]@[0] as int,
        ) by {
            if j < p {
                assert(order@[i] == before[i] && order@[j] == before[j]);
            } else if j == p {
                assert(order@[i] == before[i]);
            } else if i == p {
                assert(order@[j] == before[j - 1]);
                if j - 1 > p {
                    lemma_group_before_transitive(
                        f,
                        season_sorting@,
                        lead as int,
                        groups@[before[p as int] as int]@[0] as int,
                        groups@[before[j - 1] as int]@[0] as int,
                    );
                }
            } else if i < p {
                assert(order@[i] == before[i] && order@[j] == before[j - 1]);
            } else {
                assert(order@[i] == before[i - 1] && order@[j] == before[j - 1]);
            }
        }
        idx = idx + 1;
    }
    proof {
        assert forall|i: int, j: int| 0 <= i < j < m implies order@[i] != order@[j] by {
            if order@[i] == order@[j] {
                lemma_group_before_irreflexive(f, season_sorting@, groups@[order@[i] as int]@[0] as int);
            }
        }
    }
    // Each group, its formats ordered by audio language.
    let ghost sortv = views(audio_sort@);
    let mut out: Vec<Vec<usize>> = Vec::new();
    let mut q: usize = 0;
    while q < m
        invariant
            q <= m,
            m == groups@.len(),
            order@.len() == m,
            sortv == views(audio_sort@),
            n == f.len(),
            f == formats@,
            forall|i: int| 0 <= i < m ==> #[trigger] order@[i] < m,
            forall|g: int| 0 <= g < m ==> (#[trigger] groups@[g])@.len() > 0,
            forall|g: int, i: int| 0 <= g < m && 0 <= i < groups@[g]@.len() ==> (#[trigger] groups@[g]@[i]) < n,
            forall|g: int, i: int, j: int| 0 <= g < m && 0 <= i < j < groups@[g]@.len() ==> #[trigger] groups@[g]@[i]
                < #[trigger] groups@[g]@[j],
            out@.len() == q,
            forall|t: int| 0 <= t < q ==> arranged((#[trigger] out@[t])@, groups@[order@[t] as int]@, f, sortv),
        decreases m - q,
    {
        let g = order[q];
        let members = &groups[g];
        let mut keys: Vec<u64> = Vec::new();
        let mut t: usize = 0;
        while t < members.len()
            invariant
                t <= members@.len(),
                members == groups@[g as int],
                g < m,
                m == groups@.len(),
                n == f.len(),
                f == formats@,
                sortv == views(audio_sort@),
                forall|i: int| 0 <= i < members@.len() ==> (#[trigger] members@[i]) < n,
                keys@.len() == t,
                forall|i: int| 0 <= i < t ==> #[trigger] keys@[i] == audio_rank(sortv, f[members@[i] as int].2@),
            decreases members@.len() - t,
        {
            let rank: u64 = match crate::download::position_of_exec(audio_sort, &formats[members[t]].2) {
                Some(p) => p as u64,
                None => u64::MAX,
            };
            keys.push(rank);
            t = t + 1;
        }
        let o = crate::download::stable_order(&keys);
        let mut grp: Vec<usize> = Vec::new();
        let mut t: usize = 0;
        while t < o.len()
            invariant
                t <= o@.len(),
                o@.len() == members@.len(),
                crate::download::is_permutation(o@, members@.len()),
                grp@.len() == t,
                forall|i: int| 0 <= i < t ==> #[trigger] grp@[i] == members@[o@[i] as int],
            decreases o@.len() - t,
        {
            grp.push(members[o[t]]);
            t = t + 1;
        }
        proof {
            let ms = members@;
            assert forall|t: int| 0 <= t < grp@.len() implies ms.contains(#[trigger] grp@[t]) by {
                assert(ms[o@[t] as int] == grp@[t]);
            }
            assert forall|u: int| 0 <= u < ms.len() implies grp@.contains(#[trigger] ms[u]) by {
                assert(crate::download::listed(o@, u));
                let t = choose|t: int| 0 <= t < o@.len() && o@[t] == u;
                assert(grp@[t] == ms[u]);
            }
            assert forall|t1: int, t2: int| 0 <= t1 < t2 < grp@.len() implies {
                let a = #[trigger] grp@[t1];
                let b = #[trigger] grp@[t2];
                audio_rank(sortv, f[a as int].2@) < audio_rank(sortv, f[b as int].2@) || (audio_rank(sortv, f[a as int].2@)
                    == audio_rank(sortv, f[b as int].2@) && a < b)
            } by {
                let x = o@[t1] as int;
                let y = o@[t2] as int;
                assert(keys@[x] < keys@[y] || (keys@[x] == keys@[y] && x < y));
                if x < y {
                    assert(ms[x] < ms[y]);
                }
            }
            assert(arranged(grp@, ms, f, sortv));
        }
        out.push(grp);
        q = q + 1;
    }
    proof {
        lemma_finish_order_result(f, season_sorting@, sortv, groups@, order@, out@);
    }
    out
}

proof fn lemma_finish_order_result(
    f: Seq<(String, String, Locale)>,
    sorting: Seq<String>,
    sortv: Seq<LocaleView>,
    groups: Seq<Vec<usize>>,
    order: Seq<usize>,
    out: Seq<Vec<usize>>,
)
    requires
        order.len() == groups.len(),
        out.len() == groups.len(),
        forall|i: int| 0 <= i < groups.len() ==> #[trigger] order[i] < groups.len(),
        forall|i: int, j: int| 0 <= i < j < groups.len() ==> order[i] != order[j],
        forall|q: int| 0 <= q < groups.len() ==> #[trigger] crate::download::listed(order, q),
        forall|i: int, j: int| 0 <= i < j < order.len() ==> group_before(
            f,
            sorting,
            groups[#[trigger] order[i] as int]@[0] as int,
            groups[#[trigger] order[j] as int]@[0] as int,
        ),
        forall|g: int| 0 <= g < groups.len() ==> (#[trigger] groups[g])@.len() > 0,
        forall|g: int, i: int| 0 <= g < groups.len() && 0 <= i < groups[g]@.len() ==> {
            &&& (#[trigger] groups[g]@[i]) < f.len()
            &&& f[groups[g]@[i] as int].0@ == f[groups[g]@[0] as int].0@
        },
        forall|g: int, i: int, j: int| 0 <= g < groups.len() && 0 <= i < j < groups[g]@.len() ==> #[trigger] groups[g]@[i]
            < #[trigger] groups[g]@[j],
        forall|g: int, h: int| 0 <= g < h < groups.len() ==> f[(#[trigger] groups[g])@[0] as int].0@ != f[(#[trigger] groups[h])@[0] as int].0@,
        forall|q: int| 0 <= q < f.len() ==> #[trigger] covers(groups, q),
        forall|t: int| 0 <= t < out.len() ==> arranged((#[trigger] out[t])@, groups[order[t] as int]@, f, sortv),
    ensures
        forall|g: int| 0 <= g < out.len() ==> (#[trigger] out[g])@.len() > 0,
        forall|g: int, i: int| 0 <= g < out.len() && 0 <= i < out[g]@.len() ==> {
            &&& (#[trigger] out[g]@[i]) < f.len()
            &&& f[out[g]@[i] as int].0@ == f[out[g]@[0] as int].0@
        },
        forall|k: int| 0 <= k < f.len() ==> #[trigger] covers(out, k),
        forall|g: int, i: int, h: int, j: int|
            0 <= g < out.len() && 0 <= i < out[g]@.len() && 0 <= h < out.len() && 0 <= j < out[h]@.len() && #[trigger] out[g]@[i]
                == #[trigger] out[h]@[j] ==> g == h && i == j,
        forall|g: int, h: int| 0 <= g < h < out.len() ==> f[(#[trigger] out[g])@[0] as int].0@ != f[(#[trigger] out[h])@[0] as int].0@,
        forall|g: int, i: int, j: int| 0 <= g < out.len() && 0 <= i < j < out[g]@.len() ==> {
            let a = #[trigger] out[g]@[i];
            let b = #[trigger] out[g]@[j];
            audio_rank(sortv, f[a as int].2@) < audio_rank(sortv, f[b as int].2@) || (audio_rank(sortv, f[a as int].2@)
                == audio_rank(sortv, f[b as int].2@) && a < b)
        },
        forall|g: int, h: int, a: usize, b: usize|
            0 <= g < h < out.len() && #[trigger] is_lead(out[g]@, a) && #[trigger] is_lead(out[h]@, b) ==> group_before(
                f,
                sorting,
                a as int,
                b as int,
            ),
{
    let m = groups.len();
    // Each entry of an arranged group is a member, hence names the group's identifier.
    assert forall|g: int, i: int| 0 <= g < m && 0 <= i < out[g]@.len() implies {
        &&& (#[trigger] out[g]@[i]) < f.len()
        &&& f[out[g]@[i] as int].0@ == f[groups[order[g] as int]@[0] as int].0@
    } by {
        let ms = groups[order[g] as int]@;
        assert(arranged(out[g]@, ms, f, sortv));
        assert(ms.contains(out[g]@[i]));
        let u = choose|u: int| 0 <= u < ms.len() && ms[u] == out[g]@[i];
        assert(groups[order[g] as int]@[u] < f.len());
    }
    assert forall|g: int| 0 <= g < m implies (#[trigger] out[g])@.len() > 0 by {
        assert(arranged(out[g]@, groups[order[g] as int]@, f, sortv));
    }
    assert forall|g: int, i: int| 0 <= g < m && 0 <= i < out[g]@.len() implies {
        &&& (#[trigger] out[g]@[i]) < f.len()
        &&& f[out[g]@[i] as int].0@ == f[out[g]@[0] as int].0@
    } by {
        assert(out[g]@.len() > 0);
        assert(f[out[g]@[0] as int].0@ == f[groups[order[g] as int]@[0] as int].0@);
        assert(f[out[g]@[i] as int].0@ == f[groups[order[g] as int]@[0] as int].0@);
    }
    assert forall|k: int| 0 <= k < f.len() implies #[trigger] covers(out, k) by {
        assert(covers(groups, k));
        let (g0, u) = choose|g0: int, u: int| 0 <= g0 < m && 0 <= u < groups[g0]@.len() && #[trigger] groups[g0]@[u] == k;
        assert(crate::download::listed(order, g0));
        let t = choose|t: int| 0 <= t < order.len() && order[t] == g0;
        assert(arranged(out[t]@, groups[g0]@, f, sortv));
        assert(out[t]@.contains(groups[g0]@[u]));
        let i = choose|i: int| 0 <= i < out[t]@.len() && out[t]@[i] == groups[g0]@[u];
        assert(out[t]@[i] == k);
    }
    assert forall|g: int, h: int| 0 <= g < h < m implies f[(#[trigger] out[g])@[0] as int].0@ != f[(#[trigger] out[h])@[0] as int].0@ by {
        assert(out[g]@.len() > 0 && out[h]@.len() > 0);
        assert(f[out[g]@[0] as int].0@ == f[groups[order[g] as int]@[0] as int].0@);
        assert(f[out[h]@[0] as int].0@ == f[groups[order[h] as int]@[0] as int].0@);
        let x = order[g] as int;
        let y = order[h] as int;
        assert(x != y);
        if x < y {
            assert(f[groups[x]@[0] as int].0@ != f[groups[y]@[0] as int].0@);
        } else {
            assert(f[groups[y]@[0] as int].0@ != f[groups[x]@[0] as int].0@);
        }
    }
    assert forall|g: int, i: int, h: int, j: int|
        0 <= g < out.len() && 0 <= i < out[g]@.len() && 0 <= h < out.len() && 0 <= j < out[h]@.len() && #[trigger] out[g]@[i]
            == #[trigger] out[h]@[j] implies g == h && i == j by {
        let x = order[g] as int;
        let y = order[h] as int;
        assert(f[out[g]@[i] as int].0@ == f[groups[x]@[0] as int].0@);
        assert(f[out[h]@[j] as int].0@ == f[groups[y]@[0] as int].0@);
        if x < y {
            assert(f[groups[x]@[0] as int].0@ != f[groups[y]@[0] as int].0@);
        } else if y < x {
            assert(f[groups[y]@[0] as int].0@ != f[groups[x]@[0] as int].0@);
        }
        assert(x == y);
        if g != h {
            if g < h {
                assert(order[g] != order[h]);
            } else {
                assert(order[h] != order[g]);
            }
        }
        assert(g == h);
        let og = out[g]@;
        assert(arranged(og, groups[x]@, f, sortv));
        if i < j {
            let a = og[i];
            let b = og[j];
            assert(audio_rank(sortv, f[a as int].2@) < audio_rank(sortv, f[b as int].2@) || (audio_rank(sortv, f[a as int].2@)
                == audio_rank(sortv, f[b as int].2@) && a < b));
        } else if j < i {
            let a = og[j];
            let b = og[i];
            assert(audio_rank(sortv, f[a as int].2@) < audio_rank(sortv, f[b as int].2@) || (audio_rank(sortv, f[a as int].2@)
                == audio_rank(sortv, f[b as int].2@) && a < b));
        }
    }
    assert forall|g: int, i: int, j: int| 0 <= g < out.len() && 0 <= i < j < out[g]@.len() implies {
        let a = #[trigger] out[g]@[i];
        let b = #[trigger] out[g]@[j];
        audio_rank(sortv, f[a as int].2@) < audio_rank(sortv, f[b as int].2@) || (audio_rank(sortv, f[a as int].2@)
            == audio_rank(sortv, f[b as int].2@) && a < b)
    } by {
        assert(arranged(out[g]@, groups[order[g] as int]@, f, sortv));
    }
    assert forall|g: int, h: int, a: usize, b: usize|
        0 <= g < h < out.len() && #[trigger] is_lead(out[g]@, a) && #[trigger] is_lead(out[h]@, b) implies group_before(
            f,
            sorting,
            a as int,
            b as int,
        ) by {
        lemma_lead_is_first(out[g]@, groups[order[g] as int]@, f, sortv, a);
        lemma_lead_is_first(out[h]@, groups[order[h] as int]@, f, sortv, b);
    }
}

/// The smallest entry of an arranged group is the first of its ascending members.
proof fn lemma_lead_is_first(out: Seq<usize>, members: Seq<usize>, f: Seq<(String, String, Locale)>, sortv: Seq<LocaleView>, a: usize)
    requires
        arranged(out, members, f, sortv),
        members.len() > 0,
        forall|i: int, j: int| 0 <= i < j < members.len() ==> #[trigger] members[i] < #[trigger] members[j],
        is_lead(out, a),
    ensures
        a == members[0],
{
    let t = choose|t: int| 0 <= t < out.len() && out[t] == a;
    assert(members.contains(out[t]));
    let u = choose|u: int| 0 <= u < members.len() && members[u] == a;
    assert(out.contains(members[0]));
    let t0 = choose|t0: int| 0 <= t0 < out.len() && out[t0] == members[0];
    assert(a <= out[t0]);
    if u > 0 {
        assert(members[0] < members[u]);
    }
}

} // verus!
