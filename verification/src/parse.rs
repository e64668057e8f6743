//! Url filters (`...[S1E4-S3]`) and resolution strings.
use vstd::prelude::*;
use crate::text::{all_digits, chars_of, digit_value, digits_value, is_digit, lower, lower_vec, vec_eq_str, string_from, slice_vec, occurs_at, occurs_at_exec, starts_with};

verus! {

broadcast use vstd::string::group_string_axioms;

/// One range of a url filter: the episodes from `from_episode` in season `from_season` up to
/// `to_episode` in season `to_season`; a missing bound is open.
#[derive(Clone, Copy, Debug, PartialEq, Eq, Structural)]
pub struct InnerUrlFilter {
    pub from_episode: Option<u64>,
    pub to_episode: Option<u64>,
    pub from_season: Option<u32>,
    pub to_season: Option<u32>,
}

/// A url filter: an episode or season is selected if any of the ranges selects it.
#[derive(Debug)]
pub struct UrlFilter {
    pub inner: Vec<InnerUrlFilter>,
}

/// The range without bounds, which selects everything.
pub open spec fn open_range() -> InnerUrlFilter {
    InnerUrlFilter { from_episode: None, to_episode: None, from_season: None, to_season: None }
}

impl Default for UrlFilter {
    /// The filter that selects everything: one range without bounds.
    fn default() -> (r: Self)
        ensures
            r.inner@ == seq![open_range()],
    {
        let mut inner: Vec<InnerUrlFilter> = Vec::new();
        inner.push(InnerUrlFilter { from_episode: None, to_episode: None, from_season: None, to_season: None });
        UrlFilter { inner }
    }
}

/// Whether the range selects season `season`.
pub open spec fn range_has_season(f: InnerUrlFilter, season: u32) -> bool {
    &&& (f.from_season matches Some(a) ==> a <= season)
    &&& (f.to_season matches Some(b) ==> season <= b)
}

/// Whether the range selects the episode numbered `thousandths / 1000` in season `season`. A
/// range runs from its start to its end as `(season, episode)` pairs: an episode bound given with
/// a season holds only in that season (`[S1E4-S3]` is season one from episode four, then all of
/// seasons two and three); an episode bound given without a season holds in every season.
pub open spec fn range_has_episode(f: InnerUrlFilter, thousandths: i64, season: u32) -> bool {
    let from_episode_ok = f.from_episode matches Some(a) ==> a * 1000 <= thousandths;
    let to_episode_ok = f.to_episode matches Some(b) ==> thousandths <= b * 1000;
    &&& match f.from_season {
        Some(a) => a < season || (a == season && from_episode_ok),
        None => from_episode_ok,
    }
    &&& match f.to_season {
        Some(b) => season < b || (season == b && to_episode_ok),
        None => to_episode_ok,
    }
}

impl UrlFilter {
    /// Whether any range selects season `season`.
    pub fn is_season_valid(&self, season: u32) -> (r: bool)
        ensures
            r == exists|i: int| 0 <= i < self.inner@.len() && range_has_season(#[trigger] self.inner@[i], season),
    {
        let mut i: usize = 0;
        while i < self.inner.len()
            invariant
                i <= self.inner@.len(),
                forall|j: int| 0 <= j < i ==> !range_has_season(#[trigger] self.inner@[j], season),
            decreases self.inner@.len() - i,
        {
            let f = self.inner[i];
            let from = match f.from_season { Some(a) => a, None => 0 };
            let to = match f.to_season { Some(b) => b, None => u32::MAX };
            if season >= from && season <= to {
                return true;
            }
            i = i + 1;
        }
        false
    }

    /// Whether any range selects the episode whose (possibly fractional) number is
    /// `thousandths / 1000` in season `season`.
    pub fn is_episode_valid(&self, thousandths: i64, season: u32) -> (r: bool)
        ensures
            r == exists|i: int| 0 <= i < self.inner@.len() && range_has_episode(#[trigger] self.inner@[i], thousandths, season),
    {
        let mut i: usize = 0;
        while i < self.inner.len()
            invariant
                i <= self.inner@.len(),
                forall|j: int| 0 <= j < i ==> !range_has_episode(#[trigger] self.inner@[j], thousandths, season),
            decreases self.inner@.len() - i,
        {
            let f = self.inner[i];
            let ep = thousandths as i128;
            let from_episode_ok = match f.from_episode { Some(a) => (a as i128) * 1000 <= ep, None => true };
            let to_episode_ok = match f.to_episode { Some(b) => ep <= (b as i128) * 1000, None => true };
            let from_ok = match f.from_season {
                Some(a) => a < season || (a == season && from_episode_ok),
                None => from_episode_ok,
            };
            let to_ok = match f.to_season {
                Some(b) => season < b || (season == b && to_episode_ok),
                None => to_episode_ok,
            };
            if from_ok && to_ok {
                return true;
            }
            i = i + 1;
        }
        false
    }
}

// ---------------------------------------------------------------------------------------------
// The filter grammar.
//
// A filter is a list of ranges, each `[S<n>][E<n>][-[S<n>][E<n>]]` followed by `,` or the end of
// the text. The text is scanned from the left for the first position at which a range starts,
// ranges do not overlap, and an empty range at the end of the text directly after another range is
// not counted. Each optional part is taken whenever it is present: skipping a part that is there
// leaves a character (`S`, `E` or `-`) that nothing else in a range may start with, so taking it
// is the only way to complete the range.
// ---------------------------------------------------------------------------------------------

/// Positions of the parts of one range found in a filter (each a range of digit positions).
pub struct FilterCaptures {
    pub from_season: Option<(int, int)>,
    pub from_episode: Option<(int, int)>,
    pub dash: bool,
    pub to_season: Option<(int, int)>,
    pub to_episode: Option<(int, int)>,
}

/// The end of the run of digits that starts at `p`.
pub open spec fn digit_run(s: Seq<char>, p: int) -> int
    decreases s.len() - p,
{
    if 0 <= p < s.len() && is_digit(s[p]) {
        digit_run(s, p + 1)
    } else {
        p
    }
}

/// The digits of a part `x<digits>` starting at `p`, if there is one.
pub open spec fn part_at(s: Seq<char>, p: int, x: char) -> Option<(int, int)> {
    if 0 <= p && p + 1 < s.len() && s[p] == x && is_digit(s[p + 1]) {
        Some((p + 1, digit_run(s, p + 1)))
    } else {
        None
    }
}

/// Where scanning continues after an optional part.
pub open spec fn after(g: Option<(int, int)>, p: int) -> int {
    match g {
        Some(r) => r.1,
        None => p,
    }
}

/// The end of a range that is closed at `p`, by a comma or the end of the text.
pub open spec fn close_at(s: Seq<char>, p: int) -> Option<int> {
    if p == s.len() {
        Some(p)
    } else if 0 <= p < s.len() && s[p] == ',' {
        Some(p + 1)
    } else {
        None
    }
}

/// The range that starts at `p`, with its end, if one does.
pub open spec fn range_at(s: Seq<char>, p: int) -> Option<(int, FilterCaptures)> {
    let fs = part_at(s, p, 'S');
    let p1 = after(fs, p);
    let fe = part_at(s, p1, 'E');
    let p2 = after(fe, p1);
    if 0 <= p2 < s.len() && s[p2] == '-' {
        let ts = part_at(s, p2 + 1, 'S');
        let q1 = after(ts, p2 + 1);
        let te = part_at(s, q1, 'E');
        let q2 = after(te, q1);
        match close_at(s, q2) {
            Some(e) => Some(
                (e, FilterCaptures { from_season: fs, from_episode: fe, dash: true, to_season: ts, to_episode: te }),
            ),
            None => None,
        }
    } else {
        match close_at(s, p2) {
            Some(e) => Some(
                (e, FilterCaptures { from_season: fs, from_episode: fe, dash: false, to_season: None, to_episode: None }),
            ),
            None => None,
        }
    }
}

/// The first range that starts at `p` or later: its start, its end and its parts.
pub open spec fn first_range_from(s: Seq<char>, p: int) -> Option<(int, int, FilterCaptures)>
    decreases s.len() + 1 - p,
{
    if p > s.len() || p < 0 {
        None
    } else {
        match range_at(s, p) {
            Some(m) => Some((p, m.0, m.1)),
            None => first_range_from(s, p + 1),
        }
    }
}

/// The ranges found from position `start` on, given where the previous range ended (`-1` if
/// there was none).
pub open spec fn ranges_from(s: Seq<char>, start: int, last_end: int) -> Seq<FilterCaptures>
    decreases s.len() + 1 - start, (if last_end == start { 0int } else { 1int }),
{
    if start < 0 || start > s.len() {
        Seq::empty()
    } else {
        match first_range_from(s, start) {
            None => Seq::empty(),
            Some(m) => {
                if m.1 == m.0 && m.1 == last_end {
                    Seq::empty()
                } else if m.0 < start || m.1 < m.0 || m.1 > s.len() {
                    Seq::empty()
                } else {
                    seq![m.2] + ranges_from(s, m.1, m.1)
                }
            },
        }
    }
}

/// The largest `u64`, as a bound on episode numbers.
pub open spec fn saturate(v: nat) -> u64 {
    if v > u64::MAX { u64::MAX } else { v as u64 }
}

/// The number written by the digits at `r`.
pub open spec fn value_at(s: Seq<char>, r: (int, int)) -> nat {
    digits_value(s.subrange(r.0, r.1))
}

/// Whether a season number in the range fits a `u32`.
pub open spec fn season_fits(s: Seq<char>, g: Option<(int, int)>) -> bool {
    g matches Some(r) ==> value_at(s, r) <= u32::MAX
}

/// The episode bound of a part.
pub open spec fn episode_bound(s: Seq<char>, g: Option<(int, int)>) -> Option<u64> {
    match g {
        Some(r) => Some(saturate(value_at(s, r))),
        None => None,
    }
}

/// The season bound of a part (which fits a `u32`).
pub open spec fn season_bound(s: Seq<char>, g: Option<(int, int)>) -> Option<u32> {
    match g {
        Some(r) => Some(value_at(s, r) as u32),
        None => None,
    }
}

/// Whether the season numbers of a range fit a `u32`.
pub open spec fn captures_fit(s: Seq<char>, c: FilterCaptures) -> bool {
    season_fits(s, c.from_season) && season_fits(s, c.to_season)
}

/// The range a found range stands for. Without a dash, a missing upper bound is the lower one;
/// with a dash, it stays open.
pub open spec fn range_of(s: Seq<char>, c: FilterCaptures) -> InnerUrlFilter {
    let fe = episode_bound(s, c.from_episode);
    let fs = season_bound(s, c.from_season);
    InnerUrlFilter {
        from_episode: fe,
        to_episode: if c.to_episode is Some { episode_bound(s, c.to_episode) } else if c.dash { None } else { fe },
        from_season: fs,
        to_season: if c.to_season is Some { season_bound(s, c.to_season) } else if c.dash { None } else { fs },
    }
}

/// The ranges of a filter text, or `None` if a season number in it does not fit a `u32`.
pub open spec fn filter_ranges(s: Seq<char>) -> Option<Seq<InnerUrlFilter>> {
    let found = ranges_from(s, 0, -1);
    if forall|i: int| 0 <= i < found.len() ==> captures_fit(s, #[trigger] found[i]) {
        Some(found.map_values(|c: FilterCaptures| range_of(s, c)))
    } else {
        None
    }
}

/// Positions of the parts of one range as found while scanning.
pub struct ExecCaptures {
    pub from_season: Option<(usize, usize)>,
    pub from_episode: Option<(usize, usize)>,
    pub dash: bool,
    pub to_season: Option<(usize, usize)>,
    pub to_episode: Option<(usize, usize)>,
}

/// A part as positions.
pub open spec fn part_view(g: Option<(usize, usize)>) -> Option<(int, int)> {
    match g {
        Some(r) => Some((r.0 as int, r.1 as int)),
        None => None,
    }
}

impl View for ExecCaptures {
    type V = FilterCaptures;

    open spec fn view(&self) -> FilterCaptures {
        FilterCaptures {
            from_season: part_view(self.from_season),
            from_episode: part_view(self.from_episode),
            dash: self.dash,
            to_season: part_view(self.to_season),
            to_episode: part_view(self.to_episode),
        }
    }
}

fn digit_run_exec(s: &Vec<char>, p: usize) -> (r: usize)
    requires
        p <= s@.len(),
    ensures
        r as int == digit_run(s@, p as int),
        p <= r <= s@.len(),
        p < s@.len() && is_digit(s@[p as int]) ==> r > p,
        forall|k: int| p <= k < r ==> is_digit(#[trigger] s@[k]),
    decreases s@.len() - p,
{
    if p < s.len() && '0' <= s[p] && s[p] <= '9' {
        digit_run_exec(s, p + 1)
    } else {
        p
    }
}

fn part_at_exec(s: &Vec<char>, p: usize, x: char) -> (r: Option<(usize, usize)>)
    requires
        p <= s@.len(),
    ensures
        part_view(r) == part_at(s@, p as int, x),
        r matches Some(g) ==> p < g.0 < g.1 <= s@.len() && g.0 == p + 1,
{
    if p < s.len() && p + 1 < s.len() && s[p] == x && '0' <= s[p + 1] && s[p + 1] <= '9' {
        let e = digit_run_exec(s, p + 1);
        Some((p + 1, e))
    } else {
        None
    }
}

fn close_at_exec(s: &Vec<char>, p: usize) -> (r: Option<usize>)
    requires
        p <= s@.len(),
    ensures
        match r {
            Some(e) => close_at(s@, p as int) == Some(e as int) && e <= s@.len(),
            None => close_at(s@, p as int) is None,
        },
{
    if p == s.len() {
        Some(p)
    } else if s[p] == ',' {
        Some(p + 1)
    } else {
        None
    }
}

fn range_at_exec(s: &Vec<char>, p: usize) -> (r: Option<(usize, ExecCaptures)>)
    requires
        p <= s@.len(),
    ensures
        match r {
            Some(m) => range_at(s@, p as int) matches Some(n) && n.0 == m.0 as int && n.1 == m.1@ && p <= m.0 <= s@.len(),
            None => range_at(s@, p as int) is None,
        },
{
    let fs = part_at_exec(s, p, 'S');
    let p1 = match fs { Some(g) => g.1, None => p };
    let fe = part_at_exec(s, p1, 'E');
    let p2 = match fe { Some(g) => g.1, None => p1 };
    if p2 < s.len() && s[p2] == '-' {
        let ts = part_at_exec(s, p2 + 1, 'S');
        let q1 = match ts { Some(g) => g.1, None => p2 + 1 };
        let te = part_at_exec(s, q1, 'E');
        let q2 = match te { Some(g) => g.1, None => q1 };
        match close_at_exec(s, q2) {
            Some(e) => Some((e, ExecCaptures { from_season: fs, from_episode: fe, dash: true, to_season: ts, to_episode: te })),
            None => None,
        }
    } else {
        match close_at_exec(s, p2) {
            Some(e) => Some((e, ExecCaptures { from_season: fs, from_episode: fe, dash: false, to_season: None, to_episode: None })),
            None => None,
        }
    }
}

fn first_range_from_exec(s: &Vec<char>, p: usize) -> (r: Option<(usize, usize, ExecCaptures)>)
    requires
        p <= s@.len(),
    ensures
        match r {
            Some(m) => first_range_from(s@, p as int) matches Some(n) && n.0 == m.0 as int && n.1 == m.1 as int
                && n.2 == m.2@ && p <= m.0 <= m.1 <= s@.len(),
            None => first_range_from(s@, p as int) is None,
        },
    decreases s@.len() - p,
{
    match range_at_exec(s, p) {
        Some(m) => Some((p, m.0, m.1)),
        None => {
            if p == s.len() {
                assert(first_range_from(s@, p + 1) is None);
                None
            } else {
                first_range_from_exec(s, p + 1)
            }
        },
    }
}

proof fn lemma_digits_value_step(s: Seq<char>, a: int, k: int)
    requires
        0 <= a <= k < s.len(),
    ensures
        digits_value(s.subrange(a, k + 1)) == digits_value(s.subrange(a, k)) * 10 + digit_value(s[k]),
{
    assert(s.subrange(a, k + 1).drop_last() =~= s.subrange(a, k));
}

proof fn lemma_digits_value_grows(s: Seq<char>, a: int, k: int, b: int)
    requires
        0 <= a <= k <= b <= s.len(),
    ensures
        digits_value(s.subrange(a, k)) <= digits_value(s.subrange(a, b)),
    decreases b - k,
{
    if k < b {
        lemma_digits_value_grows(s, a, k, b - 1);
        lemma_digits_value_step(s, a, b - 1);
    } else {
        assert(s.subrange(a, k) =~= s.subrange(a, b));
    }
}

/// The number written by the digits `a..b` of `s`, or `None` if it exceeds `max`.
fn digits_value_bounded(s: &Vec<char>, a: usize, b: usize, max: u64) -> (r: Option<u64>)
    requires
        a <= b <= s@.len(),
        all_digits(s@.subrange(a as int, b as int)),
    ensures
        match r {
            Some(v) => v == digits_value(s@.subrange(a as int, b as int)) && v <= max,
            None => digits_value(s@.subrange(a as int, b as int)) > max,
        },
{
    let mut v: u64 = 0;
    let mut k = a;
    assert(s@.subrange(a as int, a as int) =~= Seq::<char>::empty());
    while k < b
        invariant
            a <= k <= b <= s@.len(),
            all_digits(s@.subrange(a as int, b as int)),
            v == digits_value(s@.subrange(a as int, k as int)),
            v <= max,
        decreases b - k,
    {
        assert(is_digit(s@.subrange(a as int, b as int)[k - a]));
        assert(s@[k as int] == s@.subrange(a as int, b as int)[k - a]);
        let d = ((s[k] as u32) - ('0' as u32)) as u64;
        proof {
            lemma_digits_value_step(s@, a as int, k as int);
        }
        let next: u128 = (v as u128) * 10 + (d as u128);
        if next > max as u128 {
            proof {
                lemma_digits_value_grows(s@, a as int, (k + 1) as int, b as int);
            }
            return None;
        }
        v = next as u64;
        k = k + 1;
    }
    Some(v)
}

/// The range a found range stands for, or `None` if a season number does not fit a `u32`.
fn range_of_exec(s: &Vec<char>, c: &ExecCaptures) -> (r: Option<InnerUrlFilter>)
    requires
        captures_well_placed(s@, c@),
    ensures
        match r {
            Some(f) => captures_fit(s@, c@) && f == range_of(s@, c@),
            None => !captures_fit(s@, c@),
        },
{
    let fe: Option<u64> = match c.from_episode {
        Some(g) => match digits_value_bounded(s, g.0, g.1, u64::MAX) {
            Some(v) => Some(v),
            None => Some(u64::MAX),
        },
        None => None,
    };
    let te: Option<u64> = match c.to_episode {
        Some(g) => match digits_value_bounded(s, g.0, g.1, u64::MAX) {
            Some(v) => Some(v),
            None => Some(u64::MAX),
        },
        None => if c.dash { None } else { fe },
    };
    let fs: Option<u32> = match c.from_season {
        Some(g) => match digits_value_bounded(s, g.0, g.1, u32::MAX as u64) {
            Some(v) => Some(v as u32),
            None => { return None; },
        },
        None => None,
    };
    let ts: Option<u32> = match c.to_season {
        Some(g) => match digits_value_bounded(s, g.0, g.1, u32::MAX as u64) {
            Some(v) => Some(v as u32),
            None => { return None; },
        },
        None => if c.dash { None } else { fs },
    };
    Some(InnerUrlFilter { from_episode: fe, to_episode: te, from_season: fs, to_season: ts })
}

/// Whether every part of a found range covers a run of digits inside the text.
pub open spec fn part_well_placed(s: Seq<char>, g: Option<(int, int)>) -> bool {
    g matches Some(r) ==> 0 <= r.0 <= r.1 <= s.len() && all_digits(s.subrange(r.0, r.1))
}

/// Whether every part of a found range covers a run of digits inside the text.
pub open spec fn captures_well_placed(s: Seq<char>, c: FilterCaptures) -> bool {
    &&& part_well_placed(s, c.from_season)
    &&& part_well_placed(s, c.from_episode)
    &&& part_well_placed(s, c.to_season)
    &&& part_well_placed(s, c.to_episode)
}

proof fn lemma_part_well_placed(s: Seq<char>, p: int, x: char)
    requires
        0 <= p <= s.len(),
    ensures
        part_well_placed(s, part_at(s, p, x)),
        after(part_at(s, p, x), p) >= p,
        after(part_at(s, p, x), p) <= s.len(),
{
    if let Some(r) = part_at(s, p, x) {
        lemma_digit_run(s, p + 1);
        assert forall|i: int| 0 <= i < r.1 - r.0 implies is_digit(#[trigger] s.subrange(r.0, r.1)[i]) by {
            assert(s.subrange(r.0, r.1)[i] == s[r.0 + i]);
        }
    }
}

proof fn lemma_digit_run(s: Seq<char>, p: int)
    requires
        0 <= p <= s.len(),
    ensures
        p <= digit_run(s, p) <= s.len(),
        forall|k: int| p <= k < digit_run(s, p) ==> is_digit(#[trigger] s[k]),
    decreases s.len() - p,
{
    if p < s.len() && is_digit(s[p]) {
        lemma_digit_run(s, p + 1);
    }
}

proof fn lemma_range_at_well_placed(s: Seq<char>, p: int)
    requires
        0 <= p <= s.len(),
    ensures
        range_at(s, p) matches Some(m) ==> captures_well_placed(s, m.1) && p <= m.0 <= s.len(),
{
    lemma_part_well_placed(s, p, 'S');
    let p1 = after(part_at(s, p, 'S'), p);
    lemma_part_well_placed(s, p1, 'E');
    let p2 = after(part_at(s, p1, 'E'), p1);
    if 0 <= p2 < s.len() && s[p2] == '-' {
        lemma_part_well_placed(s, p2 + 1, 'S');
        let q1 = after(part_at(s, p2 + 1, 'S'), p2 + 1);
        lemma_part_well_placed(s, q1, 'E');
    }
}

proof fn lemma_first_range_well_placed(s: Seq<char>, p: int)
    requires
        0 <= p <= s.len(),
    ensures
        first_range_from(s, p) matches Some(m) ==> captures_well_placed(s, m.2) && p <= m.0 <= m.1 <= s.len(),
    decreases s.len() + 1 - p,
{
    lemma_range_at_well_placed(s, p);
    if range_at(s, p) is None && p < s.len() {
        lemma_first_range_well_placed(s, p + 1);
    }
}

/// The error of a url filter whose season number does not fit.
#[derive(Clone, Copy, Debug, PartialEq, Eq, Structural)]
pub enum FilterError {
    /// A season number is too large.
    SeasonTooLarge,
}

impl FilterError {
    /// The message of the error.
    pub fn message(&self) -> (r: String)
        ensures
            r@ == "number too large to fit in target type"@,
    {
        String::from_str("number too large to fit in target type")
    }
}

/// Reads the ranges of a filter text (the part between `[` and `]` of a url). A season number
/// that does not fit a `u32` is an error; an episode number too large for a `u64` is read as the
/// largest `u64`.
pub fn parse_filter(filter: &str) -> (r: Result<UrlFilter, FilterError>)
    ensures
        match filter_ranges(filter@) {
            Some(ranges) => r matches Ok(f) && f.inner@ == ranges,
            None => r == Err::<UrlFilter, FilterError>(FilterError::SeasonTooLarge),
        },
{
    let s = chars_of(filter);
    let mut out: Vec<InnerUrlFilter> = Vec::new();
    let mut start: usize = 0;
    let mut last_end: Option<usize> = None;
    let ghost found = ranges_from(s@, 0, -1);
    let ghost mut done: Seq<FilterCaptures> = Seq::empty();
    loop
        invariant
            start <= s@.len(),
            s@ == filter@,
            found == ranges_from(s@, 0, -1),
            found == done + ranges_from(s@, start as int, match last_end { Some(e) => e as int, None => -1 }),
            last_end matches Some(e) ==> e == start,
            last_end is None ==> start == 0,
            out@.len() == done.len(),
            forall|i: int| 0 <= i < done.len() ==> captures_fit(s@, #[trigger] done[i]) && out@[i] == range_of(s@, done[i]),
        decreases s@.len() + 1 - start, (if last_end == Some(start) { 0int } else { 1int }),
    {
        let le: Ghost<int> = Ghost(match last_end { Some(e) => e as int, None => -1 });
        match first_range_from_exec(&s, start) {
            None => {
                assert(ranges_from(s@, start as int, le@) =~= Seq::<FilterCaptures>::empty());
                assert(found =~= done);
                assert(forall|i: int| 0 <= i < found.len() ==> captures_fit(s@, #[trigger] found[i]));
                assert(out@ =~= found.map_values(|c: FilterCaptures| range_of(s@, c)));
                return Ok(UrlFilter { inner: out });
            },
            Some(m) => {
                let (p, e, caps) = m;
                let empty_again = match last_end { Some(le2) => e == p && e == le2, None => false };
                if empty_again {
                    assert(ranges_from(s@, start as int, le@) =~= Seq::<FilterCaptures>::empty());
                    assert(found =~= done);
                    assert(out@ =~= found.map_values(|c: FilterCaptures| range_of(s@, c)));
                    return Ok(UrlFilter { inner: out });
                }
                proof {
                    lemma_first_range_well_placed(s@, start as int);
                    assert(ranges_from(s@, start as int, le@) == seq![caps@] + ranges_from(s@, e as int, e as int));
                }
                match range_of_exec(&s, &caps) {
                    Some(f) => {
                        out.push(f);
                        proof {
                            done = done.push(caps@);
                            assert(found =~= done + ranges_from(s@, e as int, e as int));
                        }
                        start = e;
                        last_end = Some(e);
                    },
                    None => {
                        proof {
                            let k = done.len() as int;
                            assert(found[k] == caps@);
                            assert(!captures_fit(s@, found[k]));
                        }
                        return Err(FilterError::SeasonTooLarge);
                    },
                }
            },
        }
    }
}

// ---------------------------------------------------------------------------------------------
// Urls.
// ---------------------------------------------------------------------------------------------

/// The last position of `c` in `s` before position `end`, if any.
pub open spec fn last_index_before(s: Seq<char>, c: char, end: int) -> Option<int>
    decreases end,
{
    if end <= 0 {
        None
    } else if s[end - 1] == c {
        Some(end - 1)
    } else {
        last_index_before(s, c, end - 1)
    }
}

/// The last position of `c` in `s`, if any.
pub open spec fn last_index_of(s: Seq<char>, c: char) -> Option<int> {
    last_index_before(s, c, s.len() as int)
}

/// A url and its filter: the filter is the text between the last `[` and the last `]` when the
/// `[` comes first, and the url is what precedes that `[`; otherwise the url is unchanged and the
/// filter empty.
pub open spec fn split_url(s: Seq<char>) -> (Seq<char>, Seq<char>) {
    let open = match last_index_of(s, '[') { Some(i) => i, None => 0 };
    let close = match last_index_of(s, ']') { Some(i) => i, None => 0 };
    if open < close {
        (s.subrange(0, open), s.subrange(open + 1, close))
    } else {
        (s, Seq::empty())
    }
}

proof fn lemma_last_index_absent(s: Seq<char>, c: char, end: int)
    requires
        !s.contains(c),
        end <= s.len(),
    ensures
        last_index_before(s, c, end) is None,
    decreases end,
{
    if end > 0 {
        assert(s[end - 1] != c) by {
            if s[end - 1] == c {
                assert(s.contains(c));
            }
        }
        lemma_last_index_absent(s, c, end - 1);
    }
}

proof fn lemma_last_index_in_range(s: Seq<char>, c: char, end: int)
    ensures
        last_index_before(s, c, end) matches Some(i) ==> 0 <= i < end,
    decreases end,
{
    if end > 0 {
        lemma_last_index_in_range(s, c, end - 1);
    }
}

/// A url without `]` carries no filter: it stays as it is, and its (empty) filter text reads as
/// the one range without bounds, which selects every season and every episode.
pub proof fn lemma_url_without_filter_selects_all(url: Seq<char>, season: u32, thousandths: i64)
    requires
        !url.contains(']'),
    ensures
        split_url(url) == (url, Seq::<char>::empty()),
        filter_ranges(Seq::<char>::empty()) == Some(seq![open_range()]),
        range_has_season(open_range(), season),
        range_has_episode(open_range(), thousandths, season),
{
    lemma_last_index_absent(url, ']', url.len() as int);
    lemma_last_index_in_range(url, '[', url.len() as int);
    let e = Seq::<char>::empty();
    let caps = FilterCaptures { from_season: None, from_episode: None, dash: false, to_season: None, to_episode: None };
    assert(range_at(e, 0) == Some((0int, caps)));
    assert(first_range_from(e, 0) == Some((0int, 0int, caps)));
    assert(ranges_from(e, 0, 0) =~= Seq::<FilterCaptures>::empty());
    assert(ranges_from(e, 0, -1) =~= seq![caps]);
    assert(range_of(e, caps) == open_range());
    assert(seq![caps].map_values(|c: FilterCaptures| range_of(e, c)) =~= seq![open_range()]);
}

fn last_index_exec(s: &Vec<char>, c: char) -> (r: Option<usize>)
    ensures
        match r {
            Some(i) => last_index_of(s@, c) == Some(i as int) && i < s@.len(),
            None => last_index_of(s@, c) is None,
        },
{
    let mut end = s.len();
    while end > 0
        invariant
            end <= s@.len(),
            last_index_of(s@, c) == last_index_before(s@, c, end as int),
        decreases end,
    {
        if s[end - 1] == c {
            return Some(end - 1);
        }
        end = end - 1;
    }
    None
}

/// Splits a url into the url proper and its filter text (see [`split_url`]).
pub fn split_url_filter(url: &str) -> (r: (String, String))
    ensures
        (r.0@, r.1@) == split_url(url@),
{
    let s = chars_of(url);
    let open = match last_index_exec(&s, '[') { Some(i) => i, None => 0 };
    let close = match last_index_exec(&s, ']') { Some(i) => i, None => 0 };
    if open < close {
        (string_from(&slice_vec(&s, 0, open)), string_from(&slice_vec(&s, open + 1, close)))
    } else {
        (String::from_str(url), String::new())
    }
}

/// The url proper and the filter of a url. With `with_filter` false, the url is taken as it is and
/// the filter selects everything.
pub fn url_filter_of(url: &str, with_filter: bool) -> (r: Result<(String, UrlFilter), FilterError>)
    ensures
        !with_filter ==> (r matches Ok(v) && v.0@ == url@ && v.1.inner@ == seq![open_range()]),
        with_filter ==> match filter_ranges(split_url(url@).1) {
            Some(ranges) => r matches Ok(v) && v.0@ == split_url(url@).0 && v.1.inner@ == ranges,
            None => r == Err::<(String, UrlFilter), FilterError>(FilterError::SeasonTooLarge),
        },
{
    if with_filter {
        let (u, f) = split_url_filter(url);
        match parse_filter(f.as_str()) {
            Ok(filter) => Ok((u, filter)),
            Err(e) => Err(e),
        }
    } else {
        Ok((String::from_str(url), UrlFilter::default()))
    }
}

/// Whether a url of the old scheme (`http[s]://[www.]crunchyroll.com/` followed by at least one
/// character other than a line feed) starts at position `p`.
pub open spec fn old_url_at(s: Seq<char>, p: int) -> bool {
    occurs_at(s, "http"@, p) && {
        let q = if p + 4 < s.len() && s[p + 4] == 's' { p + 5 } else { p + 4 };
        occurs_at(s, "://"@, q) && {
            let r = if occurs_at(s, "www."@, q + 3) { q + 7 } else { q + 3 };
            occurs_at(s, "crunchyroll.com/"@, r) && r + 16 < s.len() && s[r + 16] != '\n'
        }
    }
}

/// Whether `s` contains a url of the old scheme.
pub open spec fn is_old_url(s: Seq<char>) -> bool {
    exists|p: int| 0 <= p <= s.len() && old_url_at(s, p)
}

/// What an old-scheme url is requested as: its `http` prefix becomes `https`.
pub open spec fn secure_url(s: Seq<char>) -> Seq<char> {
    if starts_with(s, "http://"@) {
        "https"@ + s.subrange(4, s.len() as int)
    } else {
        s
    }
}

fn old_url_at_exec(s: &Vec<char>, p: usize) -> (r: bool)
    requires
        p <= s@.len(),
    ensures
        r == old_url_at(s@, p as int),
{
    proof {
        reveal_strlit("http");
        reveal_strlit("://");
        reveal_strlit("www.");
        reveal_strlit("crunchyroll.com/");
        assert("http"@.len() == 4);
        assert("://"@.len() == 3);
        assert("www."@.len() == 4);
        assert("crunchyroll.com/"@.len() == 16);
    }
    let http = chars_of("http");
    if !occurs_at_exec(s, &http, p) {
        return false;
    }
    let n = s.len();
    assert(p + 4 <= n);
    let q = if p + 4 < s.len() && s[p + 4] == 's' { p + 5 } else { p + 4 };
    let sep = chars_of("://");
    if !occurs_at_exec(s, &sep, q) {
        return false;
    }
    let www = chars_of("www.");
    let r = if occurs_at_exec(s, &www, q + 3) { q + 7 } else { q + 3 };
    let host = chars_of("crunchyroll.com/");
    if !occurs_at_exec(s, &host, r) {
        return false;
    }
    proof {
        reveal_strlit("crunchyroll.com/");
    }
    r + 16 < s.len() && s[r + 16] != '\n'
}

/// For a url of the old scheme, the url to request in its place (see [`secure_url`]); `None` for
/// any other url.
pub fn old_url_request(url: &str) -> (r: Option<String>)
    ensures
        is_old_url(url@) ==> (r matches Some(u) && u@ == secure_url(url@)),
        !is_old_url(url@) ==> r is None,
{
    proof {
        reveal_strlit("http");
        reveal_strlit("://");
        reveal_strlit("www.");
        reveal_strlit("crunchyroll.com/");
    }
    let s = chars_of(url);
    let mut p: usize = 0;
    while p < s.len()
        invariant
            p <= s@.len(),
            s@ == url@,
            forall|k: int| 0 <= k < p ==> !old_url_at(s@, k),
        decreases s@.len() - p,
    {
        if old_url_at_exec(&s, p) {
            return Some(secure_url_exec(&s, url));
        }
        p = p + 1;
    }
    assert(!is_old_url(url@)) by {
        assert forall|k: int| 0 <= k <= s@.len() implies !old_url_at(s@, k) by {
            if k == s@.len() {
                assert(!occurs_at(s@, "http"@, k));
            }
        }
    }
    None
}

fn secure_url_exec(s: &Vec<char>, url: &str) -> (r: String)
    requires
        s@ == url@,
    ensures
        r@ == secure_url(url@),
{
    proof {
        reveal_strlit("http://");
        reveal_strlit("https");
    }
    let prefix = chars_of("http://");
    if occurs_at_exec(s, &prefix, 0) {
        let mut u = String::from_str("https");
        let rest = string_from(&slice_vec(s, 4, s.len()));
        u.append(rest.as_str());
        u
    } else {
        String::from_str(url)
    }
}

/// An old-scheme url is requested over https: where the text starts with such a url, it is
/// detected as one and the url requested in its place starts with `https://`; an `http://`
/// prefix becomes `https://` with the rest of the url kept, and any other text is requested as it
/// is.
pub proof fn lemma_old_url_requested_over_https(s: Seq<char>)
    ensures
        old_url_at(s, 0) ==> is_old_url(s) && starts_with(secure_url(s), "https://"@),
        starts_with(s, "http://"@) ==> secure_url(s) == "https://"@ + s.subrange(7, s.len() as int),
        !starts_with(s, "http://"@) ==> secure_url(s) == s,
{
    reveal_strlit("http://");
    reveal_strlit("https://");
    reveal_strlit("https");
    reveal_strlit("http");
    reveal_strlit("://");
    assert("http://"@ =~= seq!['h', 't', 't', 'p', ':', '/', '/']);
    assert("https://"@ =~= seq!['h', 't', 't', 'p', 's', ':', '/', '/']);
    assert("https"@ =~= seq!['h', 't', 't', 'p', 's']);
    assert("http"@ =~= seq!['h', 't', 't', 'p']);
    assert("://"@ =~= seq![':', '/', '/']);
    if starts_with(s, "http://"@) {
        let u = secure_url(s);
        assert(s.subrange(0, 7)[4] == ':');
        assert(u =~= "https://"@ + s.subrange(7, s.len() as int));
        assert(u.subrange(0, 8) =~= "https://"@);
    }
    if old_url_at(s, 0) {
        assert(0 <= s.len());
    }
    if !starts_with(s, "http://"@) && old_url_at(s, 0) {
        assert(occurs_at(s, "http"@, 0));
        assert(s.subrange(0, 4)[0] == 'h');
        if 4 < s.len() && s[4] == 's' {
            assert(s.subrange(5, 8) =~= "://"@);
            assert(s.subrange(0, 8) =~= "https://"@) by {
                assert(s.subrange(0, 4) =~= "http"@);
            }
        } else {
            assert(s.subrange(4, 7) =~= "://"@);
            assert(s.subrange(0, 7) =~= "http://"@) by {
                assert(s.subrange(0, 4) =~= "http"@);
            }
        }
    }
}

// ---------------------------------------------------------------------------------------------
// Resolutions.
// ---------------------------------------------------------------------------------------------

/// A video resolution in pixels.
#[derive(Clone, Copy, Debug, PartialEq, Eq, Structural)]
pub struct Resolution {
    pub width: u64,
    pub height: u64,
}

/// The number a text reads as when parsed as an unsigned integer: an optional `+` and at least
/// one ASCII digit, whose value is at most `max`.
pub open spec fn parse_uint(s: Seq<char>, max: nat) -> Option<nat> {
    let d = if s.len() > 0 && s[0] == '+' { s.drop_first() } else { s };
    if d.len() > 0 && all_digits(d) && digits_value(d) <= max {
        Some(digits_value(d))
    } else {
        None
    }
}

/// The first position of `c` in `s` from position `p` on, if any.
pub open spec fn first_index_from(s: Seq<char>, c: char, p: int) -> Option<int>
    decreases s.len() - p,
{
    if p < 0 || p >= s.len() {
        None
    } else if s[p] == c {
        Some(p)
    } else {
        first_index_from(s, c, p + 1)
    }
}

/// The width of a `<height>p` resolution: sixteen ninths of the height, the product wrapping
/// around at 2^64.
pub open spec fn width_for_height(h: nat) -> u64 {
    (((h * 16) % 0x1_0000_0000_0000_0000) / 9) as u64
}

/// The resolution a text names, case-insensitively: `best` (the largest), `worst` (zero),
/// `<height>p`, or `<width>x<height>` split at the first `x`.
pub open spec fn resolution_of(s: Seq<char>) -> Option<Resolution> {
    let l = lower(s);
    if l == "best"@ {
        Some(Resolution { width: u64::MAX, height: u64::MAX })
    } else if l == "worst"@ {
        Some(Resolution { width: 0, height: 0 })
    } else if l.len() > 0 && l.last() == 'p' {
        match parse_uint(l.drop_last(), u64::MAX as nat) {
            Some(h) => Some(Resolution { width: width_for_height(h), height: h as u64 }),
            None => None,
        }
    } else {
        match first_index_from(l, 'x', 0) {
            Some(i) => match (parse_uint(l.subrange(0, i), u64::MAX as nat), parse_uint(l.subrange(i + 1, l.len() as int), u64::MAX as nat)) {
                (Some(w), Some(h)) => Some(Resolution { width: w as u64, height: h as u64 }),
                _ => None,
            },
            None => None,
        }
    }
}

/// The error of a text that names no resolution.
#[derive(Clone, Copy, Debug, PartialEq, Eq, Structural)]
pub enum ResolutionError {
    NotFound,
}

impl ResolutionError {
    /// The message of the error.
    pub fn message(&self) -> (r: String)
        ensures
            r@ == "Could not find resolution"@,
    {
        String::from_str("Could not find resolution")
    }
}

/// Parses characters `a..b` of `v` as an unsigned integer at most `max` (see [`parse_uint`]).
pub fn parse_uint_exec(v: &Vec<char>, a: usize, b: usize, max: u64) -> (r: Option<u64>)
    requires
        a <= b <= v@.len(),
    ensures
        match r {
            Some(n) => parse_uint(v@.subrange(a as int, b as int), max as nat) == Some(n as nat),
            None => parse_uint(v@.subrange(a as int, b as int), max as nat) is None,
        },
{
    let ghost s = v@.subrange(a as int, b as int);
    let start = if a < b && v[a] == '+' { a + 1 } else { a };
    let ghost d = if s.len() > 0 && s[0] == '+' { s.drop_first() } else { s };
    assert(v@.subrange(start as int, b as int) =~= d);
    if start == b {
        assert(d.len() == 0);
        return None;
    }
    let mut k = start;
    while k < b
        invariant
            start <= k <= b <= v@.len(),
            s == v@.subrange(a as int, b as int),
            d == (if s.len() > 0 && s[0] == '+' { s.drop_first() } else { s }),
            v@.subrange(start as int, b as int) == d,
            forall|j: int| start <= j < k ==> is_digit(#[trigger] v@[j]),
        decreases b - k,
    {
        if !('0' <= v[k] && v[k] <= '9') {
            assert(!is_digit(v@.subrange(start as int, b as int)[k - start]));
            return None;
        }
        k = k + 1;
    }
    assert(all_digits(v@.subrange(start as int, b as int))) by {
        assert forall|i: int| 0 <= i < b - start implies is_digit(#[trigger] v@.subrange(start as int, b as int)[i]) by {
            assert(v@.subrange(start as int, b as int)[i] == v@[start + i]);
        }
    }
    digits_value_bounded(v, start, b, max)
}

/// Reads a resolution (see [`resolution_of`]).
pub fn parse_resolution(resolution: &str) -> (r: Result<Resolution, ResolutionError>)
    ensures
        match resolution_of(resolution@) {
            Some(res) => r == Ok::<Resolution, ResolutionError>(res),
            None => r == Err::<Resolution, ResolutionError>(ResolutionError::NotFound),
        },
{
    let l = lower_vec(&chars_of(resolution));
    if vec_eq_str(&l, "best") {
        return Ok(Resolution { width: u64::MAX, height: u64::MAX });
    }
    if vec_eq_str(&l, "worst") {
        return Ok(Resolution { width: 0, height: 0 });
    }
    if l.len() > 0 && l[l.len() - 1] == 'p' {
        assert(l@.subrange(0, l@.len() - 1) =~= l@.drop_last());
        return match parse_uint_exec(&l, 0, l.len() - 1, u64::MAX) {
            Some(h) => {
                let w = h.wrapping_mul(16) / 9;
                assert(w == width_for_height(h as nat)) by {
                    assert(h.wrapping_mul(16) == ((h * 16) % 0x1_0000_0000_0000_0000) as u64);
                }
                Ok(Resolution { width: w, height: h })
            },
            None => Err(ResolutionError::NotFound),
        };
    }
    let mut i: usize = 0;
    while i < l.len()
        invariant
            i <= l@.len(),
            first_index_from(l@, 'x', 0) == first_index_from(l@, 'x', i as int),
            l@ == lower(resolution@),
            l@ != "best"@,
            l@ != "worst"@,
            !(l@.len() > 0 && l@.last() == 'p'),
        decreases l@.len() - i,
    {
        if l[i] == 'x' {
            assert(first_index_from(l@, 'x', 0) == Some(i as int));
            let w = parse_uint_exec(&l, 0, i, u64::MAX);
            let h = parse_uint_exec(&l, i + 1, l.len(), u64::MAX);
            return match (w, h) {
                (Some(w), Some(h)) => Ok(Resolution { width: w, height: h }),
                _ => Err(ResolutionError::NotFound),
            };
        }
        i = i + 1;
    }
    Err(ResolutionError::NotFound)
}

} // verus!
