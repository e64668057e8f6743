//! The output template of the `search` command (`{{scope.field}}` placeholders) and the filters
//! of its results.
use vstd::prelude::*;
use crate::text::{chars_of, string_from, slice_vec, is_space, is_whitespace, vec_eq_str};
use crate::ffmpeg::{is_word, is_word_character};
use crate::locale::{Locale, LocaleView, views, contains_locale};
use crate::parse::UrlFilter;

verus! {

broadcast use vstd::string::group_string_axioms;

/// What a placeholder of the template refers to.
#[derive(Clone, Copy, Debug, PartialEq, Eq, Structural)]
pub enum Scope {
    Series,
    Season,
    Episode,
    MovieListing,
    Movie,
    MusicVideo,
    Concert,
    Stream,
    Subtitle,
}

/// The scope a name in a placeholder stands for.
pub open spec fn scope_named(name: Seq<char>) -> Option<Scope> {
    if name == "series"@ {
        Some(Scope::Series)
    } else if name == "season"@ {
        Some(Scope::Season)
    } else if name == "episode"@ {
        Some(Scope::Episode)
    } else if name == "movie_listing"@ {
        Some(Scope::MovieListing)
    } else if name == "movie"@ {
        Some(Scope::Movie)
    } else if name == "music_video"@ {
        Some(Scope::MusicVideo)
    } else if name == "concert"@ {
        Some(Scope::Concert)
    } else if name == "stream"@ {
        Some(Scope::Stream)
    } else if name == "subtitle"@ {
        Some(Scope::Subtitle)
    } else {
        None
    }
}

/// Whether a scope has the field `field`, as the output keywords are documented: every media
/// item has an id, a title and a description; series a release year; seasons a number and an
/// episode count; episodes a locale, a number, a sequence number, a duration, an air date and
/// whether they are premium only; movies, music videos and concerts a duration and whether they
/// are premium only; streams a locale and the URLs of their DASH and HLS variants; subtitles a
/// locale and a URL.
pub open spec fn has_field(scope: Scope, field: Seq<char>) -> bool {
    let media = field == "id"@ || field == "title"@ || field == "description"@;
    let timed = field == "duration"@ || field == "premium_only"@;
    match scope {
        Scope::Stream => field == "locale"@ || field == "dash_url"@ || field == "hls_url"@,
        Scope::Subtitle => field == "locale"@ || field == "url"@,
        Scope::Series => media || field == "release_year"@,
        Scope::Season => media || field == "number"@ || field == "episodes"@,
        Scope::Episode => media || timed || field == "locale"@ || field == "number"@ || field == "sequence_number"@
            || field == "air_date"@,
        Scope::MovieListing => media,
        Scope::Movie | Scope::MusicVideo | Scope::Concert => media || timed,
    }
}

/// The first position from `p` on that does not hold white space.
pub open spec fn space_end(s: Seq<char>, p: int) -> int
    decreases s.len() - p,
{
    if p >= 0 && p < s.len() && is_space(s[p]) {
        space_end(s, p + 1)
    } else {
        p
    }
}

/// The first position from `p` on that does not hold a word character.
pub open spec fn word_end(s: Seq<char>, p: int) -> int
    decreases s.len() - p,
{
    if p >= 0 && p < s.len() && is_word(s[p]) {
        word_end(s, p + 1)
    } else {
        p
    }
}

/// A placeholder found in a template: where it starts and ends, and where its scope and field
/// names are.
pub struct Tag {
    pub start: int,
    pub end: int,
    pub scope: (int, int),
    pub field: (int, int),
}

/// The placeholder `{{ scope.field }}` that starts at `p`, if one does (white space is allowed
/// inside the braces, around the dotted name).
pub open spec fn tag_at(s: Seq<char>, p: int) -> Option<Tag> {
    if 0 <= p && p + 1 < s.len() && s[p] == '{' && s[p + 1] == '{' {
        let a = space_end(s, p + 2);
        let b = word_end(s, a);
        if b > a && b < s.len() && s[b] == '.' {
            let d = word_end(s, b + 1);
            let e = space_end(s, d);
            if d > b + 1 && e + 1 < s.len() && s[e] == '}' && s[e + 1] == '}' {
                Some(Tag { start: p, end: e + 2, scope: (a, b), field: (b + 1, d) })
            } else {
                None
            }
        } else {
            None
        }
    } else {
        None
    }
}

/// The placeholders of `s` from position `p` on, each searched for after the previous one (as a
/// regular expression finds them).
pub open spec fn tags_from(s: Seq<char>, p: int) -> Seq<Tag>
    decreases s.len() - p,
{
    if p < 0 || p >= s.len() {
        Seq::empty()
    } else {
        match tag_at(s, p) {
            Some(t) => if t.end > p {
                seq![t] + tags_from(s, t.end)
            } else {
                Seq::empty()
            },
            None => tags_from(s, p + 1),
        }
    }
}

/// A placeholder of a parsed template: where it stands (in characters) and what it refers to.
pub struct Pattern {
    pub start: usize,
    pub end: usize,
    pub scope: Scope,
    pub field: String,
}

/// A parsed output template.
pub struct Format {
    pub pattern: Vec<Pattern>,
    pub input: String,
    /// Which results are shown.
    pub filter_options: FilterOptions,
}

/// The first placeholder (from the `k`-th on) whose scope or field is unknown.
pub open spec fn first_invalid(s: Seq<char>, tags: Seq<Tag>, k: int) -> Option<int>
    decreases tags.len() - k,
{
    if k < 0 || k >= tags.len() {
        None
    } else {
        let t = tags[k];
        let scope = s.subrange(t.scope.0, t.scope.1);
        let field = s.subrange(t.field.0, t.field.1);
        if scope_named(scope) is None || !has_field(scope_named(scope)->0, field) {
            Some(k)
        } else {
            first_invalid(s, tags, k + 1)
        }
    }
}

/// The error for an unknown placeholder: `'<scope>.<field>' is not a valid keyword`.
pub open spec fn keyword_error(s: Seq<char>, t: Tag) -> Seq<char> {
    "'"@ + s.subrange(t.scope.0, t.scope.1) + "."@ + s.subrange(t.field.0, t.field.1) + "' is not a valid keyword"@
}

/// Whether `p` is the parsed form of the placeholder `t` of `s`.
pub open spec fn pattern_of(s: Seq<char>, t: Tag, p: Pattern) -> bool {
    &&& p.start == t.start
    &&& p.end == t.end
    &&& Some(p.scope) == scope_named(s.subrange(t.scope.0, t.scope.1))
    &&& p.field@ == s.subrange(t.field.0, t.field.1)
}

proof fn lemma_space_end_bounds(s: Seq<char>, p: int)
    requires
        0 <= p,
    ensures
        p <= space_end(s, p),
        p <= s.len() ==> space_end(s, p) <= s.len(),
        forall|i: int| p <= i < space_end(s, p) ==> is_space(#[trigger] s[i]),
        space_end(s, p) < s.len() ==> !is_space(s[space_end(s, p)]),
    decreases s.len() - p,
{
    if p < s.len() && is_space(s[p]) {
        lemma_space_end_bounds(s, p + 1);
    }
}

proof fn lemma_word_end_bounds(s: Seq<char>, p: int)
    requires
        0 <= p,
    ensures
        p <= word_end(s, p),
        p <= s.len() ==> word_end(s, p) <= s.len(),
        forall|i: int| p <= i < word_end(s, p) ==> is_word(#[trigger] s[i]),
        word_end(s, p) < s.len() ==> !is_word(s[word_end(s, p)]),
    decreases s.len() - p,
{
    if p < s.len() && is_word(s[p]) {
        lemma_word_end_bounds(s, p + 1);
    }
}

fn space_end_exec(s: &Vec<char>, p: usize) -> (r: usize)
    requires
        p <= s@.len(),
    ensures
        r == space_end(s@, p as int),
        p <= r <= s@.len(),
{
    let mut i = p;
    while i < s.len() && is_whitespace(s[i])
        invariant
            p <= i <= s@.len(),
            space_end(s@, p as int) == space_end(s@, i as int),
        decreases s@.len() - i,
    {
        i = i + 1;
    }
    i
}

fn word_end_exec(s: &Vec<char>, p: usize) -> (r: usize)
    requires
        p <= s@.len(),
    ensures
        r == word_end(s@, p as int),
        p <= r <= s@.len(),
{
    let mut i = p;
    while i < s.len() && is_word_character(s[i])
        invariant
            p <= i <= s@.len(),
            word_end(s@, p as int) == word_end(s@, i as int),
        decreases s@.len() - i,
    {
        i = i + 1;
    }
    i
}

/// The placeholder at `p` as exec positions: `(end, scope start, scope end, field start, field end)`.
fn tag_at_exec(s: &Vec<char>, p: usize) -> (r: Option<(usize, usize, usize, usize, usize)>)
    requires
        p < s@.len(),
    ensures
        match r {
            Some((e, a, b, c, d)) => tag_at(s@, p as int) == Some(
                Tag { start: p as int, end: e as int, scope: (a as int, b as int), field: (c as int, d as int) },
            ) && p < e <= s@.len() && a <= b <= s@.len() && c <= d <= s@.len(),
            None => tag_at(s@, p as int) is None,
        },
{
    if !(s.len() - p > 1 && s[p] == '{' && s[p + 1] == '{') {
        return None;
    }
    let a = space_end_exec(s, p + 2);
    let b = word_end_exec(s, a);
    if !(b > a && b < s.len() && s[b] == '.') {
        return None;
    }
    let d = word_end_exec(s, b + 1);
    let e = space_end_exec(s, d);
    if !(d > b + 1 && e < s.len() && s.len() - e > 1 && s[e] == '}' && s[e + 1] == '}') {
        return None;
    }
    Some((e + 2, a, b, b + 1, d))
}

fn scope_named_exec(name: &Vec<char>) -> (r: Option<Scope>)
    ensures
        r == scope_named(name@),
{
    if vec_eq_str(name, "series") {
        Some(Scope::Series)
    } else if vec_eq_str(name, "season") {
        Some(Scope::Season)
    } else if vec_eq_str(name, "episode") {
        Some(Scope::Episode)
    } else if vec_eq_str(name, "movie_listing") {
        Some(Scope::MovieListing)
    } else if vec_eq_str(name, "movie") {
        Some(Scope::Movie)
    } else if vec_eq_str(name, "music_video") {
        Some(Scope::MusicVideo)
    } else if vec_eq_str(name, "concert") {
        Some(Scope::Concert)
    } else if vec_eq_str(name, "stream") {
        Some(Scope::Stream)
    } else if vec_eq_str(name, "subtitle") {
        Some(Scope::Subtitle)
    } else {
        None
    }
}

fn has_field_exec(scope: Scope, field: &Vec<char>) -> (r: bool)
    ensures
        r == has_field(scope, field@),
{
    let media = vec_eq_str(field, "id") || vec_eq_str(field, "title") || vec_eq_str(field, "description");
    let timed = vec_eq_str(field, "duration") || vec_eq_str(field, "premium_only");
    match scope {
        Scope::Stream => vec_eq_str(field, "locale") || vec_eq_str(field, "dash_url") || vec_eq_str(field, "hls_url"),
        Scope::Subtitle => vec_eq_str(field, "locale") || vec_eq_str(field, "url"),
        Scope::Series => media || vec_eq_str(field, "release_year"),
        Scope::Season => media || vec_eq_str(field, "number") || vec_eq_str(field, "episodes"),
        Scope::Episode => media || timed || vec_eq_str(field, "locale") || vec_eq_str(field, "number") || vec_eq_str(
            field,
            "sequence_number",
        ) || vec_eq_str(field, "air_date"),
        Scope::MovieListing => media,
        Scope::Movie | Scope::MusicVideo | Scope::Concert => media || timed,
    }
}

/// The placeholders of a template: start and the other positions (see [`tags_from`]).
fn find_tags(s: &Vec<char>) -> (r: Vec<(usize, usize, usize, usize, usize, usize)>)
    ensures
        r@.len() == tags_from(s@, 0).len(),
        forall|i: int| 0 <= i < r@.len() ==> {
            let t = tags_from(s@, 0)[i];
            let x = #[trigger] r@[i];
            &&& t.start == x.0 && t.end == x.1 && t.scope == (x.2 as int, x.3 as int) && t.field == (x.4 as int, x.5 as int)
            &&& x.2 <= x.3 <= s@.len() && x.4 <= x.5 <= s@.len()
        },
{
    let mut r: Vec<(usize, usize, usize, usize, usize, usize)> = Vec::new();
    let mut p: usize = 0;
    let ghost mut seen: Seq<Tag> = Seq::empty();
    while p < s.len()
        invariant
            p <= s@.len(),
            tags_from(s@, 0) == seen + tags_from(s@, p as int),
            r@.len() == seen.len(),
            forall|i: int| 0 <= i < r@.len() ==> {
                let t = seen[i];
                let x = #[trigger] r@[i];
                &&& t.start == x.0 && t.end == x.1 && t.scope == (x.2 as int, x.3 as int) && t.field == (x.4 as int, x.5 as int)
                &&& x.2 <= x.3 <= s@.len() && x.4 <= x.5 <= s@.len()
            },
        decreases s@.len() - p,
    {
        match tag_at_exec(s, p) {
            Some((e, a, b, c, d)) => {
                let ghost t = Tag { start: p as int, end: e as int, scope: (a as int, b as int), field: (c as int, d as int) };
                assert(tags_from(s@, p as int) == seq![t] + tags_from(s@, e as int));
                r.push((p, e, a, b, c, d));
                proof {
                    assert(seen + tags_from(s@, p as int) =~= seen.push(t) + tags_from(s@, e as int));
                    seen = seen.push(t);
                }
                p = e;
            },
            None => {
                p = p + 1;
            },
        }
    }
    assert(seen =~= seen + tags_from(s@, p as int));
    r
}

impl Format {
    /// Parses an output template: every `{{scope.field}}` placeholder must name a known scope
    /// and one of its fields (see [`has_field`]); the first one that does not is reported. The
    /// format keeps `filter_options`, which decide the results it shows.
    pub fn new(input: String, filter_options: FilterOptions) -> (r: Result<Format, String>)
        ensures
            ({
                let tags = tags_from(input@, 0);
                match r {
                    Ok(f) => {
                        &&& first_invalid(input@, tags, 0) is None
                        &&& f.wf()
                        &&& f.input@ == input@
                        &&& f.filter_options == filter_options
                        &&& f.pattern@.len() == tags.len()
                        &&& forall|i: int| 0 <= i < tags.len() ==> pattern_of(input@, tags[i], #[trigger] f.pattern@[i])
                    },
                    Err(e) => match first_invalid(input@, tags, 0) {
                        Some(k) => e@ == keyword_error(input@, tags[k]),
                        None => false,
                    },
                }
            }),
    {
        let s = chars_of(input.as_str());
        let found = find_tags(&s);
        let ghost tags = tags_from(input@, 0);
        let mut pattern: Vec<Pattern> = Vec::new();
        let mut i: usize = 0;
        while i < found.len()
            invariant
                s@ == input@,
                tags == tags_from(input@, 0),
                found@.len() == tags.len(),
                forall|j: int| 0 <= j < found@.len() ==> {
                    let t = tags[j];
                    let x = #[trigger] found@[j];
                    &&& t.start == x.0 && t.end == x.1 && t.scope == (x.2 as int, x.3 as int) && t.field == (x.4 as int, x.5 as int)
                    &&& x.2 <= x.3 <= s@.len() && x.4 <= x.5 <= s@.len()
                },
                i <= found@.len(),
                pattern@.len() == i,
                first_invalid(input@, tags, 0) == first_invalid(input@, tags, i as int),
                forall|j: int| 0 <= j < i ==> pattern_of(input@, tags[j], #[trigger] pattern@[j]),
            decreases found@.len() - i,
        {
            let (start, end, a, b, c, d) = found[i];
            let scope_name = slice_vec(&s, a, b);
            let field = slice_vec(&s, c, d);
            let ghost t = tags[i as int];
            assert(found@[i as int] == (start, end, a, b, c, d));
            let valid = match scope_named_exec(&scope_name) {
                Some(scope) => {
                    if has_field_exec(scope, &field) {
                        pattern.push(Pattern { start, end, scope, field: string_from(&field) });
                        true
                    } else {
                        false
                    }
                },
                None => false,
            };
            if !valid {
                let mut e = String::from_str("'");
                e.append(string_from(&scope_name).as_str());
                e.append(".");
                e.append(string_from(&field).as_str());
                e.append("' is not a valid keyword");
                return Err(e);
            }
            i = i + 1;
        }
        let f = Format { pattern, input, filter_options };
        proof {
            lemma_tags_ordered(f.input@, 0);
            assert forall|j: int| 0 <= j < f.pattern@.len() - 1 implies #[trigger] f.pattern@[j].end <= f.pattern@[j + 1].start by {
                assert(pattern_of(f.input@, tags[j], f.pattern@[j]));
                assert(pattern_of(f.input@, tags[j + 1], f.pattern@[j + 1]));
            }
            assert forall|j: int| 0 <= j < f.pattern@.len() implies #[trigger] f.pattern@[j].start < f.pattern@[j].end
                <= f.input@.len() by {
                assert(pattern_of(f.input@, tags[j], f.pattern@[j]));
            }
        }
        Ok(f)
    }

    /// Whether no placeholder refers to `scope`.
    pub fn check_pattern_count_empty(&self, scope: Scope) -> (r: bool)
        ensures
            r == forall|i: int| 0 <= i < self.pattern@.len() ==> #[trigger] self.pattern@[i].scope != scope,
    {
        let mut i: usize = 0;
        while i < self.pattern.len()
            invariant
                i <= self.pattern@.len(),
                forall|j: int| 0 <= j < i ==> #[trigger] self.pattern@[j].scope != scope,
            decreases self.pattern@.len() - i,
        {
            if self.pattern[i].scope == scope {
                return false;
            }
            i = i + 1;
        }
        true
    }
}

/// Placeholders lie within the template, in order, without overlapping.
proof fn lemma_tags_ordered(s: Seq<char>, p: int)
    requires
        0 <= p,
    ensures
        forall|i: int|
            0 <= i < tags_from(s, p).len() ==> p <= #[trigger] tags_from(s, p)[i].start < tags_from(s, p)[i].end
                <= s.len(),
        forall|i: int|
            0 <= i < tags_from(s, p).len() - 1 ==> #[trigger] tags_from(s, p)[i].end <= tags_from(s, p)[i + 1].start,
    decreases s.len() - p,
{
    if p < s.len() {
        if 0 <= p && p + 1 < s.len() && s[p] == '{' && s[p + 1] == '{' {
            let a = space_end(s, p + 2);
            lemma_space_end_bounds(s, p + 2);
            lemma_word_end_bounds(s, a);
            let b = word_end(s, a);
            lemma_word_end_bounds(s, b + 1);
            lemma_space_end_bounds(s, word_end(s, b + 1));
        }
        match tag_at(s, p) {
            Some(t) => {
                assert(t.start == p && p < t.end && t.end <= s.len());
                if t.end > p {
                    lemma_tags_ordered(s, t.end);
                    let rest = tags_from(s, t.end);
                    assert(tags_from(s, p) == seq![t] + rest);
                    assert forall|i: int| 0 <= i < tags_from(s, p).len() - 1 implies #[trigger] tags_from(s, p)[i].end
                        <= tags_from(s, p)[i + 1].start by {
                        if i > 0 {
                            assert(tags_from(s, p)[i] == rest[i - 1]);
                            assert(tags_from(s, p)[i + 1] == rest[i]);
                        } else {
                            assert(tags_from(s, p)[1] == rest[0]);
                        }
                    }
                    assert forall|i: int| 0 <= i < tags_from(s, p).len() implies p <= #[trigger] tags_from(s, p)[i].start
                        < tags_from(s, p)[i].end <= s.len() by {
                        if i > 0 {
                            assert(tags_from(s, p)[i] == rest[i - 1]);
                        }
                    }
                }
            },
            None => {
                lemma_tags_ordered(s, p + 1);
                assert(tags_from(s, p) == tags_from(s, p + 1));
            },
        }
    } else {
        assert(tags_from(s, p).len() == 0);
    }
}

impl Format {
    /// The placeholders lie within the template, in order, without overlapping.
    pub open spec fn wf(&self) -> bool {
        &&& forall|i: int|
            0 <= i < self.pattern@.len() ==> #[trigger] self.pattern@[i].start < self.pattern@[i].end
                <= self.input@.len()
        &&& forall|i: int| 0 <= i < self.pattern@.len() - 1 ==> #[trigger] self.pattern@[i].end <= self.pattern@[i + 1].start
    }
}

/// The first value given for a scope's field.
pub open spec fn value_of(values: Seq<(Scope, String, String)>, scope: Scope, field: Seq<char>) -> Option<Seq<char>>
    decreases values.len(),
{
    if values.len() == 0 {
        None
    } else if values[0].0 == scope && values[0].1@ == field {
        Some(values[0].2@)
    } else {
        value_of(values.drop_first(), scope, field)
    }
}

/// The template `s` with the placeholders `ps` (in order, within `s`) replaced by `items`.
pub open spec fn render(s: Seq<char>, ps: Seq<(int, int)>, items: Seq<Seq<char>>) -> Seq<char>
    decreases ps.len(),
{
    if ps.len() == 0 {
        s
    } else {
        render(s.subrange(0, ps.last().0), ps.drop_last(), items.drop_last()) + items.last() + s.subrange(
            ps.last().1,
            s.len() as int,
        )
    }
}

fn value_of_exec(values: &Vec<(Scope, String, String)>, scope: Scope, field: &String) -> (r: Option<String>)
    ensures
        match r {
            Some(v) => value_of(values@, scope, field@) == Some(v@),
            None => value_of(values@, scope, field@) is None,
        },
{
    let mut i: usize = 0;
    assert(values@.subrange(0, values@.len() as int) =~= values@);
    while i < values.len()
        invariant
            i <= values@.len(),
            value_of(values@, scope, field@) == value_of(values@.subrange(i as int, values@.len() as int), scope, field@),
        decreases values@.len() - i,
    {
        let ghost rest = values@.subrange(i as int, values@.len() as int);
        assert(rest.len() > 0);
        assert(rest.drop_first() =~= values@.subrange(i + 1, values@.len() as int));
        assert(rest[0] == values@[i as int]);
        if values[i].0 == scope && values[i].1.eq(field) {
            return Some(values[i].2.clone());
        }
        i = i + 1;
    }
    None
}

impl Format {
    /// The positions of the placeholders.
    pub open spec fn positions(&self) -> Seq<(int, int)> {
        self.pattern@.map_values(|p: Pattern| (p.start as int, p.end as int))
    }

    /// The template with each placeholder replaced by the value given for its scope's field (the
    /// first one where several are given).
    pub fn replace(&self, values: &Vec<(Scope, String, String)>) -> (r: String)
        requires
            self.wf(),
            forall|i: int| 0 <= i < self.pattern@.len() ==> #[trigger] value_of(values@, self.pattern@[i].scope, self.pattern@[i].field@) is Some,
        ensures
            r@ == render(
                self.input@,
                self.positions(),
                self.pattern@.map_values(|p: Pattern| value_of(values@, p.scope, p.field@)->0),
            ),
    {
        let s = chars_of(self.input.as_str());
        let ghost ps = self.positions();
        let ghost items = self.pattern@.map_values(|p: Pattern| value_of(values@, p.scope, p.field@)->0);
        let mut out = String::new();
        let mut prev: usize = 0;
        let mut i: usize = 0;
        assert(s@.subrange(0, 0) =~= Seq::<char>::empty());
        assert(ps.subrange(0, 0) =~= Seq::<(int, int)>::empty());
        while i < self.pattern.len()
            invariant
                s@ == self.input@,
                self.wf(),
                ps == self.positions(),
                items == self.pattern@.map_values(|p: Pattern| value_of(values@, p.scope, p.field@)->0),
                forall|j: int| 0 <= j < self.pattern@.len() ==> #[trigger] value_of(values@, self.pattern@[j].scope, self.pattern@[j].field@) is Some,
                i <= self.pattern@.len(),
                prev <= s@.len(),
                i == 0 ==> prev == 0,
                i > 0 ==> prev == self.pattern@[i - 1].end,
                out@ == render(s@.subrange(0, prev as int), ps.subrange(0, i as int), items.subrange(0, i as int)),
            decreases self.pattern@.len() - i,
        {
            let start = self.pattern[i].start;
            let end = self.pattern[i].end;
            proof {
                if i > 0 {
                    assert(self.pattern@[i - 1].end <= self.pattern@[i as int].start);
                }
                lemma_render_extend(s@, ps.subrange(0, i as int), items.subrange(0, i as int), prev as int, start as int);
                let next = s@.subrange(0, end as int);
                assert(ps.subrange(0, i + 1).drop_last() =~= ps.subrange(0, i as int));
                assert(items.subrange(0, i + 1).drop_last() =~= items.subrange(0, i as int));
                assert(next.subrange(0, start as int) =~= s@.subrange(0, start as int));
                assert(next.subrange(end as int, end as int) =~= Seq::<char>::empty());
            }
            out.append(string_from(&slice_vec(&s, prev, start)).as_str());
            match value_of_exec(values, self.pattern[i].scope, &self.pattern[i].field) {
                Some(v) => {
                    out.append(v.as_str());
                },
                None => {},
            }
            prev = end;
            i = i + 1;
        }
        proof {
            lemma_render_extend(s@, ps, items, prev as int, s@.len() as int);
            assert(ps.subrange(0, i as int) =~= ps);
            assert(items.subrange(0, i as int) =~= items);
            assert(s@.subrange(0, s@.len() as int) =~= s@);
        }
        out.append(string_from(&slice_vec(&s, prev, s.len())).as_str());
        out
    }
}

/// Text after the last placeholder is copied as it is.
proof fn lemma_render_extend(s: Seq<char>, ps: Seq<(int, int)>, items: Seq<Seq<char>>, m: int, k: int)
    requires
        0 <= m <= k <= s.len(),
        ps.len() > 0 ==> 0 <= ps.last().0 <= ps.last().1 <= m,
    ensures
        render(s.subrange(0, k), ps, items) == render(s.subrange(0, m), ps, items) + s.subrange(m, k),
{
    if ps.len() == 0 {
        assert(s.subrange(0, k) =~= s.subrange(0, m) + s.subrange(m, k));
    } else {
        let l = ps.last();
        assert(s.subrange(0, k).subrange(0, l.0) =~= s.subrange(0, l.0));
        assert(s.subrange(0, m).subrange(0, l.0) =~= s.subrange(0, l.0));
        assert(s.subrange(0, k).subrange(l.1, k) =~= s.subrange(0, m).subrange(l.1, m) + s.subrange(m, k));
    }
}

/// Which results the `search` command shows.
pub struct FilterOptions {
    /// The audio languages asked for (none: any).
    pub audio: Vec<Locale>,
    /// Whether subtitles are only shown in the asked languages.
    pub filter_subtitles: bool,
    /// The seasons and episodes asked for.
    pub url_filter: UrlFilter,
}

/// Whether media with the audio languages `audio` is shown when `wanted` are asked for: any
/// language, where none is asked for, else one of them.
pub open spec fn audio_matches(wanted: Seq<LocaleView>, audio: Seq<LocaleView>) -> bool {
    wanted.len() == 0 || exists|i: int| 0 <= i < wanted.len() && audio.contains(#[trigger] wanted[i])
}

impl FilterOptions {
    /// Whether media with the audio languages `audio` is shown (see [`audio_matches`]).
    pub fn check_audio_language(&self, audio: &Vec<Locale>) -> (r: bool)
        ensures
            r == audio_matches(views(self.audio@), views(audio@)),
    {
        if self.audio.len() == 0 {
            return true;
        }
        let mut i: usize = 0;
        while i < self.audio.len()
            invariant
                i <= self.audio@.len(),
                forall|j: int| 0 <= j < i ==> !views(audio@).contains(#[trigger] views(self.audio@)[j]),
            decreases self.audio@.len() - i,
        {
            if contains_locale(audio, &self.audio[i]) {
                assert(views(audio@).contains(views(self.audio@)[i as int]));
                return true;
            }
            i = i + 1;
        }
        false
    }

    /// Whether a series with the audio languages `audio_locales` is shown.
    pub fn check_series(&self, audio_locales: &Vec<Locale>) -> (r: bool)
        ensures
            r == audio_matches(views(self.audio@), views(audio_locales@)),
    {
        self.check_audio_language(audio_locales)
    }

    /// Whether a movie listing with the audio language `audio_locale` (if known) is shown.
    pub fn check_movie_listing(&self, audio_locale: &Option<Locale>) -> (r: bool)
        ensures
            r == audio_matches(
                views(self.audio@),
                match audio_locale {
                    Some(l) => seq![l@],
                    None => Seq::empty(),
                },
            ),
    {
        let mut v: Vec<Locale> = Vec::new();
        if let Some(l) = audio_locale {
            v.push(l.copy());
        }
        proof {
            match audio_locale {
                Some(l) => {
                    assert(views(v@) =~= seq![l@]);
                },
                None => {
                    assert(views(v@) =~= Seq::<LocaleView>::empty());
                },
            }
        }
        self.check_audio_language(&v)
    }

    /// Whether a season with the audio languages `audio_locales` and number `season_number` is
    /// shown.
    pub fn season_kept(&self, audio_locales: &Vec<Locale>, season_number: u32) -> (r: bool)
        ensures
            r == (audio_matches(views(self.audio@), views(audio_locales@)) && exists|i: int|
                0 <= i < self.url_filter.inner@.len() && crate::parse::range_has_season(
                    #[trigger] self.url_filter.inner@[i],
                    season_number,
                )),
    {
        self.check_audio_language(audio_locales) && self.url_filter.is_season_valid(season_number)
    }

    /// Whether an episode with audio language `audio_locale`, number `episode_number` and season
    /// number `season_number` is shown.
    pub fn episode_kept(&self, audio_locale: &Locale, episode_number: u32, season_number: u32) -> (r: bool)
        ensures
            r == (audio_matches(views(self.audio@), seq![audio_locale@]) && exists|i: int|
                0 <= i < self.url_filter.inner@.len() && crate::parse::range_has_episode(
                    #[trigger] self.url_filter.inner@[i],
                    (episode_number * 1000) as i64,
                    season_number,
                )),
    {
        let mut v: Vec<Locale> = Vec::new();
        v.push(audio_locale.copy());
        assert(views(v@) =~= seq![audio_locale@]);
        self.check_audio_language(&v) && self.url_filter.is_episode_valid(episode_number as i64 * 1000, season_number)
    }

    /// Whether a subtitle in `locale` is shown: always, unless subtitles are filtered by the asked
    /// languages.
    pub fn subtitle_kept(&self, locale: &Locale) -> (r: bool)
        ensures
            r == (!self.filter_subtitles || audio_matches(views(self.audio@), seq![locale@])),
    {
        if !self.filter_subtitles {
            return true;
        }
        let mut v: Vec<Locale> = Vec::new();
        v.push(locale.copy());
        assert(views(v@) =~= seq![locale@]);
        self.check_audio_language(&v)
    }

    /// The seasons, each given by its audio languages and number, that are shown, as their
    /// positions in the order given (see [`FilterOptions::season_kept`]).
    pub fn filter_seasons(&self, seasons: &Vec<(Vec<Locale>, u32)>) -> (r: Vec<usize>)
        ensures
            retained(
                r@,
                seasons@.len(),
                |k: int|
                    audio_matches(views(self.audio@), views(seasons@[k].0@)) && exists|i: int|
                        0 <= i < self.url_filter.inner@.len() && crate::parse::range_has_season(
                            #[trigger] self.url_filter.inner@[i],
                            seasons@[k].1,
                        ),
            ),
    {
        let mut r: Vec<usize> = Vec::new();
        let mut k: usize = 0;
        while k < seasons.len()
            invariant
                k <= seasons@.len(),
                retained(
                    r@,
                    k as nat,
                    |q: int|
                        audio_matches(views(self.audio@), views(seasons@[q].0@)) && exists|i: int|
                            0 <= i < self.url_filter.inner@.len() && crate::parse::range_has_season(
                                #[trigger] self.url_filter.inner@[i],
                                seasons@[q].1,
                            ),
                ),
            decreases seasons@.len() - k,
        {
            let ghost before = r@;
            if self.season_kept(&seasons[k].0, seasons[k].1) {
                r.push(k);
                assert(r@[before.len() as int] == k);
            }
            assert forall|q: int| 0 <= q < k && #[trigger] before.contains(q as usize) implies r@.contains(q as usize) by {
                let t = choose|t: int| 0 <= t < before.len() && before[t] == q as usize;
                assert(r@[t] == q as usize);
            }
            k = k + 1;
        }
        r
    }

    /// The episodes, each given by its audio language, number and season number, that are shown,
    /// as their positions in the order given (see [`FilterOptions::episode_kept`]).
    pub fn filter_episodes(&self, episodes: &Vec<(Locale, u32, u32)>) -> (r: Vec<usize>)
        ensures
            retained(
                r@,
                episodes@.len(),
                |k: int|
                    audio_matches(views(self.audio@), seq![episodes@[k].0@]) && exists|i: int|
                        0 <= i < self.url_filter.inner@.len() && crate::parse::range_has_episode(
                            #[trigger] self.url_filter.inner@[i],
                            (episodes@[k].1 * 1000) as i64,
                            episodes@[k].2,
                        ),
            ),
    {
        let mut r: Vec<usize> = Vec::new();
        let mut k: usize = 0;
        while k < episodes.len()
            invariant
                k <= episodes@.len(),
                retained(
                    r@,
                    k as nat,
                    |q: int|
                        audio_matches(views(self.audio@), seq![episodes@[q].0@]) && exists|i: int|
                            0 <= i < self.url_filter.inner@.len() && crate::parse::range_has_episode(
                                #[trigger] self.url_filter.inner@[i],
                                (episodes@[q].1 * 1000) as i64,
                                episodes@[q].2,
                            ),
                ),
            decreases episodes@.len() - k,
        {
            let ghost before = r@;
            if self.episode_kept(&episodes[k].0, episodes[k].1, episodes[k].2) {
                r.push(k);
                assert(r@[before.len() as int] == k);
            }
            assert forall|q: int| 0 <= q < k && #[trigger] before.contains(q as usize) implies r@.contains(q as usize) by {
                let t = choose|t: int| 0 <= t < before.len() && before[t] == q as usize;
                assert(r@[t] == q as usize);
            }
            k = k + 1;
        }
        r
    }

    /// The subtitles, each given by its language, that are shown, as their positions in the order
    /// given: all of them, unless subtitles are filtered by the asked languages (see
    /// [`FilterOptions::subtitle_kept`]).
    pub fn filter_subtitles(&self, subtitles: &Vec<Locale>) -> (r: Vec<usize>)
        ensures
            retained(
                r@,
                subtitles@.len(),
                |k: int| !self.filter_subtitles || audio_matches(views(self.audio@), seq![subtitles@[k]@]),
            ),
    {
        let mut r: Vec<usize> = Vec::new();
        let mut k: usize = 0;
        while k < subtitles.len()
            invariant
                k <= subtitles@.len(),
                retained(
                    r@,
                    k as nat,
                    |q: int| !self.filter_subtitles || audio_matches(views(self.audio@), seq![subtitles@[q]@]),
                ),
            decreases subtitles@.len() - k,
        {
            let ghost before = r@;
            if self.subtitle_kept(&subtitles[k]) {
                r.push(k);
                assert(r@[before.len() as int] == k);
            }
            assert forall|q: int| 0 <= q < k && #[trigger] before.contains(q as usize) implies r@.contains(q as usize) by {
                let t = choose|t: int| 0 <= t < before.len() && before[t] == q as usize;
                assert(r@[t] == q as usize);
            }
            k = k + 1;
        }
        r
    }
}

/// Whether `r` lists, ascending, exactly the positions below `n` that `keep` holds of.
pub open spec fn retained(r: Seq<usize>, n: nat, keep: spec_fn(int) -> bool) -> bool {
    &&& forall|i: int, j: int| 0 <= i < j < r.len() ==> r[i] < r[j]
    &&& forall|t: int| 0 <= t < r.len() ==> #[trigger] r[t] < n && keep(r[t] as int)
    &&& forall|q: int| 0 <= q < n && #[trigger] keep(q) ==> r.contains(q as usize)
}

/// The text shown for one set of values: the template with each placeholder replaced by the
/// value given for it.
pub open spec fn shown_line(f: Format, values: Seq<(Scope, String, String)>) -> Seq<char> {
    render(f.input@, f.positions(), f.pattern@.map_values(|p: Pattern| value_of(values, p.scope, p.field@)->0))
}

/// Whether `values` gives a value for every placeholder of the template.
pub open spec fn all_given(f: Format, values: Seq<(Scope, String, String)>) -> bool {
    forall|i: int| 0 <= i < f.pattern@.len() ==> #[trigger] value_of(values, f.pattern@[i].scope, f.pattern@[i].field@) is Some
}

/// Whether the template shows a field of `scope`.
pub open spec fn uses_scope(f: Format, scope: Scope) -> bool {
    exists|i: int| 0 <= i < f.pattern@.len() && #[trigger] f.pattern@[i].scope == scope
}

/// The subtitles `(locale, values)` of a stream as views.
pub open spec fn subtitle_views(subs: Seq<(Locale, Vec<(Scope, String, String)>)>) -> Seq<(LocaleView, Seq<(Scope, String, String)>)> {
    subs.map_values(|s: (Locale, Vec<(Scope, String, String)>)| (s.0@, s.1@))
}

/// The subtitles a stream is shown with: its own; where it has none, an empty subtitle (of the
/// empty custom locale, with the values `blank`), unless the template shows subtitle fields, in
/// which case the stream is not shown.
pub open spec fn shown_subtitles(
    f: Format,
    subs: Seq<(LocaleView, Seq<(Scope, String, String)>)>,
    blank: Seq<(Scope, String, String)>,
) -> Seq<(LocaleView, Seq<(Scope, String, String)>)> {
    if subs.len() > 0 {
        subs
    } else if uses_scope(f, Scope::Subtitle) {
        Seq::empty()
    } else {
        seq![(LocaleView::Custom(Seq::empty()), blank)]
    }
}

/// The lines shown for the subtitles `subs` of a stream: one for each subtitle that the options
/// keep, with the values of the scopes around it (`outer`) and of the subtitle.
pub open spec fn subtitle_lines(
    f: Format,
    audio: Seq<LocaleView>,
    filter_subtitles: bool,
    outer: Seq<(Scope, String, String)>,
    subs: Seq<(LocaleView, Seq<(Scope, String, String)>)>,
) -> Seq<Seq<char>>
    decreases subs.len(),
{
    if subs.len() == 0 {
        Seq::empty()
    } else {
        subtitle_lines(f, audio, filter_subtitles, outer, subs.drop_last()) + if !filter_subtitles || audio_matches(
            audio,
            seq![subs.last().0],
        ) {
            seq![shown_line(f, outer + subs.last().1)]
        } else {
            Seq::empty()
        }
    }
}

/// Appends clones of `v` to `out`.
fn append_values(out: &mut Vec<(Scope, String, String)>, v: &Vec<(Scope, String, String)>)
    ensures
        final(out)@ == old(out)@ + v@,
{
    let ghost start = out@;
    let mut i: usize = 0;
    while i < v.len()
        invariant
            i <= v@.len(),
            out@ == start + v@.subrange(0, i as int),
        decreases v@.len() - i,
    {
        let e = (v[i].0, v[i].1.clone(), v[i].2.clone());
        out.push(e);
        i = i + 1;
        assert(out@ =~= start + v@.subrange(0, i as int));
    }
    assert(v@.subrange(0, v@.len() as int) =~= v@);
}

impl Format {
    /// The lines shown for one stream, given the values of the scopes around it and of the stream
    /// (`outer`), its subtitles `(locale, values)` and the values of an empty subtitle (`blank`):
    /// see [`shown_subtitles`] and [`subtitle_lines`].
    pub fn stream_lines(
        &self,
        options: &FilterOptions,
        outer: &Vec<(Scope, String, String)>,
        subtitles: &Vec<(Locale, Vec<(Scope, String, String)>)>,
        blank: &Vec<(Scope, String, String)>,
    ) -> (r: Vec<String>)
        requires
            self.wf(),
            forall|i: int| 0 <= i < subtitles@.len() ==> all_given(*self, outer@ + (#[trigger] subtitles@[i]).1@),
            subtitles@.len() == 0 ==> all_given(*self, outer@ + blank@),
        ensures
            r@.map_values(|l: String| l@) == subtitle_lines(
                *self,
                views(options.audio@),
                options.filter_subtitles,
                outer@,
                shown_subtitles(*self, subtitle_views(subtitles@), blank@),
            ),
    {
        let ghost subs = shown_subtitles(*self, subtitle_views(subtitles@), blank@);
        let mut shown: Vec<(Locale, Vec<(Scope, String, String)>)> = Vec::new();
        if subtitles.len() == 0 {
            if !self.check_pattern_count_empty(Scope::Subtitle) {
                let r: Vec<String> = Vec::new();
                assert(subs =~= Seq::<(LocaleView, Seq<(Scope, String, String)>)>::empty());
                assert(r@.map_values(|l: String| l@) =~= Seq::<Seq<char>>::empty());
                return r;
            }
            let mut b: Vec<(Scope, String, String)> = Vec::new();
            append_values(&mut b, blank);
            shown.push((Locale::Custom(String::new()), b));
            assert(subtitle_views(shown@) =~= subs);
        } else {
            let mut i: usize = 0;
            while i < subtitles.len()
                invariant
                    i <= subtitles@.len(),
                    shown@.len() == i,
                    subtitle_views(shown@) =~= subtitle_views(subtitles@).subrange(0, i as int),
                    forall|k: int| 0 <= k < i ==> (#[trigger] shown@[k]).1@ == subtitles@[k].1@,
                decreases subtitles@.len() - i,
            {
                let mut v: Vec<(Scope, String, String)> = Vec::new();
                append_values(&mut v, &subtitles[i].1);
                shown.push((subtitles[i].0.copy(), v));
                i = i + 1;
                assert(subtitle_views(shown@) =~= subtitle_views(subtitles@).subrange(0, i as int));
            }
            assert(subtitle_views(subtitles@).subrange(0, i as int) =~= subtitle_views(subtitles@));
        }
        assert(subtitle_views(shown@) =~= subs);
        let mut r: Vec<String> = Vec::new();
        let mut i: usize = 0;
        while i < shown.len()
            invariant
                i <= shown@.len(),
                self.wf(),
                subtitle_views(shown@) == subs,
                forall|k: int| 0 <= k < shown@.len() ==> all_given(*self, outer@ + (#[trigger] shown@[k]).1@),
                r@.map_values(|l: String| l@) == subtitle_lines(
                    *self,
                    views(options.audio@),
                    options.filter_subtitles,
                    outer@,
                    subs.subrange(0, i as int),
                ),
            decreases shown@.len() - i,
        {
            assert(subs.subrange(0, i + 1).drop_last() =~= subs.subrange(0, i as int));
            assert(subs[i as int] == (shown@[i as int].0@, shown@[i as int].1@));
            if options.subtitle_kept(&shown[i].0) {
                let mut values: Vec<(Scope, String, String)> = Vec::new();
                append_values(&mut values, outer);
                append_values(&mut values, &shown[i].1);
                let line = self.replace(&values);
                r.push(line);
            }
            i = i + 1;
            assert(r@.map_values(|l: String| l@) =~= subtitle_lines(
                *self,
                views(options.audio@),
                options.filter_subtitles,
                outer@,
                subs.subrange(0, i as int),
            ));
        }
        assert(subs.subrange(0, i as int) =~= subs);
        r
    }
}

/// The output lines joined by line feeds.
pub fn join_lines(lines: &Vec<String>) -> (r: String)
    ensures
        r@ == crate::format::joined(lines@.map_values(|l: String| l@), "\n"@),
{
    let ghost parts = lines@.map_values(|l: String| l@);
    let mut out = String::new();
    let mut i: usize = 0;
    proof {
        reveal_strlit("");
        assert(out@ =~= crate::format::joined(parts.subrange(0, 0), "\n"@));
    }
    while i < lines.len()
        invariant
            i <= lines@.len(),
            parts == lines@.map_values(|l: String| l@),
            out@ == crate::format::joined(parts.subrange(0, i as int), "\n"@),
        decreases lines@.len() - i,
    {
        assert(parts.subrange(0, i + 1).drop_last() =~= parts.subrange(0, i as int));
        if i > 0 {
            out.append("\n");
        }
        out.append(lines[i].as_str());
        i = i + 1;
        proof {
            if i == 1 {
                assert(parts.subrange(0, 1) =~= seq![parts[0]]);
            }
        }
    }
    assert(parts.subrange(0, i as int) =~= parts);
    out
}

} // verus!
