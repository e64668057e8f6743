//! What is known of a video to download, and the output path template filled with it.
use vstd::prelude::*;
use crate::text::{chars_of, string_from, decimal, decimal_exec, zero_pad, zero_pad_exec, occurs_at, occurs_at_exec,
    contains_seq, contains_exec, concat_vec};
use crate::locale::{Locale, tag};
use crate::parse::Resolution;

verus! {

broadcast use vstd::string::group_string_axioms;

/// A video to download: its names and numbers, and the audio language of each version with the
/// subtitle languages that come with it.
pub struct Format {
    pub title: String,
    pub description: String,
    pub locales: Vec<(Locale, Vec<Locale>)>,
    pub resolution: Resolution,
    pub series_id: String,
    pub series_name: String,
    pub season_id: String,
    pub season_title: String,
    pub season_number: u32,
    pub episode_id: String,
    pub episode_number: String,
    /// The sequence number in thousandths (episodes may be numbered 1.5).
    pub sequence_number: i64,
    pub relative_episode_number: Option<u32>,
    /// The sequence number relative to the season, in thousandths.
    pub relative_sequence_number: Option<i64>,
    /// The release date: year, month and day.
    pub release_year: u32,
    pub release_month: u32,
    pub release_day: u32,
}

/// A number given in thousandths as written in decimal: a minus sign where negative, the whole
/// part, then a dot and the fraction without trailing zeros where there is one (`1`, `1.5`, `2.05`).
pub open spec fn thousandths_text(t: int) -> Seq<char> {
    let a = if t < 0 { -t } else { t };
    let sign = if t < 0 { "-"@ } else { Seq::<char>::empty() };
    let whole = decimal((a / 1000) as nat);
    let r = a % 1000;
    let fraction = if r == 0 {
        Seq::<char>::empty()
    } else if r % 100 == 0 {
        "."@ + decimal((r / 100) as nat)
    } else if r % 10 == 0 {
        "."@ + zero_pad(decimal((r / 10) as nat), 2)
    } else {
        "."@ + zero_pad(decimal(r as nat), 3)
    };
    sign + whole + fraction
}

/// The text of a number given in thousandths (see [`thousandths_text`]).
pub fn thousandths_text_exec(t: i64) -> (r: Vec<char>)
    ensures
        r@ == thousandths_text(t as int),
{
    let a: u64 = if t < 0 { (0 - (t as i128)) as u64 } else { t as u64 };
    let sign = if t < 0 { chars_of("-") } else { Vec::new() };
    let whole = decimal_exec(a / 1000);
    let r = a % 1000;
    let fraction = if r == 0 {
        Vec::new()
    } else if r % 100 == 0 {
        concat_vec(&chars_of("."), &decimal_exec(r / 100))
    } else if r % 10 == 0 {
        concat_vec(&chars_of("."), &zero_pad_exec(&decimal_exec(r / 10), 2))
    } else {
        concat_vec(&chars_of("."), &zero_pad_exec(&decimal_exec(r), 3))
    };
    proof {
        if t >= 0 {
            assert(sign@ =~= Seq::<char>::empty());
        }
        if r == 0 {
            assert(fraction@ =~= Seq::<char>::empty());
        }
    }
    concat_vec(&concat_vec(&sign, &whole), &fraction)
}

/// `s` with every occurrence of `pat` replaced by `with`, left to right without overlapping
/// (`str::replace`).
pub open spec fn replace_all(s: Seq<char>, pat: Seq<char>, with: Seq<char>) -> Seq<char>
    decreases s.len(),
{
    if pat.len() == 0 || s.len() == 0 {
        s
    } else if occurs_at(s, pat, 0) {
        with + replace_all(s.subrange(pat.len() as int, s.len() as int), pat, with)
    } else {
        seq![s[0]] + replace_all(s.subrange(1, s.len() as int), pat, with)
    }
}

/// `s` with every occurrence of `pat` replaced by `with` (see [`replace_all`]).
pub fn replace_str(s: &Vec<char>, pat: &str, with: &Vec<char>) -> (r: Vec<char>)
    requires
        pat@.len() > 0,
    ensures
        r@ == replace_all(s@, pat@, with@),
{
    let p = chars_of(pat);
    let mut out: Vec<char> = Vec::new();
    let mut i: usize = 0;
    assert(s@.subrange(0, s@.len() as int) =~= s@);
    while i < s.len()
        invariant
            i <= s@.len(),
            p@ == pat@,
            p@.len() > 0,
            out@ + replace_all(s@.subrange(i as int, s@.len() as int), p@, with@) == replace_all(s@, p@, with@),
        decreases s@.len() - i,
    {
        let ghost rest = s@.subrange(i as int, s@.len() as int);
        assert(occurs_at(rest, p@, 0) == occurs_at(s@, p@, i as int)) by {
            if p@.len() <= rest.len() {
                assert(rest.subrange(0, p@.len() as int) =~= s@.subrange(i as int, i + p@.len()));
            }
        }
        if occurs_at_exec(s, &p, i) {
            assert(rest.subrange(p@.len() as int, rest.len() as int) =~= s@.subrange(i + p@.len(), s@.len() as int));
            out = concat_vec(&out, with);
            i = i + p.len();
        } else {
            assert(rest.subrange(1, rest.len() as int) =~= s@.subrange(i + 1, s@.len() as int));
            out.push(s[i]);
            i = i + 1;
        }
    }
    assert(s@.subrange(i as int, s@.len() as int) =~= Seq::<char>::empty());
    assert(out@ + Seq::<char>::empty() =~= out@);
    out
}

/// A file name made safe by `sanitize_filename::sanitize`.
pub uninterp spec fn sanitized_name(s: Seq<char>) -> Seq<char>;

/// Calls `sanitize_filename::sanitize`, which removes from a name the characters and names that
/// file systems forbid (path separators, control characters, reserved names) and cuts it to 255
/// bytes. The contract names the result; what exactly is removed is left unsaid.
#[verifier::external_body]
fn sanitize_filename_call(s: &str) -> (r: String)
    ensures
        r@ == sanitized_name(s@),
{
    sanitize_filename::sanitize(s)
}

/// A value put into a path: made safe as a file name where asked.
pub open spec fn cleaned(v: Seq<char>, sanitize: bool) -> Seq<char> {
    if sanitize { sanitized_name(v) } else { v }
}

fn cleaned_exec(v: &Vec<char>, sanitize: bool) -> (r: Vec<char>)
    ensures
        r@ == cleaned(v@, sanitize),
{
    if sanitize {
        let s = string_from(v);
        chars_of(sanitize_filename_call(s.as_str()).as_str())
    } else {
        v.clone()
    }
}

/// The texts joined by `sep`.
pub open spec fn joined(parts: Seq<Seq<char>>, sep: Seq<char>) -> Seq<char>
    decreases parts.len(),
{
    if parts.len() == 0 {
        Seq::empty()
    } else if parts.len() == 1 {
        parts[0]
    } else {
        joined(parts.drop_last(), sep) + sep + parts.last()
    }
}

/// The audio languages of the versions as tags joined by `|`.
pub open spec fn audio_tags(locales: Seq<(Locale, Vec<Locale>)>) -> Seq<char> {
    joined(locales.map_values(|p: (Locale, Vec<Locale>)| tag(p.0@)), "|"@)
}

/// The path template filled in: each placeholder (`{title}`, `{audio}`, `{resolution}`,
/// `{series_id}`, `{series_name}`, `{season_id}`, `{season_name}`, `{season_number}`,
/// `{episode_id}`, `{episode_number}`, `{relative_episode_number}`, then `{width}`, `{height}`,
/// `{sequence_number}`, `{relative_sequence_number}`, `{release_year}`, `{release_month}`,
/// `{release_day}`) replaced in this order by its value (numbers padded to two digits, but for
/// sizes and the year), each value made safe as a file name where asked.
pub open spec fn formatted_path(f: Format, path: Seq<char>, sanitize: bool) -> Seq<char> {
    let s = formatted_path_names(f, path, sanitize);
    let t1 = replace_all(s, "{width}"@, cleaned(decimal(f.resolution.width as nat), sanitize));
    let t2 = replace_all(t1, "{height}"@, cleaned(decimal(f.resolution.height as nat), sanitize));
    let t3 = replace_all(t2, "{sequence_number}"@, cleaned(zero_pad(thousandths_text(f.sequence_number as int), 2), sanitize));
    let t4 = replace_all(
        t3,
        "{relative_sequence_number}"@,
        cleaned(
            zero_pad(
                thousandths_text(
                    match f.relative_sequence_number {
                        Some(n) => n as int,
                        None => 0,
                    },
                ),
                2,
            ),
            sanitize,
        ),
    );
    let t5 = replace_all(t4, "{release_year}"@, cleaned(decimal(f.release_year as nat), sanitize));
    let t6 = replace_all(t5, "{release_month}"@, cleaned(zero_pad(decimal(f.release_month as nat), 2), sanitize));
    replace_all(t6, "{release_day}"@, cleaned(zero_pad(decimal(f.release_day as nat), 2), sanitize))
}

/// The names and numbers part of [`formatted_path`].
pub open spec fn formatted_path_names(f: Format, path: Seq<char>, sanitize: bool) -> Seq<char> {
    let s1 = replace_all(path, "{title}"@, cleaned(f.title@, sanitize));
    let s2 = replace_all(s1, "{audio}"@, cleaned(audio_tags(f.locales@), sanitize));
    let s3 = replace_all(
        s2,
        "{resolution}"@,
        cleaned(decimal(f.resolution.width as nat) + "x"@ + decimal(f.resolution.height as nat), sanitize),
    );
    let s4 = replace_all(s3, "{series_id}"@, cleaned(f.series_id@, sanitize));
    let s5 = replace_all(s4, "{series_name}"@, cleaned(f.series_name@, sanitize));
    let s6 = replace_all(s5, "{season_id}"@, cleaned(f.season_id@, sanitize));
    let s7 = replace_all(s6, "{season_name}"@, cleaned(f.season_title@, sanitize));
    let s8 = replace_all(s7, "{season_number}"@, cleaned(zero_pad(decimal(f.season_number as nat), 2), sanitize));
    let s9 = replace_all(s8, "{episode_id}"@, cleaned(f.episode_id@, sanitize));
    let s10 = replace_all(s9, "{episode_number}"@, cleaned(zero_pad(f.episode_number@, 2), sanitize));
    replace_all(
        s10,
        "{relative_episode_number}"@,
        cleaned(
            zero_pad(
                decimal(
                    match f.relative_episode_number {
                        Some(n) => n as nat,
                        None => 0,
                    },
                ),
                2,
            ),
            sanitize,
        ),
    )
}

fn audio_tags_exec(locales: &Vec<(Locale, Vec<Locale>)>) -> (r: Vec<char>)
    ensures
        r@ == audio_tags(locales@),
{
    let ghost parts = locales@.map_values(|p: (Locale, Vec<Locale>)| tag(p.0@));
    let mut out: Vec<char> = Vec::new();
    let mut i: usize = 0;
    while i < locales.len()
        invariant
            i <= locales@.len(),
            parts == locales@.map_values(|p: (Locale, Vec<Locale>)| tag(p.0@)),
            out@ == joined(parts.subrange(0, i as int), "|"@),
        decreases locales@.len() - i,
    {
        let t = chars_of(locales[i].0.to_tag().as_str());
        let ghost before = out@;
        if i > 0 {
            out = concat_vec(&out, &chars_of("|"));
        }
        out = concat_vec(&out, &t);
        proof {
            let q = parts.subrange(0, i + 1);
            assert(q.drop_last() =~= parts.subrange(0, i as int));
            if i == 0 {
                assert(out@ =~= q[0]);
            }
        }
        i = i + 1;
    }
    assert(parts.subrange(0, parts.len() as int) =~= parts);
    out
}

impl Format {
    /// The path template `path` filled with this video's values (see [`formatted_path`]).
    pub fn format_path(&self, path: &str, sanitize: bool) -> (r: String)
        ensures
            r@ == formatted_path(*self, path@, sanitize),
    {
        proof {
            reveal_strlit("{title}");
            reveal_strlit("{audio}");
            reveal_strlit("{resolution}");
            reveal_strlit("{series_id}");
            reveal_strlit("{series_name}");
            reveal_strlit("{season_id}");
            reveal_strlit("{season_name}");
            reveal_strlit("{season_number}");
            reveal_strlit("{episode_id}");
            reveal_strlit("{episode_number}");
            reveal_strlit("{relative_episode_number}");
            assert("{title}"@.len() > 0);
            assert("{audio}"@.len() > 0);
            assert("{resolution}"@.len() > 0);
            assert("{series_id}"@.len() > 0);
            assert("{series_name}"@.len() > 0);
            assert("{season_id}"@.len() > 0);
            assert("{season_name}"@.len() > 0);
            assert("{season_number}"@.len() > 0);
            assert("{episode_id}"@.len() > 0);
            assert("{episode_number}"@.len() > 0);
            assert("{relative_episode_number}"@.len() > 0);
        }
        let s0 = chars_of(path);
        let s1 = replace_str(&s0, "{title}", &cleaned_exec(&chars_of(self.title.as_str()), sanitize));
        let s2 = replace_str(&s1, "{audio}", &cleaned_exec(&audio_tags_exec(&self.locales), sanitize));
        let resolution = concat_vec(
            &concat_vec(&decimal_exec(self.resolution.width), &chars_of("x")),
            &decimal_exec(self.resolution.height),
        );
        let s3 = replace_str(&s2, "{resolution}", &cleaned_exec(&resolution, sanitize));
        let s4 = replace_str(&s3, "{series_id}", &cleaned_exec(&chars_of(self.series_id.as_str()), sanitize));
        let s5 = replace_str(&s4, "{series_name}", &cleaned_exec(&chars_of(self.series_name.as_str()), sanitize));
        let s6 = replace_str(&s5, "{season_id}", &cleaned_exec(&chars_of(self.season_id.as_str()), sanitize));
        let s7 = replace_str(&s6, "{season_name}", &cleaned_exec(&chars_of(self.season_title.as_str()), sanitize));
        let s8 = replace_str(
            &s7,
            "{season_number}",
            &cleaned_exec(&zero_pad_exec(&decimal_exec(self.season_number as u64), 2), sanitize),
        );
        let s9 = replace_str(&s8, "{episode_id}", &cleaned_exec(&chars_of(self.episode_id.as_str()), sanitize));
        let s10 = replace_str(
            &s9,
            "{episode_number}",
            &cleaned_exec(&zero_pad_exec(&chars_of(self.episode_number.as_str()), 2), sanitize),
        );
        let relative: u64 = match self.relative_episode_number {
            Some(n) => n as u64,
            None => 0,
        };
        let s11 = replace_str(
            &s10,
            "{relative_episode_number}",
            &cleaned_exec(&zero_pad_exec(&decimal_exec(relative), 2), sanitize),
        );
        proof {
            reveal_strlit("{width}");
            reveal_strlit("{height}");
            reveal_strlit("{sequence_number}");
            reveal_strlit("{relative_sequence_number}");
            reveal_strlit("{release_year}");
            reveal_strlit("{release_month}");
            reveal_strlit("{release_day}");
            assert("{width}"@.len() > 0);
            assert("{height}"@.len() > 0);
            assert("{sequence_number}"@.len() > 0);
            assert("{relative_sequence_number}"@.len() > 0);
            assert("{release_year}"@.len() > 0);
            assert("{release_month}"@.len() > 0);
            assert("{release_day}"@.len() > 0);
        }
        let t1 = replace_str(&s11, "{width}", &cleaned_exec(&decimal_exec(self.resolution.width), sanitize));
        let t2 = replace_str(&t1, "{height}", &cleaned_exec(&decimal_exec(self.resolution.height), sanitize));
        let t3 = replace_str(
            &t2,
            "{sequence_number}",
            &cleaned_exec(&zero_pad_exec(&thousandths_text_exec(self.sequence_number), 2), sanitize),
        );
        let relative_sequence: i64 = match self.relative_sequence_number {
            Some(n) => n,
            None => 0,
        };
        let t4 = replace_str(
            &t3,
            "{relative_sequence_number}",
            &cleaned_exec(&zero_pad_exec(&thousandths_text_exec(relative_sequence), 2), sanitize),
        );
        let t5 = replace_str(&t4, "{release_year}", &cleaned_exec(&decimal_exec(self.release_year as u64), sanitize));
        let t6 = replace_str(
            &t5,
            "{release_month}",
            &cleaned_exec(&zero_pad_exec(&decimal_exec(self.release_month as u64), 2), sanitize),
        );
        let t7 = replace_str(
            &t6,
            "{release_day}",
            &cleaned_exec(&zero_pad_exec(&decimal_exec(self.release_day as u64), 2), sanitize),
        );
        string_from(&t7)
    }

    /// Whether a path template numbers episodes relative to their season.
    pub fn has_relative_episodes_fmt(s: &str) -> (r: bool)
        ensures
            r == contains_seq(s@, "{relative_episode_number}"@),
    {
        contains_exec(&chars_of(s), &chars_of("{relative_episode_number}"))
    }
}

/// Whether `s` holds no curly brace.
pub open spec fn brace_free(s: Seq<char>) -> bool {
    forall|i: int| 0 <= i < s.len() ==> s[i] != '{' && s[i] != '}'
}

/// Whether `s` holds no opening curly brace.
pub open spec fn no_open_brace(s: Seq<char>) -> bool {
    forall|i: int| 0 <= i < s.len() ==> s[i] != '{'
}

/// The placeholder `{name}`.
pub open spec fn placeholder(name: Seq<char>) -> Seq<char> {
    "{"@ + name + "}"@
}

/// Replacing a pattern that starts with `{` leaves text alone where no `{` of it starts the
/// pattern.
proof fn lemma_replace_keeps(s: Seq<char>, q: Seq<char>, w: Seq<char>)
    requires
        q.len() > 0,
        q[0] == '{',
        forall|p: int| 0 <= p < s.len() && s[p] == '{' ==> !occurs_at(s, q, p),
    ensures
        replace_all(s, q, w) == s,
    decreases s.len(),
{
    if s.len() > 0 {
        let t = s.subrange(1, s.len() as int);
        assert(!occurs_at(s, q, 0)) by {
            if occurs_at(s, q, 0) {
                assert(s.subrange(0, q.len() as int)[0] == s[0]);
            }
        }
        assert forall|p: int| 0 <= p < t.len() && t[p] == '{' implies !occurs_at(t, q, p) by {
            assert(t[p] == s[p + 1]);
            assert(!occurs_at(s, q, p + 1));
            if occurs_at(t, q, p) {
                assert(t.subrange(p, p + q.len()) =~= s.subrange(p + 1, p + 1 + q.len()));
            }
        }
        lemma_replace_keeps(t, q, w);
        assert(s =~= seq![s[0]] + t);
    }
}

/// Text without `{` is left alone by replacing a pattern that starts with `{`.
proof fn lemma_replace_keeps_plain(s: Seq<char>, q: Seq<char>, w: Seq<char>)
    requires
        q.len() > 0,
        q[0] == '{',
        no_open_brace(s),
    ensures
        replace_all(s, q, w) == s,
{
    lemma_replace_keeps(s, q, w);
}

/// The one occurrence of a pattern between text without `{` is replaced.
proof fn lemma_replace_one(pre: Seq<char>, q: Seq<char>, post: Seq<char>, w: Seq<char>)
    requires
        q.len() > 0,
        q[0] == '{',
        no_open_brace(pre),
        no_open_brace(post),
    ensures
        replace_all(pre + q + post, q, w) == pre + w + post,
    decreases pre.len(),
{
    let s = pre + q + post;
    if pre.len() == 0 {
        assert(s =~= q + post);
        assert(occurs_at(s, q, 0)) by {
            assert(s.subrange(0, q.len() as int) =~= q);
        }
        assert(s.subrange(q.len() as int, s.len() as int) =~= post);
        lemma_replace_keeps_plain(post, q, w);
        assert(pre + w + post =~= w + post);
    } else {
        assert(!occurs_at(s, q, 0)) by {
            if occurs_at(s, q, 0) {
                assert(s.subrange(0, q.len() as int)[0] == s[0]);
                assert(s[0] == pre[0]);
            }
        }
        let pre1 = pre.subrange(1, pre.len() as int);
        assert(s.subrange(1, s.len() as int) =~= pre1 + q + post);
        lemma_replace_one(pre1, q, post, w);
        assert(pre + w + post =~= seq![pre[0]] + (pre1 + w + post));
    }
}

/// A placeholder between text without `{` is left alone when another placeholder is replaced.
proof fn lemma_replace_other(pre: Seq<char>, a: Seq<char>, b: Seq<char>, post: Seq<char>, w: Seq<char>)
    requires
        brace_free(a),
        brace_free(b),
        a != b,
        no_open_brace(pre),
        no_open_brace(post),
    ensures
        replace_all(pre + placeholder(a) + post, placeholder(b), w) == pre + placeholder(a) + post,
{
    reveal_strlit("{");
    reveal_strlit("}");
    let s = pre + placeholder(a) + post;
    let q = placeholder(b);
    let n = pre.len() as int;
    assert forall|p: int| 0 <= p < s.len() && s[p] == '{' implies !occurs_at(s, q, p) by {
        if p < n {
            assert(s[p] == pre[p]);
        } else if p > n && p <= n + a.len() {
            assert(s[p] == a[p - n - 1]);
        } else if p == n + a.len() + 1 {
            assert(s[p] == '}');
        } else if p > n + a.len() + 1 {
            assert(s[p] == post[p - n - a.len() - 2]);
        } else {
            if occurs_at(s, q, p) {
                let sub = s.subrange(p, p + q.len());
                assert(sub == q);
                if b.len() < a.len() {
                    assert(sub[b.len() as int + 1] == q[b.len() as int + 1]);
                    assert(q[b.len() as int + 1] == '}');
                    assert(s[n + b.len() + 1] == a[b.len() as int]);
                } else if b.len() > a.len() {
                    assert(sub[a.len() as int + 1] == q[a.len() as int + 1]);
                    assert(q[a.len() as int + 1] == b[a.len() as int]);
                    assert(s[n + a.len() + 1] == '}');
                } else {
                    assert forall|i: int| 0 <= i < a.len() implies a[i] == b[i] by {
                        assert(sub[i + 1] == q[i + 1]);
                        assert(s[n + 1 + i] == a[i]);
                    }
                    assert(a =~= b);
                }
            }
        }
    }
    assert("{"@[0] == '{');
    lemma_replace_keeps(s, q, w);
}

/// The placeholders of an output path template, by name, in the order they are filled.
pub open spec fn template_names() -> Seq<Seq<char>> {
    seq![
        seq!['t', 'i', 't', 'l', 'e'],
        seq!['a', 'u', 'd', 'i', 'o'],
        seq!['r', 'e', 's', 'o', 'l', 'u', 't', 'i', 'o', 'n'],
        seq!['s', 'e', 'r', 'i', 'e', 's', '_', 'i', 'd'],
        seq!['s', 'e', 'r', 'i', 'e', 's', '_', 'n', 'a', 'm', 'e'],
        seq!['s', 'e', 'a', 's', 'o', 'n', '_', 'i', 'd'],
        seq!['s', 'e', 'a', 's', 'o', 'n', '_', 'n', 'a', 'm', 'e'],
        seq!['s', 'e', 'a', 's', 'o', 'n', '_', 'n', 'u', 'm', 'b', 'e', 'r'],
        seq!['e', 'p', 'i', 's', 'o', 'd', 'e', '_', 'i', 'd'],
        seq!['e', 'p', 'i', 's', 'o', 'd', 'e', '_', 'n', 'u', 'm', 'b', 'e', 'r'],
        seq!['r', 'e', 'l', 'a', 't', 'i', 'v', 'e', '_', 'e', 'p', 'i', 's', 'o', 'd', 'e', '_', 'n', 'u', 'm', 'b', 'e', 'r'],
        seq!['w', 'i', 'd', 't', 'h'],
        seq!['h', 'e', 'i', 'g', 'h', 't'],
        seq!['s', 'e', 'q', 'u', 'e', 'n', 'c', 'e', '_', 'n', 'u', 'm', 'b', 'e', 'r'],
        seq!['r', 'e', 'l', 'a', 't', 'i', 'v', 'e', '_', 's', 'e', 'q', 'u', 'e', 'n', 'c', 'e', '_', 'n', 'u', 'm', 'b', 'e', 'r'],
        seq!['r', 'e', 'l', 'e', 'a', 's', 'e', '_', 'y', 'e', 'a', 'r'],
        seq!['r', 'e', 'l', 'e', 'a', 's', 'e', '_', 'm', 'o', 'n', 't', 'h'],
        seq!['r', 'e', 'l', 'e', 'a', 's', 'e', '_', 'd', 'a', 'y'],
    ]
}

/// What each placeholder of [`template_names`] is filled with: `{title}` the title, `{audio}` the
/// audio tags, `{resolution}` width `x` height, `{series_id}` and `{series_name}` the series' id
/// and name, `{season_id}` and `{season_name}` the season's id and title, `{season_number}`
/// the season number, `{episode_id}` and `{episode_number}` the episode's id and number,
/// `{relative_episode_number}` the number within the season, `{width}` and `{height}` the
/// sizes, `{sequence_number}` and `{relative_sequence_number}` the sequence numbers, and the
/// release date's year, month and day; numbers padded to two digits but for sizes and the year,
/// each value made safe as a file name where asked.
pub open spec fn template_values(f: Format, sanitize: bool) -> Seq<Seq<char>> {
    seq![
        cleaned(f.title@, sanitize),
        cleaned(audio_tags(f.locales@), sanitize),
        cleaned(decimal(f.resolution.width as nat) + "x"@ + decimal(f.resolution.height as nat), sanitize),
        cleaned(f.series_id@, sanitize),
        cleaned(f.series_name@, sanitize),
        cleaned(f.season_id@, sanitize),
        cleaned(f.season_title@, sanitize),
        cleaned(zero_pad(decimal(f.season_number as nat), 2), sanitize),
        cleaned(f.episode_id@, sanitize),
        cleaned(zero_pad(f.episode_number@, 2), sanitize),
        cleaned(zero_pad(decimal(match f.relative_episode_number { Some(n) => n as nat, None => 0 }), 2), sanitize),
        cleaned(decimal(f.resolution.width as nat), sanitize),
        cleaned(decimal(f.resolution.height as nat), sanitize),
        cleaned(zero_pad(thousandths_text(f.sequence_number as int), 2), sanitize),
        cleaned(zero_pad(thousandths_text(match f.relative_sequence_number { Some(n) => n as int, None => 0 }), 2), sanitize),
        cleaned(decimal(f.release_year as nat), sanitize),
        cleaned(zero_pad(decimal(f.release_month as nat), 2), sanitize),
        cleaned(zero_pad(decimal(f.release_day as nat), 2), sanitize),
    ]
}

/// The template `s` with the first `n` placeholders of `names` replaced, in order, by `values`.
pub open spec fn fill(s: Seq<char>, names: Seq<Seq<char>>, values: Seq<Seq<char>>, n: nat) -> Seq<char>
    decreases n,
{
    if n == 0 {
        s
    } else {
        replace_all(fill(s, names, values, (n - 1) as nat), placeholder(names[n - 1]), values[n - 1])
    }
}

proof fn lemma_template_names()
    ensures
        template_names().len() == 18,
        forall|i: int| 0 <= i < 18 ==> brace_free(#[trigger] template_names()[i]),
        forall|i: int, j: int| 0 <= i < 18 && 0 <= j < 18 && i != j ==> template_names()[i] != template_names()[j],
{
    let n = template_names();
    assert forall|i: int| 0 <= i < 18 implies brace_free(#[trigger] template_names()[i]) by {
        if i == 0 { assert(brace_free(n[0])); }
        if i == 1 { assert(brace_free(n[1])); }
        if i == 2 { assert(brace_free(n[2])); }
        if i == 3 { assert(brace_free(n[3])); }
        if i == 4 { assert(brace_free(n[4])); }
        if i == 5 { assert(brace_free(n[5])); }
        if i == 6 { assert(brace_free(n[6])); }
        if i == 7 { assert(brace_free(n[7])); }
        if i == 8 { assert(brace_free(n[8])); }
        if i == 9 { assert(brace_free(n[9])); }
        if i == 10 { assert(brace_free(n[10])); }
        if i == 11 { assert(brace_free(n[11])); }
        if i == 12 { assert(brace_free(n[12])); }
        if i == 13 { assert(brace_free(n[13])); }
        if i == 14 { assert(brace_free(n[14])); }
        if i == 15 { assert(brace_free(n[15])); }
        if i == 16 { assert(brace_free(n[16])); }
        if i == 17 { assert(brace_free(n[17])); }
    }
    assert forall|i: int, j: int| 0 <= i < 18 && 0 <= j < 18 && i != j implies n[i] != n[j] by {
        if i == 0 {
            if j == 1 { assert(n[0][0] != n[1][0]); } else if j == 2 { assert(n[0].len() != n[2].len()); } else if j == 3 { assert(n[0].len() != n[3].len()); } else if j == 4 { assert(n[0].len() != n[4].len()); } else if j == 5 { assert(n[0].len() != n[5].len()); } else if j == 6 { assert(n[0].len() != n[6].len()); } else if j == 7 { assert(n[0].len() != n[7].len()); } else if j == 8 { assert(n[0].len() != n[8].len()); } else if j == 9 { assert(n[0].len() != n[9].len()); } else if j == 10 { assert(n[0].len() != n[10].len()); } else if j == 11 { assert(n[0][0] != n[11][0]); } else if j == 12 { assert(n[0].len() != n[12].len()); } else if j == 13 { assert(n[0].len() != n[13].len()); } else if j == 14 { assert(n[0].len() != n[14].len()); } else if j == 15 { assert(n[0].len() != n[15].len()); } else if j == 16 { assert(n[0].len() != n[16].len()); } else if j == 17 { assert(n[0].len() != n[17].len()); }
        }
        if i == 1 {
            if j == 0 { assert(n[1][0] != n[0][0]); } else if j == 2 { assert(n[1].len() != n[2].len()); } else if j == 3 { assert(n[1].len() != n[3].len()); } else if j == 4 { assert(n[1].len() != n[4].len()); } else if j == 5 { assert(n[1].len() != n[5].len()); } else if j == 6 { assert(n[1].len() != n[6].len()); } else if j == 7 { assert(n[1].len() != n[7].len()); } else if j == 8 { assert(n[1].len() != n[8].len()); } else if j == 9 { assert(n[1].len() != n[9].len()); } else if j == 10 { assert(n[1].len() != n[10].len()); } else if j == 11 { assert(n[1][0] != n[11][0]); } else if j == 12 { assert(n[1].len() != n[12].len()); } else if j == 13 { assert(n[1].len() != n[13].len()); } else if j == 14 { assert(n[1].len() != n[14].len()); } else if j == 15 { assert(n[1].len() != n[15].len()); } else if j == 16 { assert(n[1].len() != n[16].len()); } else if j == 17 { assert(n[1].len() != n[17].len()); }
        }
        if i == 2 {
            if j == 0 { assert(n[2].len() != n[0].len()); } else if j == 1 { assert(n[2].len() != n[1].len()); } else if j == 3 { assert(n[2].len() != n[3].len()); } else if j == 4 { assert(n[2].len() != n[4].len()); } else if j == 5 { assert(n[2].len() != n[5].len()); } else if j == 6 { assert(n[2].len() != n[6].len()); } else if j == 7 { assert(n[2].len() != n[7].len()); } else if j == 8 { assert(n[2][0] != n[8][0]); } else if j == 9 { assert(n[2].len() != n[9].len()); } else if j == 10 { assert(n[2].len() != n[10].len()); } else if j == 11 { assert(n[2].len() != n[11].len()); } else if j == 12 { assert(n[2].len() != n[12].len()); } else if j == 13 { assert(n[2].len() != n[13].len()); } else if j == 14 { assert(n[2].len() != n[14].len()); } else if j == 15 { assert(n[2].len() != n[15].len()); } else if j == 16 { assert(n[2].len() != n[16].len()); } else if j == 17 { assert(n[2].len() != n[17].len()); }
        }
        if i == 3 {
            if j == 0 { assert(n[3].len() != n[0].len()); } else if j == 1 { assert(n[3].len() != n[1].len()); } else if j == 2 { assert(n[3].len() != n[2].len()); } else if j == 4 { assert(n[3].len() != n[4].len()); } else if j == 5 { assert(n[3][2] != n[5][2]); } else if j == 6 { assert(n[3].len() != n[6].len()); } else if j == 7 { assert(n[3].len() != n[7].len()); } else if j == 8 { assert(n[3].len() != n[8].len()); } else if j == 9 { assert(n[3].len() != n[9].len()); } else if j == 10 { assert(n[3].len() != n[10].len()); } else if j == 11 { assert(n[3].len() != n[11].len()); } else if j == 12 { assert(n[3].len() != n[12].len()); } else if j == 13 { assert(n[3].len() != n[13].len()); } else if j == 14 { assert(n[3].len() != n[14].len()); } else if j == 15 { assert(n[3].len() != n[15].len()); } else if j == 16 { assert(n[3].len() != n[16].len()); } else if j == 17 { assert(n[3].len() != n[17].len()); }
        }
        if i == 4 {
            if j == 0 { assert(n[4].len() != n[0].len()); } else if j == 1 { assert(n[4].len() != n[1].len()); } else if j == 2 { assert(n[4].len() != n[2].len()); } else if j == 3 { assert(n[4].len() != n[3].len()); } else if j == 5 { assert(n[4].len() != n[5].len()); } else if j == 6 { assert(n[4][2] != n[6][2]); } else if j == 7 { assert(n[4].len() != n[7].len()); } else if j == 8 { assert(n[4].len() != n[8].len()); } else if j == 9 { assert(n[4].len() != n[9].len()); } else if j == 10 { assert(n[4].len() != n[10].len()); } else if j == 11 { assert(n[4].len() != n[11].len()); } else if j == 12 { assert(n[4].len() != n[12].len()); } else if j == 13 { assert(n[4].len() != n[13].len()); } else if j == 14 { assert(n[4].len() != n[14].len()); } else if j == 15 { assert(n[4].len() != n[15].len()); } else if j == 16 { assert(n[4].len() != n[16].len()); } else if j == 17 { assert(n[4][0] != n[17][0]); }
        }
        if i == 5 {
            if j == 0 { assert(n[5].len() != n[0].len()); } else if j == 1 { assert(n[5].len() != n[1].len()); } else if j == 2 { assert(n[5].len() != n[2].len()); } else if j == 3 { assert(n[5][2] != n[3][2]); } else if j == 4 { assert(n[5].len() != n[4].len()); } else if j == 6 { assert(n[5].len() != n[6].len()); } else if j == 7 { assert(n[5].len() != n[7].len()); } else if j == 8 { assert(n[5].len() != n[8].len()); } else if j == 9 { assert(n[5].len() != n[9].len()); } else if j == 10 { assert(n[5].len() != n[10].len()); } else if j == 11 { assert(n[5].len() != n[11].len()); } else if j == 12 { assert(n[5].len() != n[12].len()); } else if j == 13 { assert(n[5].len() != n[13].len()); } else if j == 14 { assert(n[5].len() != n[14].len()); } else if j == 15 { assert(n[5].len() != n[15].len()); } else if j == 16 { assert(n[5].len() != n[16].len()); } else if j == 17 { assert(n[5].len() != n[17].len()); }
        }
        if i == 6 {
            if j == 0 { assert(n[6].len() != n[0].len()); } else if j == 1 { assert(n[6].len() != n[1].len()); } else if j == 2 { assert(n[6].len() != n[2].len()); } else if j == 3 { assert(n[6].len() != n[3].len()); } else if j == 4 { assert(n[6][2] != n[4][2]); } else if j == 5 { assert(n[6].len() != n[5].len()); } else if j == 7 { assert(n[6].len() != n[7].len()); } else if j == 8 { assert(n[6].len() != n[8].len()); } else if j == 9 { assert(n[6].len() != n[9].len()); } else if j == 10 { assert(n[6].len() != n[10].len()); } else if j == 11 { assert(n[6].len() != n[11].len()); } else if j == 12 { assert(n[6].len() != n[12].len()); } else if j == 13 { assert(n[6].len() != n[13].len()); } else if j == 14 { assert(n[6].len() != n[14].len()); } else if j == 15 { assert(n[6].len() != n[15].len()); } else if j == 16 { assert(n[6].len() != n[16].len()); } else if j == 17 { assert(n[6][0] != n[17][0]); }
        }
        if i == 7 {
            if j == 0 { assert(n[7].len() != n[0].len()); } else if j == 1 { assert(n[7].len() != n[1].len()); } else if j == 2 { assert(n[7].len() != n[2].len()); } else if j == 3 { assert(n[7].len() != n[3].len()); } else if j == 4 { assert(n[7].len() != n[4].len()); } else if j == 5 { assert(n[7].len() != n[5].len()); } else if j == 6 { assert(n[7].len() != n[6].len()); } else if j == 8 { assert(n[7].len() != n[8].len()); } else if j == 9 { assert(n[7].len() != n[9].len()); } else if j == 10 { assert(n[7].len() != n[10].len()); } else if j == 11 { assert(n[7].len() != n[11].len()); } else if j == 12 { assert(n[7].len() != n[12].len()); } else if j == 13 { assert(n[7].len() != n[13].len()); } else if j == 14 { assert(n[7].len() != n[14].len()); } else if j == 15 { assert(n[7].len() != n[15].len()); } else if j == 16 { assert(n[7][0] != n[16][0]); } else if j == 17 { assert(n[7].len() != n[17].len()); }
        }
        if i == 8 {
            if j == 0 { assert(n[8].len() != n[0].len()); } else if j == 1 { assert(n[8].len() != n[1].len()); } else if j == 2 { assert(n[8][0] != n[2][0]); } else if j == 3 { assert(n[8].len() != n[3].len()); } else if j == 4 { assert(n[8].len() != n[4].len()); } else if j == 5 { assert(n[8].len() != n[5].len()); } else if j == 6 { assert(n[8].len() != n[6].len()); } else if j == 7 { assert(n[8].len() != n[7].len()); } else if j == 9 { assert(n[8].len() != n[9].len()); } else if j == 10 { assert(n[8].len() != n[10].len()); } else if j == 11 { assert(n[8].len() != n[11].len()); } else if j == 12 { assert(n[8].len() != n[12].len()); } else if j == 13 { assert(n[8].len() != n[13].len()); } else if j == 14 { assert(n[8].len() != n[14].len()); } else if j == 15 { assert(n[8].len() != n[15].len()); } else if j == 16 { assert(n[8].len() != n[16].len()); } else if j == 17 { assert(n[8].len() != n[17].len()); }
        }
        if i == 9 {
            if j == 0 { assert(n[9].len() != n[0].len()); } else if j == 1 { assert(n[9].len() != n[1].len()); } else if j == 2 { assert(n[9].len() != n[2].len()); } else if j == 3 { assert(n[9].len() != n[3].len()); } else if j == 4 { assert(n[9].len() != n[4].len()); } else if j == 5 { assert(n[9].len() != n[5].len()); } else if j == 6 { assert(n[9].len() != n[6].len()); } else if j == 7 { assert(n[9].len() != n[7].len()); } else if j == 8 { assert(n[9].len() != n[8].len()); } else if j == 10 { assert(n[9].len() != n[10].len()); } else if j == 11 { assert(n[9].len() != n[11].len()); } else if j == 12 { assert(n[9].len() != n[12].len()); } else if j == 13 { assert(n[9].len() != n[13].len()); } else if j == 14 { assert(n[9].len() != n[14].len()); } else if j == 15 { assert(n[9].len() != n[15].len()); } else if j == 16 { assert(n[9].len() != n[16].len()); } else if j == 17 { assert(n[9].len() != n[17].len()); }
        }
        if i == 10 {
            if j == 0 { assert(n[10].len() != n[0].len()); } else if j == 1 { assert(n[10].len() != n[1].len()); } else if j == 2 { assert(n[10].len() != n[2].len()); } else if j == 3 { assert(n[10].len() != n[3].len()); } else if j == 4 { assert(n[10].len() != n[4].len()); } else if j == 5 { assert(n[10].len() != n[5].len()); } else if j == 6 { assert(n[10].len() != n[6].len()); } else if j == 7 { assert(n[10].len() != n[7].len()); } else if j == 8 { assert(n[10].len() != n[8].len()); } else if j == 9 { assert(n[10].len() != n[9].len()); } else if j == 11 { assert(n[10].len() != n[11].len()); } else if j == 12 { assert(n[10].len() != n[12].len()); } else if j == 13 { assert(n[10].len() != n[13].len()); } else if j == 14 { assert(n[10].len() != n[14].len()); } else if j == 15 { assert(n[10].len() != n[15].len()); } else if j == 16 { assert(n[10].len() != n[16].len()); } else if j == 17 { assert(n[10].len() != n[17].len()); }
        }
        if i == 11 {
            if j == 0 { assert(n[11][0] != n[0][0]); } else if j == 1 { assert(n[11][0] != n[1][0]); } else if j == 2 { assert(n[11].len() != n[2].len()); } else if j == 3 { assert(n[11].len() != n[3].len()); } else if j == 4 { assert(n[11].len() != n[4].len()); } else if j == 5 { assert(n[11].len() != n[5].len()); } else if j == 6 { assert(n[11].len() != n[6].len()); } else if j == 7 { assert(n[11].len() != n[7].len()); } else if j == 8 { assert(n[11].len() != n[8].len()); } else if j == 9 { assert(n[11].len() != n[9].len()); } else if j == 10 { assert(n[11].len() != n[10].len()); } else if j == 12 { assert(n[11].len() != n[12].len()); } else if j == 13 { assert(n[11].len() != n[13].len()); } else if j == 14 { assert(n[11].len() != n[14].len()); } else if j == 15 { assert(n[11].len() != n[15].len()); } else if j == 16 { assert(n[11].len() != n[16].len()); } else if j == 17 { assert(n[11].len() != n[17].len()); }
        }
        if i == 12 {
            if j == 0 { assert(n[12].len() != n[0].len()); } else if j == 1 { assert(n[12].len() != n[1].len()); } else if j == 2 { assert(n[12].len() != n[2].len()); } else if j == 3 { assert(n[12].len() != n[3].len()); } else if j == 4 { assert(n[12].len() != n[4].len()); } else if j == 5 { assert(n[12].len() != n[5].len()); } else if j == 6 { assert(n[12].len() != n[6].len()); } else if j == 7 { assert(n[12].len() != n[7].len()); } else if j == 8 { assert(n[12].len() != n[8].len()); } else if j == 9 { assert(n[12].len() != n[9].len()); } else if j == 10 { assert(n[12].len() != n[10].len()); } else if j == 11 { assert(n[12].len() != n[11].len()); } else if j == 13 { assert(n[12].len() != n[13].len()); } else if j == 14 { assert(n[12].len() != n[14].len()); } else if j == 15 { assert(n[12].len() != n[15].len()); } else if j == 16 { assert(n[12].len() != n[16].len()); } else if j == 17 { assert(n[12].len() != n[17].len()); }
        }
        if i == 13 {
            if j == 0 { assert(n[13].len() != n[0].len()); } else if j == 1 { assert(n[13].len() != n[1].len()); } else if j == 2 { assert(n[13].len() != n[2].len()); } else if j == 3 { assert(n[13].len() != n[3].len()); } else if j == 4 { assert(n[13].len() != n[4].len()); } else if j == 5 { assert(n[13].len() != n[5].len()); } else if j == 6 { assert(n[13].len() != n[6].len()); } else if j == 7 { assert(n[13].len() != n[7].len()); } else if j == 8 { assert(n[13].len() != n[8].len()); } else if j == 9 { assert(n[13].len() != n[9].len()); } else if j == 10 { assert(n[13].len() != n[10].len()); } else if j == 11 { assert(n[13].len() != n[11].len()); } else if j == 12 { assert(n[13].len() != n[12].len()); } else if j == 14 { assert(n[13].len() != n[14].len()); } else if j == 15 { assert(n[13].len() != n[15].len()); } else if j == 16 { assert(n[13].len() != n[16].len()); } else if j == 17 { assert(n[13].len() != n[17].len()); }
        }
        if i == 14 {
            if j == 0 { assert(n[14].len() != n[0].len()); } else if j == 1 { assert(n[14].len() != n[1].len()); } else if j == 2 { assert(n[14].len() != n[2].len()); } else if j == 3 { assert(n[14].len() != n[3].len()); } else if j == 4 { assert(n[14].len() != n[4].len()); } else if j == 5 { assert(n[14].len() != n[5].len()); } else if j == 6 { assert(n[14].len() != n[6].len()); } else if j == 7 { assert(n[14].len() != n[7].len()); } else if j == 8 { assert(n[14].len() != n[8].len()); } else if j == 9 { assert(n[14].len() != n[9].len()); } else if j == 10 { assert(n[14].len() != n[10].len()); } else if j == 11 { assert(n[14].len() != n[11].len()); } else if j == 12 { assert(n[14].len() != n[12].len()); } else if j == 13 { assert(n[14].len() != n[13].len()); } else if j == 15 { assert(n[14].len() != n[15].len()); } else if j == 16 { assert(n[14].len() != n[16].len()); } else if j == 17 { assert(n[14].len() != n[17].len()); }
        }
        if i == 15 {
            if j == 0 { assert(n[15].len() != n[0].len()); } else if j == 1 { assert(n[15].len() != n[1].len()); } else if j == 2 { assert(n[15].len() != n[2].len()); } else if j == 3 { assert(n[15].len() != n[3].len()); } else if j == 4 { assert(n[15].len() != n[4].len()); } else if j == 5 { assert(n[15].len() != n[5].len()); } else if j == 6 { assert(n[15].len() != n[6].len()); } else if j == 7 { assert(n[15].len() != n[7].len()); } else if j == 8 { assert(n[15].len() != n[8].len()); } else if j == 9 { assert(n[15].len() != n[9].len()); } else if j == 10 { assert(n[15].len() != n[10].len()); } else if j == 11 { assert(n[15].len() != n[11].len()); } else if j == 12 { assert(n[15].len() != n[12].len()); } else if j == 13 { assert(n[15].len() != n[13].len()); } else if j == 14 { assert(n[15].len() != n[14].len()); } else if j == 16 { assert(n[15].len() != n[16].len()); } else if j == 17 { assert(n[15].len() != n[17].len()); }
        }
        if i == 16 {
            if j == 0 { assert(n[16].len() != n[0].len()); } else if j == 1 { assert(n[16].len() != n[1].len()); } else if j == 2 { assert(n[16].len() != n[2].len()); } else if j == 3 { assert(n[16].len() != n[3].len()); } else if j == 4 { assert(n[16].len() != n[4].len()); } else if j == 5 { assert(n[16].len() != n[5].len()); } else if j == 6 { assert(n[16].len() != n[6].len()); } else if j == 7 { assert(n[16][0] != n[7][0]); } else if j == 8 { assert(n[16].len() != n[8].len()); } else if j == 9 { assert(n[16].len() != n[9].len()); } else if j == 10 { assert(n[16].len() != n[10].len()); } else if j == 11 { assert(n[16].len() != n[11].len()); } else if j == 12 { assert(n[16].len() != n[12].len()); } else if j == 13 { assert(n[16].len() != n[13].len()); } else if j == 14 { assert(n[16].len() != n[14].len()); } else if j == 15 { assert(n[16].len() != n[15].len()); } else if j == 17 { assert(n[16].len() != n[17].len()); }
        }
        if i == 17 {
            if j == 0 { assert(n[17].len() != n[0].len()); } else if j == 1 { assert(n[17].len() != n[1].len()); } else if j == 2 { assert(n[17].len() != n[2].len()); } else if j == 3 { assert(n[17].len() != n[3].len()); } else if j == 4 { assert(n[17][0] != n[4][0]); } else if j == 5 { assert(n[17].len() != n[5].len()); } else if j == 6 { assert(n[17][0] != n[6][0]); } else if j == 7 { assert(n[17].len() != n[7].len()); } else if j == 8 { assert(n[17].len() != n[8].len()); } else if j == 9 { assert(n[17].len() != n[9].len()); } else if j == 10 { assert(n[17].len() != n[10].len()); } else if j == 11 { assert(n[17].len() != n[11].len()); } else if j == 12 { assert(n[17].len() != n[12].len()); } else if j == 13 { assert(n[17].len() != n[13].len()); } else if j == 14 { assert(n[17].len() != n[14].len()); } else if j == 15 { assert(n[17].len() != n[15].len()); } else if j == 16 { assert(n[17].len() != n[16].len()); }
        }
    }
}

proof fn lemma_fill_is_formatted_path(f: Format, path: Seq<char>, sanitize: bool)
    ensures
        formatted_path(f, path, sanitize) == fill(path, template_names(), template_values(f, sanitize), 18),
{
    reveal_strlit("{");
    reveal_strlit("}");
    reveal_strlit("{title}");
    reveal_strlit("{audio}");
    reveal_strlit("{resolution}");
    reveal_strlit("{series_id}");
    reveal_strlit("{series_name}");
    reveal_strlit("{season_id}");
    reveal_strlit("{season_name}");
    reveal_strlit("{season_number}");
    reveal_strlit("{episode_id}");
    reveal_strlit("{episode_number}");
    reveal_strlit("{relative_episode_number}");
    reveal_strlit("{width}");
    reveal_strlit("{height}");
    reveal_strlit("{sequence_number}");
    reveal_strlit("{relative_sequence_number}");
    reveal_strlit("{release_year}");
    reveal_strlit("{release_month}");
    reveal_strlit("{release_day}");
    let nm = template_names();
    let v = template_values(f, sanitize);
    assert("{title}"@ =~= placeholder(nm[0]));
    assert("{audio}"@ =~= placeholder(nm[1]));
    assert("{resolution}"@ =~= placeholder(nm[2]));
    assert("{series_id}"@ =~= placeholder(nm[3]));
    assert("{series_name}"@ =~= placeholder(nm[4]));
    assert("{season_id}"@ =~= placeholder(nm[5]));
    assert("{season_name}"@ =~= placeholder(nm[6]));
    assert("{season_number}"@ =~= placeholder(nm[7]));
    assert("{episode_id}"@ =~= placeholder(nm[8]));
    assert("{episode_number}"@ =~= placeholder(nm[9]));
    assert("{relative_episode_number}"@ =~= placeholder(nm[10]));
    assert("{width}"@ =~= placeholder(nm[11]));
    assert("{height}"@ =~= placeholder(nm[12]));
    assert("{sequence_number}"@ =~= placeholder(nm[13]));
    assert("{relative_sequence_number}"@ =~= placeholder(nm[14]));
    assert("{release_year}"@ =~= placeholder(nm[15]));
    assert("{release_month}"@ =~= placeholder(nm[16]));
    assert("{release_day}"@ =~= placeholder(nm[17]));
    assert(fill(path, nm, v, 1) == replace_all(fill(path, nm, v, 0), "{title}"@, v[0]));
    assert(fill(path, nm, v, 2) == replace_all(fill(path, nm, v, 1), "{audio}"@, v[1]));
    assert(fill(path, nm, v, 3) == replace_all(fill(path, nm, v, 2), "{resolution}"@, v[2]));
    assert(fill(path, nm, v, 4) == replace_all(fill(path, nm, v, 3), "{series_id}"@, v[3]));
    assert(fill(path, nm, v, 5) == replace_all(fill(path, nm, v, 4), "{series_name}"@, v[4]));
    assert(fill(path, nm, v, 6) == replace_all(fill(path, nm, v, 5), "{season_id}"@, v[5]));
    assert(fill(path, nm, v, 7) == replace_all(fill(path, nm, v, 6), "{season_name}"@, v[6]));
    assert(fill(path, nm, v, 8) == replace_all(fill(path, nm, v, 7), "{season_number}"@, v[7]));
    assert(fill(path, nm, v, 9) == replace_all(fill(path, nm, v, 8), "{episode_id}"@, v[8]));
    assert(fill(path, nm, v, 10) == replace_all(fill(path, nm, v, 9), "{episode_number}"@, v[9]));
    assert(fill(path, nm, v, 11) == replace_all(fill(path, nm, v, 10), "{relative_episode_number}"@, v[10]));
    assert(fill(path, nm, v, 12) == replace_all(fill(path, nm, v, 11), "{width}"@, v[11]));
    assert(fill(path, nm, v, 13) == replace_all(fill(path, nm, v, 12), "{height}"@, v[12]));
    assert(fill(path, nm, v, 14) == replace_all(fill(path, nm, v, 13), "{sequence_number}"@, v[13]));
    assert(fill(path, nm, v, 15) == replace_all(fill(path, nm, v, 14), "{relative_sequence_number}"@, v[14]));
    assert(fill(path, nm, v, 16) == replace_all(fill(path, nm, v, 15), "{release_year}"@, v[15]));
    assert(fill(path, nm, v, 17) == replace_all(fill(path, nm, v, 16), "{release_month}"@, v[16]));
    assert(fill(path, nm, v, 18) == replace_all(fill(path, nm, v, 17), "{release_day}"@, v[17]));
}

proof fn lemma_fill_one(
    pre: Seq<char>,
    post: Seq<char>,
    names: Seq<Seq<char>>,
    values: Seq<Seq<char>>,
    k: int,
    n: nat,
)
    requires
        0 <= k < names.len(),
        n <= names.len(),
        values.len() == names.len(),
        forall|j: int| 0 <= j < names.len() ==> brace_free(#[trigger] names[j]),
        forall|j: int| 0 <= j < names.len() && j != k ==> names[j] != names[k],
        no_open_brace(pre),
        no_open_brace(post),
        no_open_brace(values[k]),
    ensures
        fill(pre + placeholder(names[k]) + post, names, values, n) == if n <= k {
            pre + placeholder(names[k]) + post
        } else {
            pre + values[k] + post
        },
    decreases n,
{
    reveal_strlit("{");
    assert("{"@[0] == '{');
    let s = pre + placeholder(names[k]) + post;
    if n > 0 {
        lemma_fill_one(pre, post, names, values, k, (n - 1) as nat);
        let j = n - 1;
        let q = placeholder(names[j]);
        assert(q[0] == '{');
        if j < k {
            lemma_replace_other(pre, names[k], names[j], post, values[j]);
        } else if j == k {
            assert(s == pre + placeholder(names[k]) + post);
            assert(pre + placeholder(names[k]) + post =~= (pre + placeholder(names[k])) + post);
            lemma_replace_one(pre, q, post, values[k]);
        } else {
            let t = pre + values[k] + post;
            assert forall|i: int| 0 <= i < t.len() implies t[i] != '{' by {
                if i < pre.len() {
                    assert(t[i] == pre[i]);
                } else if i < pre.len() + values[k].len() {
                    assert(t[i] == values[k][i - pre.len()]);
                } else {
                    assert(t[i] == post[i - pre.len() - values[k].len()]);
                }
            }
            lemma_replace_keeps_plain(t, q, values[j]);
        }
    }
}

/// Every placeholder of an output path template is filled with its own value (see
/// [`template_names`] and [`template_values`]) and nothing else: a template made of text without
/// `{` around one placeholder becomes that text around the placeholder's value, where the value
/// holds no `{` itself.
pub proof fn lemma_template_placeholder_filled(f: Format, pre: Seq<char>, post: Seq<char>, k: int, sanitize: bool)
    requires
        0 <= k < template_names().len(),
        no_open_brace(pre),
        no_open_brace(post),
        no_open_brace(template_values(f, sanitize)[k]),
    ensures
        formatted_path(f, pre + placeholder(template_names()[k]) + post, sanitize) == pre + template_values(f, sanitize)[k]
            + post,
{
    lemma_template_names();
    lemma_fill_is_formatted_path(f, pre + placeholder(template_names()[k]) + post, sanitize);
    lemma_fill_one(pre, post, template_names(), template_values(f, sanitize), k, template_names().len());
}

/// `{season_name}` is filled with the title of the season (made safe as a file name where
/// asked), whatever surrounds it.
pub proof fn lemma_season_name_is_the_season_title(f: Format, pre: Seq<char>, post: Seq<char>, sanitize: bool)
    requires
        no_open_brace(pre),
        no_open_brace(post),
        no_open_brace(cleaned(f.season_title@, sanitize)),
    ensures
        formatted_path(f, pre + "{season_name}"@ + post, sanitize) == pre + cleaned(f.season_title@, sanitize) + post,
{
    reveal_strlit("{");
    reveal_strlit("}");
    reveal_strlit("{season_name}");
    assert("{season_name}"@ =~= placeholder(template_names()[6]));
    lemma_template_placeholder_filled(f, pre, post, 6, sanitize);
}

} // verus!
