//! Fixes applied to downloaded subtitles (in the ASS format) before they are merged.
use vstd::prelude::*;
use vstd::utf8::{valid_utf8, decode_utf8, encode_utf8};
use crate::text::{chars_of, string_from, trim, trim_vec, is_space, is_whitespace, occurs_at, occurs_at_exec, digit_char,
    slice_vec};
use crate::command::{digits_end, digits_end_exec};
use chrono::Timelike;

verus! {

broadcast use vstd::string::group_string_axioms;

/// The text that bytes read as, with every invalid UTF-8 sequence replaced by `U+FFFD`, as
/// `String::from_utf8_lossy` gives it.
pub uninterp spec fn lossy_utf8(bytes: Seq<u8>) -> Seq<char>;

/// Calls `String::from_utf8_lossy`. Its documentation says it decodes the bytes as UTF-8,
/// replacing invalid sequences by `U+FFFD`, and gives the text unchanged where the bytes are valid
/// UTF-8; the contract names the result and states the second part.
#[verifier::external_body]
fn from_utf8_lossy(bytes: &Vec<u8>) -> (r: String)
    ensures
        r@ == lossy_utf8(bytes@),
        valid_utf8(bytes@) ==> r@ == decode_utf8(bytes@),
{
    String::from_utf8_lossy(bytes.as_slice()).to_string()
}

/// The pieces of `s` between the characters `c` (`str::split`).
pub open spec fn split_on(s: Seq<char>, c: char) -> Seq<Seq<char>>
    decreases s.len(),
{
    if s.len() == 0 {
        seq![Seq::empty()]
    } else {
        let r = split_on(s.drop_last(), c);
        if s.last() == c {
            r.push(Seq::empty())
        } else {
            r.drop_last().push(r.last().push(s.last()))
        }
    }
}

/// The subtitle lines with the scaling line added: right before the first section header (a
/// line starting with `[`) that follows the `[Script Info]` header, every line ended by a line
/// feed. Gives the text and whether a `[Script Info]` section is still open.
pub open spec fn scaled_lines(lines: Seq<Seq<char>>) -> (Seq<char>, bool)
    decreases lines.len(),
{
    if lines.len() == 0 {
        (Seq::empty(), false)
    } else {
        let (out, script_info) = scaled_lines(lines.drop_last());
        let line = lines.last();
        let t = trim(line);
        if t.len() > 0 && t[0] == '[' && script_info {
            (out + "ScaledBorderAndShadows: yes\n"@ + line + "\n"@, false)
        } else if t == "[Script Info]"@ {
            (out + line + "\n"@, true)
        } else {
            (out + line + "\n"@, script_info)
        }
    }
}

/// The subtitle `raw` with `ScaledBorderAndShadows: yes` added to its script information; without
/// it subtitles look very messy on some players.
pub open spec fn look_and_feel_fixed(raw: Seq<u8>) -> Seq<u8> {
    encode_utf8(scaled_lines(split_on(lossy_utf8(raw), '\n')).0)
}

fn split_lines(v: &Vec<char>) -> (r: Vec<Vec<char>>)
    ensures
        r@.map_values(|t: Vec<char>| t@) == split_on(v@, '\n'),
{
    let mut done: Vec<Vec<char>> = Vec::new();
    let mut cur: Vec<char> = Vec::new();
    let mut i: usize = 0;
    assert(v@.subrange(0, 0) =~= Seq::<char>::empty());
    assert(done@.map_values(|t: Vec<char>| t@).push(cur@) =~= split_on(v@.subrange(0, 0), '\n'));
    while i < v.len()
        invariant
            i <= v@.len(),
            done@.map_values(|t: Vec<char>| t@).push(cur@) == split_on(v@.subrange(0, i as int), '\n'),
        decreases v@.len() - i,
    {
        let ghost pre = v@.subrange(0, i as int);
        assert(v@.subrange(0, i + 1).drop_last() =~= pre);
        if v[i] == '\n' {
            let old_cur = cur;
            cur = Vec::new();
            done.push(old_cur);
            assert(done@.map_values(|t: Vec<char>| t@) =~= split_on(pre, '\n'));
        } else {
            cur.push(v[i]);
            assert(done@.map_values(|t: Vec<char>| t@) =~= split_on(pre, '\n').drop_last());
        }
        i = i + 1;
        assert(done@.map_values(|t: Vec<char>| t@).push(cur@) =~= split_on(v@.subrange(0, i as int), '\n'));
    }
    done.push(cur);
    assert(v@.subrange(0, v@.len() as int) =~= v@);
    done
}

/// The bytes of a string (its UTF-8 encoding).
fn bytes_of(s: &String) -> (r: Vec<u8>)
    ensures
        r@ == encode_utf8(s@),
{
    let b = s.as_str().as_bytes();
    let mut r: Vec<u8> = Vec::new();
    let mut i: usize = 0;
    while i < b.len()
        invariant
            i <= b@.len(),
            b@ == encode_utf8(s@),
            r@ == b@.subrange(0, i as int),
        decreases b@.len() - i,
    {
        r.push(b[i]);
        i = i + 1;
        assert(r@ =~= b@.subrange(0, i as int));
    }
    assert(b@.subrange(0, b@.len() as int) =~= b@);
    r
}

/// Adds `ScaledBorderAndShadows: yes` to the script information of a subtitle (see
/// [`look_and_feel_fixed`]).
pub fn fix_subtitle_look_and_feel(raw: Vec<u8>) -> (r: Vec<u8>)
    ensures
        r@ == look_and_feel_fixed(raw@),
        valid_utf8(raw@) ==> lossy_utf8(raw@) == decode_utf8(raw@),
{
    let text = from_utf8_lossy(&raw);
    let lines = split_lines(&chars_of(text.as_str()));
    let ghost lv = lines@.map_values(|t: Vec<char>| t@);
    let mut script_info = false;
    let mut new = String::new();
    let mut i: usize = 0;
    assert(lv.subrange(0, 0) =~= Seq::<Seq<char>>::empty());
    while i < lines.len()
        invariant
            i <= lines@.len(),
            lv == lines@.map_values(|t: Vec<char>| t@),
            (new@, script_info) == scaled_lines(lv.subrange(0, i as int)),
        decreases lines@.len() - i,
    {
        assert(lv.subrange(0, i + 1).drop_last() =~= lv.subrange(0, i as int));
        assert(lv[i as int] == lines@[i as int]@);
        let line = &lines[i];
        let t = trim_vec(line);
        if t.len() > 0 && t[0] == '[' && script_info {
            new.append("ScaledBorderAndShadows: yes\n");
            script_info = false;
        } else if crate::text::vec_eq_str(&t, "[Script Info]") {
            script_info = true;
        }
        new.append(string_from(line).as_str());
        new.append("\n");
        i = i + 1;
    }
    assert(lv.subrange(0, lv.len() as int) =~= lv);
    bytes_of(&new)
}

/// A time of day as the time type of `chrono` holds it: seconds since midnight and nanoseconds
/// (from one billion on during a leap second).
pub open spec fn valid_time(t: (u32, u32)) -> bool {
    t.0 < 86_400 && t.1 < 2_000_000_000
}

/// The time of day that `text` reads as under the `chrono` format `format`, if it is one.
pub uninterp spec fn parsed_time(text: Seq<char>, format: Seq<char>) -> Option<(u32, u32)>;

/// Calls `chrono::NaiveTime::parse_from_str`, which reads a time of day by a format of
/// `strftime` directives. The contract names the result, as seconds since midnight and
/// nanoseconds, and states that it is a valid time (the type allows no other); how the directives
/// read text is left unsaid.
#[verifier::external_body]
fn parse_time(text: &str, format: &str) -> (r: Option<(u32, u32)>)
    ensures
        r == parsed_time(text@, format@),
        r matches Some(t) ==> valid_time(t),
{
    chrono::NaiveTime::parse_from_str(text, format).ok().map(|t| (t.num_seconds_from_midnight(), t.nanosecond()))
}

/// Whether time `a` comes before time `b`.
pub open spec fn time_before(a: (u32, u32), b: (u32, u32)) -> bool {
    a.0 < b.0 || (a.0 == b.0 && a.1 < b.1)
}

/// A number below 100 written with two digits.
pub open spec fn two_digits(n: nat) -> Seq<char> {
    seq![digit_char(n / 10), digit_char(n % 10)]
}

/// A time as `HH:MM:SS.cc` (hours, minutes and seconds as the `%T` directive of `chrono` writes
/// them, then the first two digits of the nine that `%f` writes for the nanoseconds).
pub open spec fn time_text(t: (u32, u32)) -> Seq<char> {
    two_digits(t.0 as nat / 3600) + ":"@ + two_digits(t.0 as nat / 60 % 60) + ":"@ + two_digits(
        t.0 as nat % 60 + t.1 as nat / 1_000_000_000,
    ) + "."@ + two_digits(t.1 as nat % 1_000_000_000 / 10_000_000)
}

fn push_two_digits(s: &mut String, n: u32)
    requires
        n < 100,
    ensures
        final(s)@ == old(s)@ + two_digits(n as nat),
{
    let tens = crate::text::decimal_exec((n / 10) as u64);
    let ones = crate::text::decimal_exec((n % 10) as u64);
    proof {
        reveal_with_fuel(crate::text::decimal, 2);
    }
    s.append(string_from(&tens).as_str());
    s.append(string_from(&ones).as_str());
}

/// Writes a time as `HH:MM:SS.cc` (see [`time_text`]).
pub fn format_time(t: (u32, u32)) -> (r: String)
    requires
        valid_time(t),
    ensures
        r@ == time_text(t),
{
    let mut s = String::new();
    push_two_digits(&mut s, t.0 / 3600);
    s.append(":");
    push_two_digits(&mut s, t.0 / 60 % 60);
    s.append(":");
    push_two_digits(&mut s, t.0 % 60 + t.1 / 1_000_000_000);
    s.append(".");
    push_two_digits(&mut s, t.1 % 1_000_000_000 / 10_000_000);
    proof {
        reveal_strlit("");
        reveal_strlit(":");
        reveal_strlit(".");
    }
    s
}

/// The end of a time `<digits>:<digits>:<digits>.<digits>` that starts at `p`, if one does.
pub open spec fn time_end(l: Seq<char>, p: int) -> Option<int> {
    let a = digits_end(l, p);
    let b = digits_end(l, a + 1);
    let c = digits_end(l, b + 1);
    let d = digits_end(l, c + 1);
    if 0 <= p && a > p && a < l.len() && l[a] == ':' && b > a + 1 && b < l.len() && l[b] == ':' && c > b + 1 && c
        < l.len() && l[c] == '.' && d > c + 1 {
        Some(d)
    } else {
        None
    }
}

/// The times of a dialogue line (`Dialogue:`, a white space character, a layer number, then
/// `<start>,<end>,`): the spans of its start and end time.
pub open spec fn dialogue_times(l: Seq<char>) -> Option<(int, int, int, int)> {
    let k = digits_end(l, 10);
    if occurs_at(l, "Dialogue:"@, 0) && 9 < l.len() && is_space(l[9]) && k > 10 && k < l.len() && l[k] == ',' {
        match time_end(l, k + 1) {
            Some(s) => if s < l.len() && l[s] == ',' {
                match time_end(l, s + 1) {
                    Some(e) => if e < l.len() && l[e] == ',' {
                        Some((k + 1, s, s + 1, e))
                    } else {
                        None
                    },
                    None => None,
                }
            } else {
                None
            },
            None => None,
        }
    } else {
        None
    }
}

/// The format by which the times of subtitles are read.
pub open spec fn dialogue_format() -> Seq<char> {
    "%H:%M:%S.%f"@
}

/// Whether the times of every dialogue line of `lines` can be read.
pub open spec fn times_readable(lines: Seq<Seq<char>>) -> bool {
    forall|i: int| 0 <= i < lines.len() ==> (#[trigger] dialogue_times(lines[i]) matches Some(m) ==> {
        &&& parsed_time(lines[i].subrange(m.0, m.1), dialogue_format()) is Some
        &&& parsed_time(lines[i].subrange(m.2, m.3), dialogue_format()) is Some
    })
}

/// A subtitle line under the length `max`: a dialogue that starts after it is dropped (`None`);
/// one that ends after it is cut to end there, only its end time replaced by `max`; any other line
/// stays.
pub open spec fn length_fixed_line(l: Seq<char>, max: (u32, u32)) -> Option<Seq<char>> {
    match dialogue_times(l) {
        None => Some(l),
        Some(m) => {
            let start = parsed_time(l.subrange(m.0, m.1), dialogue_format())->0;
            let end = parsed_time(l.subrange(m.2, m.3), dialogue_format())->0;
            if time_before(max, start) {
                None
            } else if time_before(max, end) {
                Some(l.subrange(0, m.2) + time_text(max) + l.subrange(m.3, l.len() as int))
            } else {
                Some(l)
            }
        },
    }
}

/// The lines under the length `max`, each kept line ended by a line feed.
pub open spec fn length_fixed_lines(lines: Seq<Seq<char>>, max: (u32, u32)) -> Seq<char>
    decreases lines.len(),
{
    if lines.len() == 0 {
        Seq::empty()
    } else {
        length_fixed_lines(lines.drop_last(), max) + match length_fixed_line(lines.last(), max) {
            Some(x) => x + "\n"@,
            None => Seq::empty(),
        }
    }
}

/// The subtitle `raw` fitted to the video length `max`: a dialogue entry long after the video
/// ends would otherwise make some players extend the video.
pub open spec fn length_fixed(raw: Seq<u8>, max: (u32, u32)) -> Seq<u8> {
    encode_utf8(length_fixed_lines(split_on(lossy_utf8(raw), '\n'), max))
}

fn time_end_exec(l: &Vec<char>, p: usize) -> (r: Option<usize>)
    requires
        p <= l@.len(),
    ensures
        match r {
            Some(d) => time_end(l@, p as int) == Some(d as int) && d <= l@.len(),
            None => time_end(l@, p as int) is None,
        },
{
    let a = digits_end_exec(l, p);
    if !(a > p && a < l.len() && l[a] == ':') {
        return None;
    }
    let b = digits_end_exec(l, a + 1);
    if !(b > a + 1 && b < l.len() && l[b] == ':') {
        return None;
    }
    let c = digits_end_exec(l, b + 1);
    if !(c > b + 1 && c < l.len() && l[c] == '.') {
        return None;
    }
    let d = digits_end_exec(l, c + 1);
    if d > c + 1 {
        Some(d)
    } else {
        None
    }
}

fn dialogue_times_exec(l: &Vec<char>) -> (r: Option<(usize, usize, usize, usize)>)
    ensures
        match r {
            Some(m) => dialogue_times(l@) == Some((m.0 as int, m.1 as int, m.2 as int, m.3 as int)) && m.0 <= m.1 < m.2
                <= m.3 < l@.len(),
            None => dialogue_times(l@) is None,
        },
{
    if !(occurs_at_exec(l, &chars_of("Dialogue:"), 0) && 9 < l.len() && is_whitespace(l[9])) {
        return None;
    }
    let k = digits_end_exec(l, 10);
    if !(k > 10 && k < l.len() && l[k] == ',') {
        return None;
    }
    let s = match time_end_exec(l, k + 1) {
        Some(s) => s,
        None => {
            return None;
        },
    };
    if !(s < l.len() && l[s] == ',') {
        return None;
    }
    let e = match time_end_exec(l, s + 1) {
        Some(e) => e,
        None => {
            return None;
        },
    };
    if !(e < l.len() && l[e] == ',') {
        return None;
    }
    Some((k + 1, s, s + 1, e))
}

/// Fits the subtitle `raw` to the video length `max` (see [`length_fixed`]). The times of its
/// dialogue lines must be readable.
pub fn fix_subtitle_length(raw: Vec<u8>, max: (u32, u32)) -> (r: Vec<u8>)
    requires
        valid_time(max),
        times_readable(split_on(lossy_utf8(raw@), '\n')),
    ensures
        r@ == length_fixed(raw@, max),
        valid_utf8(raw@) ==> lossy_utf8(raw@) == decode_utf8(raw@),
{
    let text = from_utf8_lossy(&raw);
    let lines = split_lines(&chars_of(text.as_str()));
    let ghost lv = lines@.map_values(|t: Vec<char>| t@);
    let max_text = format_time(max);
    let mut new = String::new();
    let mut i: usize = 0;
    assert(lv.subrange(0, 0) =~= Seq::<Seq<char>>::empty());
    while i < lines.len()
        invariant
            i <= lines@.len(),
            valid_time(max),
            max_text@ == time_text(max),
            lv == lines@.map_values(|t: Vec<char>| t@),
            times_readable(lv),
            new@ == length_fixed_lines(lv.subrange(0, i as int), max),
        decreases lines@.len() - i,
    {
        assert(lv.subrange(0, i + 1).drop_last() =~= lv.subrange(0, i as int));
        assert(lv[i as int] == lines@[i as int]@);
        let line = &lines[i];
        let ghost lineview = line@;
        match dialogue_times_exec(line) {
            None => {
                new.append(string_from(line).as_str());
                new.append("\n");
            },
            Some(m) => {
                assert(dialogue_times(lv[i as int]) matches Some(_));
                let st_text = string_from(&slice_vec(line, m.0, m.1));
                let en_text = string_from(&slice_vec(line, m.2, m.3));
                let fmt = "%H:%M:%S.%f";
                proof {
                    assert(fmt@ == dialogue_format());
                }
                let st = parse_time(st_text.as_str(), fmt);
                let en = parse_time(en_text.as_str(), fmt);
                match (st, en) {
                    (Some(start), Some(end)) => {
                        if max.0 < start.0 || (max.0 == start.0 && max.1 < start.1) {
                        } else if max.0 < end.0 || (max.0 == end.0 && max.1 < end.1) {
                            new.append(string_from(&slice_vec(line, 0, m.2)).as_str());
                            new.append(max_text.as_str());
                            new.append(string_from(&slice_vec(line, m.3, line.len())).as_str());
                            new.append("\n");
                        } else {
                            new.append(string_from(line).as_str());
                            new.append("\n");
                        }
                    },
                    _ => {},
                }
            },
        }
        i = i + 1;
    }
    assert(lv.subrange(0, lv.len() as int) =~= lv);
    bytes_of(&new)
}

/// Fits the subtitle `raw` to the video length `max` where the times of all its dialogue lines
/// can be read (see [`fix_subtitle_length`]); `None` where one cannot.
pub fn fix_subtitle_length_checked(raw: Vec<u8>, max: (u32, u32)) -> (r: Option<Vec<u8>>)
    requires
        valid_time(max),
    ensures
        match r {
            Some(v) => times_readable(split_on(lossy_utf8(raw@), '\n')) && v@ == length_fixed(raw@, max),
            None => !times_readable(split_on(lossy_utf8(raw@), '\n')),
        },
        valid_utf8(raw@) ==> lossy_utf8(raw@) == decode_utf8(raw@),
{
    let text = from_utf8_lossy(&raw);
    let lines = split_lines(&chars_of(text.as_str()));
    let ghost lv = lines@.map_values(|t: Vec<char>| t@);
    let fmt = "%H:%M:%S.%f";
    proof {
        assert(fmt@ == dialogue_format());
        assert(lv == split_on(lossy_utf8(raw@), '\n'));
    }
    let mut i: usize = 0;
    while i < lines.len()
        invariant
            i <= lines@.len(),
            lv == lines@.map_values(|t: Vec<char>| t@),
            lv == split_on(lossy_utf8(raw@), '\n'),
            valid_utf8(raw@) ==> lossy_utf8(raw@) == decode_utf8(raw@),
            fmt@ == dialogue_format(),
            forall|j: int| 0 <= j < i ==> (#[trigger] dialogue_times(lv[j]) matches Some(m) ==> {
                &&& parsed_time(lv[j].subrange(m.0, m.1), dialogue_format()) is Some
                &&& parsed_time(lv[j].subrange(m.2, m.3), dialogue_format()) is Some
            }),
        decreases lines@.len() - i,
    {
        assert(lv[i as int] == lines@[i as int]@);
        let line = &lines[i];
        match dialogue_times_exec(line) {
            None => {},
            Some(m) => {
                let st = parse_time(string_from(&slice_vec(line, m.0, m.1)).as_str(), fmt);
                let en = parse_time(string_from(&slice_vec(line, m.2, m.3)).as_str(), fmt);
                if st.is_none() || en.is_none() {
                    assert(!times_readable(lv)) by {
                        assert(dialogue_times(lv[i as int]) matches Some(_));
                    }
                    return None;
                }
            },
        }
        i = i + 1;
    }
    Some(fix_subtitle_length(raw, max))
}

/// The end of the time of a `Duration:` entry (a white space character, a time, a comma) that
/// starts at `p`.
pub open spec fn duration_at(s: Seq<char>, p: int) -> Option<int> {
    if 0 <= p && occurs_at(s, "Duration:"@, p) && p + 9 < s.len() && is_space(s[p + 9]) {
        match time_end(s, p + 10) {
            Some(e) => if e < s.len() && s[e] == ',' {
                Some(e)
            } else {
                None
            },
            None => None,
        }
    } else {
        None
    }
}

/// The span of the time of the first `Duration:` entry at or after `p`.
pub open spec fn first_duration(s: Seq<char>, p: int) -> Option<(int, int)>
    decreases s.len() + 1 - p,
{
    if p < 0 || p > s.len() {
        None
    } else {
        match duration_at(s, p) {
            Some(e) => Some((p + 10, e)),
            None => first_duration(s, p + 1),
        }
    }
}

/// The video length that an ffmpeg report of a file gives: the time of its first `Duration:`
/// entry, read by the format `%H:%M:%S%.f`; none where it has no such entry or the time cannot be
/// read.
pub open spec fn video_length_of(report: Seq<char>) -> Option<(u32, u32)> {
    match first_duration(report, 0) {
        Some((a, e)) => parsed_time(report.subrange(a, e), "%H:%M:%S%.f"@),
        None => None,
    }
}

/// The video length that an ffmpeg report gives (see [`video_length_of`]).
pub fn video_length(report: &str) -> (r: Option<(u32, u32)>)
    ensures
        r == video_length_of(report@),
        r matches Some(t) ==> valid_time(t),
{
    let s = chars_of(report);
    let mut p: usize = 0;
    while p < s.len()
        invariant
            p <= s@.len(),
            s@ == report@,
            first_duration(s@, 0) == first_duration(s@, p as int),
        decreases s@.len() - p,
    {
        if occurs_at_exec(&s, &chars_of("Duration:"), p) && s.len() >= 10 && p < s.len() - 9 && is_whitespace(s[p + 9]) {
            match time_end_exec(&s, p + 10) {
                Some(e) => {
                    if e < s.len() && s[e] == ',' {
                        let text = string_from(&slice_vec(&s, p + 10, e));
                        return parse_time(text.as_str(), "%H:%M:%S%.f");
                    }
                },
                None => {},
            }
        }
        p = p + 1;
    }
    proof {
        assert(duration_at(s@, p as int) is None);
        assert(first_duration(s@, p as int + 1) is None);
    }
    None
}

} // verus!
