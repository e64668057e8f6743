//! Presets that tell ffmpeg how to encode the output file.
use vstd::prelude::*;
use crate::text::{all_digits, chars_of, digit_value, digits_value, lower, lower_vec, string_from, vec_eq_str};

verus! {

broadcast use vstd::string::group_string_axioms;

/// A video codec of a preset.
#[derive(Clone, Copy, Debug, PartialEq, Eq, Structural)]
pub enum FFmpegCodec {
    H264,
    H265,
    Av1,
}

/// A hardware acceleration of a preset.
#[derive(Clone, Copy, Debug, PartialEq, Eq, Structural)]
pub enum FFmpegHwAccel {
    Nvidia,
    Apple,
}

/// A video quality of a preset.
#[derive(Clone, Copy, Debug, PartialEq, Eq, Structural)]
pub enum FFmpegQuality {
    Lossless,
    Normal,
    Low,
}

/// How the output file is encoded: a predefined preset, or custom ffmpeg output arguments.
#[derive(Clone, Debug)]
pub enum FFmpegPreset {
    Predefined(FFmpegCodec, Option<FFmpegHwAccel>, FFmpegQuality),
    Custom(Option<String>),
}

/// The name of a codec.
pub open spec fn codec_name(c: FFmpegCodec) -> Seq<char> {
    match c {
        FFmpegCodec::H264 => "h264"@,
        FFmpegCodec::H265 => "h265"@,
        FFmpegCodec::Av1 => "av1"@,
    }
}

/// The name of a hardware acceleration.
pub open spec fn hwaccel_name(h: FFmpegHwAccel) -> Seq<char> {
    match h {
        FFmpegHwAccel::Nvidia => "nvidia"@,
        FFmpegHwAccel::Apple => "apple"@,
    }
}

/// The name of a quality.
pub open spec fn quality_name(q: FFmpegQuality) -> Seq<char> {
    match q {
        FFmpegQuality::Lossless => "lossless"@,
        FFmpegQuality::Normal => "normal"@,
        FFmpegQuality::Low => "low"@,
    }
}

impl FFmpegCodec {
    /// The name of the codec.
    pub fn name(&self) -> (r: &'static str)
        ensures
            r@ == codec_name(*self),
    {
        match self {
            FFmpegCodec::H264 => "h264",
            FFmpegCodec::H265 => "h265",
            FFmpegCodec::Av1 => "av1",
        }
    }
}

impl FFmpegHwAccel {
    /// The name of the hardware acceleration.
    pub fn name(&self) -> (r: &'static str)
        ensures
            r@ == hwaccel_name(*self),
    {
        match self {
            FFmpegHwAccel::Nvidia => "nvidia",
            FFmpegHwAccel::Apple => "apple",
        }
    }
}

impl FFmpegQuality {
    /// The name of the quality.
    pub fn name(&self) -> (r: &'static str)
        ensures
            r@ == quality_name(*self),
    {
        match self {
            FFmpegQuality::Lossless => "lossless",
            FFmpegQuality::Normal => "normal",
            FFmpegQuality::Low => "low",
        }
    }
}

/// A combination of codec, optional hardware acceleration and optional quality.
pub type PresetMatch = (FFmpegCodec, Option<FFmpegHwAccel>, Option<FFmpegQuality>);

/// The combinations that presets may name: every codec alone, with each hardware acceleration it
/// supports, with each quality, and with each pair of the two; `av1` supports no hardware
/// acceleration.
pub open spec fn available() -> Seq<PresetMatch> {
    let n = Option::<FFmpegHwAccel>::None;
    let nv = Some(FFmpegHwAccel::Nvidia);
    let ap = Some(FFmpegHwAccel::Apple);
    let nq = Option::<FFmpegQuality>::None;
    let ll = Some(FFmpegQuality::Lossless);
    let no = Some(FFmpegQuality::Normal);
    let lo = Some(FFmpegQuality::Low);
    let a = FFmpegCodec::H264;
    let b = FFmpegCodec::H265;
    let c = FFmpegCodec::Av1;
    seq![
        (a, n, nq), (a, nv, nq), (a, ap, nq), (a, n, ll), (a, n, no), (a, n, lo),
        (a, nv, ll), (a, nv, no), (a, nv, lo), (a, ap, ll), (a, ap, no), (a, ap, lo),
        (b, n, nq), (b, nv, nq), (b, ap, nq), (b, n, ll), (b, n, no), (b, n, lo),
        (b, nv, ll), (b, nv, no), (b, nv, lo), (b, ap, ll), (b, ap, no), (b, ap, lo),
        (c, n, nq), (c, n, ll), (c, n, no), (c, n, lo),
    ]
}

/// The description of a combination, e.g. `h264 encoded with nvidia hardware acceleration and
/// lossless video quality/compression`.
pub open spec fn description(m: PresetMatch) -> Seq<char> {
    let c = codec_name(m.0);
    match (m.1, m.2) {
        (None, None) => c + " encoded with default video quality/compression"@,
        (Some(h), None) => c + " encoded with "@ + hwaccel_name(h) + " hardware acceleration"@,
        (None, Some(q)) => c + " encoded with "@ + quality_name(q) + " video quality/compression"@,
        (Some(h), Some(q)) => c + " encoded with "@ + hwaccel_name(h) + " hardware acceleration"@ + " and "@
            + quality_name(q) + " video quality/compression"@,
    }
}

/// The preset name of a combination: its parts joined by `-`.
pub open spec fn match_name(m: PresetMatch) -> Seq<char> {
    codec_name(m.0) + (match m.1 {
        Some(h) => "-"@ + hwaccel_name(h),
        None => Seq::empty(),
    }) + (match m.2 {
        Some(q) => "-"@ + quality_name(q),
        None => Seq::empty(),
    })
}

/// The line that describes a combination: `<name> (<description>)`.
pub open spec fn human_readable(m: PresetMatch) -> Seq<char> {
    match_name(m) + " ("@ + description(m) + ")"@
}

/// The views of a sequence of strings.
pub open spec fn strings_view(v: Seq<String>) -> Seq<Seq<char>> {
    v.map_values(|s: String| s@)
}

impl FFmpegPreset {
    /// The combinations that presets may name (see [`available`]).
    pub fn available_matches() -> (r: Vec<PresetMatch>)
        ensures
            r@ == available(),
    {
        let n: Option<FFmpegHwAccel> = None;
        let nv = Some(FFmpegHwAccel::Nvidia);
        let ap = Some(FFmpegHwAccel::Apple);
        let nq: Option<FFmpegQuality> = None;
        let ll = Some(FFmpegQuality::Lossless);
        let no = Some(FFmpegQuality::Normal);
        let lo = Some(FFmpegQuality::Low);
        let a = FFmpegCodec::H264;
        let b = FFmpegCodec::H265;
        let c = FFmpegCodec::Av1;
        let r = vec![
            (a, n, nq), (a, nv, nq), (a, ap, nq), (a, n, ll), (a, n, no), (a, n, lo),
            (a, nv, ll), (a, nv, no), (a, nv, lo), (a, ap, ll), (a, ap, no), (a, ap, lo),
            (b, n, nq), (b, nv, nq), (b, ap, nq), (b, n, ll), (b, n, no), (b, n, lo),
            (b, nv, ll), (b, nv, no), (b, nv, lo), (b, ap, ll), (b, ap, no), (b, ap, lo),
            (c, n, nq), (c, n, ll), (c, n, no), (c, n, lo),
        ];
        assert(r@ =~= available());
        r
    }

    /// One line per available combination, describing it (see [`human_readable`]).
    pub fn available_matches_human_readable() -> (r: Vec<String>)
        ensures
            r@.len() == available().len(),
            forall|i: int| 0 <= i < r@.len() ==> (#[trigger] r@[i])@ == human_readable(available()[i]),
    {
        let matches = FFmpegPreset::available_matches();
        let mut r: Vec<String> = Vec::new();
        let mut i: usize = 0;
        while i < matches.len()
            invariant
                i <= matches@.len(),
                matches@ == available(),
                r@.len() == i,
                forall|k: int| 0 <= k < i ==> (#[trigger] r@[k])@ == human_readable(available()[k]),
            decreases matches@.len() - i,
        {
            r.push(human_readable_exec(matches[i]));
            i = i + 1;
        }
        r
    }
}

fn human_readable_exec(m: PresetMatch) -> (r: String)
    ensures
        r@ == human_readable(m),
{
    let mut s = match_name_exec(m);
    s.append(" (");
    let d = description_exec(m);
    s.append(d.as_str());
    s.append(")");
    s
}

fn match_name_exec(m: PresetMatch) -> (r: String)
    ensures
        r@ == match_name(m),
{
    let (c, h, q) = m;
    let mut s = String::from_str(c.name());
    let ghost s0 = s@;
    if let Some(hh) = h {
        s.append("-");
        s.append(hh.name());
    }
    let ghost s1 = s@;
    assert(s1 =~= s0 + (match h { Some(x) => "-"@ + hwaccel_name(x), None => Seq::empty() }));
    if let Some(qq) = q {
        s.append("-");
        s.append(qq.name());
    }
    assert(s@ =~= s1 + (match q { Some(x) => "-"@ + quality_name(x), None => Seq::empty() }));
    s
}

fn description_exec(m: PresetMatch) -> (r: String)
    ensures
        r@ == description(m),
{
    let (c, h, q) = m;
    let mut s = String::from_str(c.name());
    match (h, q) {
        (None, None) => {
            s.append(" encoded with default video quality/compression");
        },
        (Some(hh), None) => {
            s.append(" encoded with ");
            s.append(hh.name());
            s.append(" hardware acceleration");
        },
        (None, Some(qq)) => {
            s.append(" encoded with ");
            s.append(qq.name());
            s.append(" video quality/compression");
        },
        (Some(hh), Some(qq)) => {
            s.append(" encoded with ");
            s.append(hh.name());
            s.append(" hardware acceleration");
            s.append(" and ");
            s.append(qq.name());
            s.append(" video quality/compression");
        },
    }
    s
}

/// Whether a character is a word character of regular expressions (`\w`), as
/// `regex_syntax::is_word_character` decides it.
pub uninterp spec fn word_char(c: char) -> bool;

/// Calls `regex_syntax::is_word_character`. Its documentation and source say it decides the
/// Unicode word class of UTS#18 (alphabetic, join control, decimal number, mark, connector
/// punctuation); the contract names that result and states the ASCII part of the class,
/// `[_0-9a-zA-Z]`. Which non-ASCII characters belong to it is left unsaid. The crate is built
/// with its default features, under which the call does not panic.
#[verifier::external_body]
pub(crate) fn is_word_character(c: char) -> (r: bool)
    ensures
        r == word_char(c),
        (c as u32) < 128 ==> (r == (c == '_' || ('0' <= c && c <= '9') || ('a' <= c && c <= 'z') || ('A' <= c
            && c <= 'Z'))),
{
    regex_syntax::is_word_character(c)
}

/// Whether a character is a word character: for ASCII `[_0-9a-zA-Z]`, otherwise as
/// [`word_char`] decides.
pub open spec fn is_word(c: char) -> bool {
    if (c as u32) < 128 {
        c == '_' || ('0' <= c && c <= '9') || ('a' <= c && c <= 'z') || ('A' <= c && c <= 'Z')
    } else {
        word_char(c)
    }
}

/// Whether `s` names a predefined preset by its shape (`^\w+(-\w+)*?$`): non-empty, made of word
/// characters and dashes, with no dash at either end and no two dashes in a row.
pub open spec fn preset_shape(s: Seq<char>) -> bool {
    &&& s.len() > 0
    &&& forall|i: int| 0 <= i < s.len() ==> (#[trigger] s[i] == '-' || is_word(s[i]))
    &&& s[0] != '-'
    &&& s.last() != '-'
    &&& forall|i: int| 0 <= i < s.len() - 1 ==> !(#[trigger] s[i] == '-' && s[i + 1] == '-')
}

/// The pieces of `s` between dashes, as `str::split('-')` yields them.
pub open spec fn dash_split(s: Seq<char>) -> Seq<Seq<char>>
    decreases s.len(),
{
    if s.len() == 0 {
        seq![Seq::empty()]
    } else {
        let r = dash_split(s.drop_last());
        if s.last() == '-' {
            r.push(Seq::empty())
        } else {
            r.drop_last().push(r.last().push(s.last()))
        }
    }
}

/// What a token of a preset name stands for.
pub enum PresetToken {
    Codec(FFmpegCodec),
    HwAccel(FFmpegHwAccel),
    Quality(FFmpegQuality),
    Unknown,
}

/// What a token stands for: the part whose name equals the lowercase token.
pub open spec fn token_kind(t: Seq<char>) -> PresetToken {
    let l = lower(t);
    if l == codec_name(FFmpegCodec::H264) {
        PresetToken::Codec(FFmpegCodec::H264)
    } else if l == codec_name(FFmpegCodec::H265) {
        PresetToken::Codec(FFmpegCodec::H265)
    } else if l == codec_name(FFmpegCodec::Av1) {
        PresetToken::Codec(FFmpegCodec::Av1)
    } else if l == hwaccel_name(FFmpegHwAccel::Nvidia) {
        PresetToken::HwAccel(FFmpegHwAccel::Nvidia)
    } else if l == hwaccel_name(FFmpegHwAccel::Apple) {
        PresetToken::HwAccel(FFmpegHwAccel::Apple)
    } else if l == quality_name(FFmpegQuality::Lossless) {
        PresetToken::Quality(FFmpegQuality::Lossless)
    } else if l == quality_name(FFmpegQuality::Normal) {
        PresetToken::Quality(FFmpegQuality::Normal)
    } else if l == quality_name(FFmpegQuality::Low) {
        PresetToken::Quality(FFmpegQuality::Low)
    } else {
        PresetToken::Unknown
    }
}

/// The parts collected from the tokens of a preset name so far.
pub type PresetParts = (Option<FFmpegCodec>, Option<FFmpegHwAccel>, Option<FFmpegQuality>);

/// One step of reading a preset name `s`: the token `t` fills its part, or names a part that is
/// already filled, or is unknown.
pub open spec fn token_step(st: PresetParts, t: Seq<char>, s: Seq<char>) -> Result<PresetParts, Seq<char>> {
    match token_kind(t) {
        PresetToken::Codec(c) => match st.0 {
            Some(cc) => Err("cannot use multiple codecs (found "@ + codec_name(cc) + " and "@ + codec_name(c) + ")"@),
            None => Ok((Some(c), st.1, st.2)),
        },
        PresetToken::HwAccel(h) => match st.1 {
            Some(hh) => Err("cannot use multiple hardware accelerations (found "@ + hwaccel_name(hh) + " and "@
                + hwaccel_name(h) + ")"@),
            None => Ok((st.0, Some(h), st.2)),
        },
        PresetToken::Quality(q) => match st.2 {
            Some(qq) => Err("cannot use multiple ffmpeg preset qualities (found "@ + quality_name(qq) + " and "@
                + quality_name(q) + ")"@),
            None => Ok((st.0, st.1, Some(q))),
        },
        PresetToken::Unknown => Err("'"@ + s + "' is not a valid ffmpeg preset (unknown token '"@ + t + "')"@),
    }
}

/// Reads the tokens `toks` of the preset name `s` in order; the first error stops the reading.
pub open spec fn read_tokens(toks: Seq<Seq<char>>, s: Seq<char>) -> Result<PresetParts, Seq<char>>
    decreases toks.len(),
{
    if toks.len() == 0 {
        Ok((None, None, None))
    } else {
        match read_tokens(toks.drop_last(), s) {
            Err(e) => Err(e),
            Ok(st) => token_step(st, toks.last(), s),
        }
    }
}

/// A preset as a value of specifications.
pub enum PresetView {
    Predefined(FFmpegCodec, Option<FFmpegHwAccel>, FFmpegQuality),
    Custom(Option<Seq<char>>),
}

impl View for FFmpegPreset {
    type V = PresetView;

    open spec fn view(&self) -> PresetView {
        match self {
            FFmpegPreset::Predefined(c, h, q) => PresetView::Predefined(*c, *h, *q),
            FFmpegPreset::Custom(o) => PresetView::Custom(
                match o {
                    Some(x) => Some(x@),
                    None => None,
                },
            ),
        }
    }
}

/// What parsing the preset text `s` gives: text of another shape is a custom preset of ffmpeg
/// output arguments; a predefined name must name a codec and an available combination, and stands
/// for the normal quality where it names none.
pub open spec fn parsed_preset(s: Seq<char>) -> Result<PresetView, Seq<char>> {
    if !preset_shape(s) {
        Ok(PresetView::Custom(Some(s)))
    } else {
        match read_tokens(dash_split(s), s) {
            Err(e) => Err(e),
            Ok((None, _, _)) => Err("cannot use ffmpeg preset with without a codec"@),
            Ok((Some(c), h, q)) => if available().contains((c, h, q)) {
                Ok(PresetView::Predefined(c, h, match q { Some(x) => x, None => FFmpegQuality::Normal }))
            } else {
                Err("ffmpeg preset is not supported"@)
            },
        }
    }
}

fn preset_shape_exec(s: &Vec<char>) -> (r: bool)
    ensures
        r == preset_shape(s@),
{
    if s.len() == 0 || s[0] == '-' || s[s.len() - 1] == '-' {
        return false;
    }
    let mut i: usize = 0;
    while i < s.len()
        invariant
            i <= s.len(),
            s.len() > 0,
            forall|j: int| 0 <= j < i ==> (#[trigger] s@[j] == '-' || is_word(s@[j])),
            forall|j: int| 0 <= j < i && j < s.len() - 1 ==> !(#[trigger] s@[j] == '-' && s@[j + 1] == '-'),
        decreases s.len() - i,
    {
        let c = s[i];
        if c != '-' && !is_word_character(c) {
            assert(!(s@[i as int] == '-' || is_word(s@[i as int])));
            return false;
        }
        if c == '-' && i + 1 < s.len() && s[i + 1] == '-' {
            assert(s@[i as int] == '-' && s@[i + 1] == '-');
            return false;
        }
        i = i + 1;
    }
    true
}

/// The pieces of `s` between dashes (see [`dash_split`]).
fn dash_split_exec(s: &Vec<char>) -> (r: Vec<Vec<char>>)
    ensures
        r@.map_values(|t: Vec<char>| t@) == dash_split(s@),
{
    let mut done: Vec<Vec<char>> = Vec::new();
    let mut cur: Vec<char> = Vec::new();
    let mut i: usize = 0;
    assert(s@.subrange(0, 0) =~= Seq::<char>::empty());
    assert(done@.map_values(|t: Vec<char>| t@).push(cur@) =~= dash_split(s@.subrange(0, 0)));
    while i < s.len()
        invariant
            i <= s.len(),
            done@.map_values(|t: Vec<char>| t@).push(cur@) == dash_split(s@.subrange(0, i as int)),
        decreases s.len() - i,
    {
        let ghost pre = s@.subrange(0, i as int);
        assert(s@.subrange(0, i + 1).drop_last() =~= pre);
        if s[i] == '-' {
            let old_cur = cur;
            cur = Vec::new();
            done.push(old_cur);
            assert(done@.map_values(|t: Vec<char>| t@) =~= dash_split(pre));
        } else {
            cur.push(s[i]);
            assert(done@.map_values(|t: Vec<char>| t@) =~= dash_split(pre).drop_last());
        }
        i = i + 1;
        assert(done@.map_values(|t: Vec<char>| t@).push(cur@) =~= dash_split(s@.subrange(0, i as int)));
    }
    done.push(cur);
    assert(s@.subrange(0, s@.len() as int) =~= s@);
    done
}

fn token_kind_exec(t: &Vec<char>) -> (r: PresetToken)
    ensures
        r == token_kind(t@),
{
    let l = lower_vec(t);
    if vec_eq_str(&l, "h264") {
        PresetToken::Codec(FFmpegCodec::H264)
    } else if vec_eq_str(&l, "h265") {
        PresetToken::Codec(FFmpegCodec::H265)
    } else if vec_eq_str(&l, "av1") {
        PresetToken::Codec(FFmpegCodec::Av1)
    } else if vec_eq_str(&l, "nvidia") {
        PresetToken::HwAccel(FFmpegHwAccel::Nvidia)
    } else if vec_eq_str(&l, "apple") {
        PresetToken::HwAccel(FFmpegHwAccel::Apple)
    } else if vec_eq_str(&l, "lossless") {
        PresetToken::Quality(FFmpegQuality::Lossless)
    } else if vec_eq_str(&l, "normal") {
        PresetToken::Quality(FFmpegQuality::Normal)
    } else if vec_eq_str(&l, "low") {
        PresetToken::Quality(FFmpegQuality::Low)
    } else {
        PresetToken::Unknown
    }
}

fn token_step_exec(st: PresetParts, t: &Vec<char>, s: &str) -> (r: Result<PresetParts, String>)
    ensures
        match r {
            Ok(x) => token_step(st, t@, s@) == Ok::<PresetParts, Seq<char>>(x),
            Err(e) => token_step(st, t@, s@) == Err::<PresetParts, Seq<char>>(e@),
        },
{
    match token_kind_exec(t) {
        PresetToken::Codec(c) => match st.0 {
            Some(cc) => {
                let mut e = String::from_str("cannot use multiple codecs (found ");
                e.append(cc.name());
                e.append(" and ");
                e.append(c.name());
                e.append(")");
                Err(e)
            },
            None => Ok((Some(c), st.1, st.2)),
        },
        PresetToken::HwAccel(h) => match st.1 {
            Some(hh) => {
                let mut e = String::from_str("cannot use multiple hardware accelerations (found ");
                e.append(hh.name());
                e.append(" and ");
                e.append(h.name());
                e.append(")");
                Err(e)
            },
            None => Ok((st.0, Some(h), st.2)),
        },
        PresetToken::Quality(q) => match st.2 {
            Some(qq) => {
                let mut e = String::from_str("cannot use multiple ffmpeg preset qualities (found ");
                e.append(qq.name());
                e.append(" and ");
                e.append(q.name());
                e.append(")");
                Err(e)
            },
            None => Ok((st.0, st.1, Some(q))),
        },
        PresetToken::Unknown => {
            let mut e = String::from_str("'");
            e.append(s);
            e.append("' is not a valid ffmpeg preset (unknown token '");
            let ts = string_from(t);
            e.append(ts.as_str());
            e.append("')");
            Err(e)
        },
    }
}

fn same_match(a: PresetMatch, b: PresetMatch) -> (r: bool)
    ensures
        r == (a == b),
{
    let c = match (a.0, b.0) {
        (FFmpegCodec::H264, FFmpegCodec::H264) => true,
        (FFmpegCodec::H265, FFmpegCodec::H265) => true,
        (FFmpegCodec::Av1, FFmpegCodec::Av1) => true,
        _ => false,
    };
    let h = match (a.1, b.1) {
        (None, None) => true,
        (Some(FFmpegHwAccel::Nvidia), Some(FFmpegHwAccel::Nvidia)) => true,
        (Some(FFmpegHwAccel::Apple), Some(FFmpegHwAccel::Apple)) => true,
        _ => false,
    };
    let q = match (a.2, b.2) {
        (None, None) => true,
        (Some(FFmpegQuality::Lossless), Some(FFmpegQuality::Lossless)) => true,
        (Some(FFmpegQuality::Normal), Some(FFmpegQuality::Normal)) => true,
        (Some(FFmpegQuality::Low), Some(FFmpegQuality::Low)) => true,
        _ => false,
    };
    c && h && q
}

fn is_available(m: PresetMatch) -> (r: bool)
    ensures
        r == available().contains(m),
{
    let all = FFmpegPreset::available_matches();
    let mut i: usize = 0;
    while i < all.len()
        invariant
            i <= all@.len(),
            all@ == available(),
            forall|j: int| 0 <= j < i ==> all@[j] != m,
        decreases all@.len() - i,
    {
        if same_match(all[i], m) {
            assert(available()[i as int] == m);
            return true;
        }
        i = i + 1;
    }
    false
}

impl FFmpegPreset {
    /// Parses a preset: a predefined name such as `h265-nvidia-lossless`, or anything else as
    /// custom ffmpeg output arguments (see [`parsed_preset`]).
    pub fn parse(s: &str) -> (r: Result<FFmpegPreset, String>)
        ensures
            match r {
                Ok(p) => parsed_preset(s@) == Ok::<PresetView, Seq<char>>(p@),
                Err(e) => parsed_preset(s@) == Err::<PresetView, Seq<char>>(e@),
            },
    {
        let v = chars_of(s);
        if !preset_shape_exec(&v) {
            return Ok(FFmpegPreset::Custom(Some(String::from_str(s))));
        }
        let toks = dash_split_exec(&v);
        let ghost tv = toks@.map_values(|t: Vec<char>| t@);
        let mut st: PresetParts = (None, None, None);
        let mut i: usize = 0;
        assert(tv.subrange(0, 0) =~= Seq::<Seq<char>>::empty());
        while i < toks.len()
            invariant
                i <= toks@.len(),
                tv == toks@.map_values(|t: Vec<char>| t@),
                tv == dash_split(s@),
                preset_shape(s@),
                read_tokens(tv.subrange(0, i as int), s@) == Ok::<PresetParts, Seq<char>>(st),
            decreases toks@.len() - i,
        {
            assert(tv.subrange(0, i + 1).drop_last() =~= tv.subrange(0, i as int));
            assert(tv[i as int] == toks@[i as int]@);
            match token_step_exec(st, &toks[i], s) {
                Ok(x) => {
                    st = x;
                },
                Err(e) => {
                    assert(read_tokens(tv.subrange(0, i + 1), s@) == Err::<PresetParts, Seq<char>>(e@));
                    assert(read_tokens(tv, s@) == Err::<PresetParts, Seq<char>>(e@)) by {
                        lemma_read_tokens_error(tv, (i + 1) as nat, s@);
                    }
                    return Err(e);
                },
            }
            i = i + 1;
        }
        assert(tv.subrange(0, tv.len() as int) =~= tv);
        match st {
            (None, _, _) => Err(String::from_str("cannot use ffmpeg preset with without a codec")),
            (Some(c), h, q) => {
                if !is_available((c, h, q)) {
                    return Err(String::from_str("ffmpeg preset is not supported"));
                }
                let quality = match q {
                    Some(x) => x,
                    None => FFmpegQuality::Normal,
                };
                Ok(FFmpegPreset::Predefined(c, h, quality))
            },
        }
    }
}

/// Once reading a prefix of the tokens fails, reading all of them fails with the same error.
proof fn lemma_read_tokens_error(toks: Seq<Seq<char>>, n: nat, s: Seq<char>)
    requires
        n <= toks.len(),
        read_tokens(toks.subrange(0, n as int), s) is Err,
    ensures
        read_tokens(toks, s) == read_tokens(toks.subrange(0, n as int), s),
    decreases toks.len() - n,
{
    if n < toks.len() {
        let next = toks.subrange(0, (n + 1) as int);
        assert(next.drop_last() =~= toks.subrange(0, n as int));
        lemma_read_tokens_error(toks, n + 1, s);
    } else {
        assert(toks.subrange(0, n as int) =~= toks);
    }
}

/// The words of a shell-like text, as `shlex::split` gives them (`None` where the text is not
/// well formed, such as an unclosed quote).
pub uninterp spec fn shlex_words(s: Seq<char>) -> Option<Seq<Seq<char>>>;

/// Calls `shlex::split`, which splits a text into words as a POSIX shell would (quotes, escapes
/// and comments) and returns `None` on malformed input. The contract names that result; how the
/// words are formed is left unsaid.
#[verifier::external_body]
fn shlex_split(s: &str) -> (r: Option<Vec<String>>)
    ensures
        match r {
            Some(v) => shlex_words(s@) == Some(strings_view(v@)),
            None => shlex_words(s@) is None,
        },
{
    shlex::split(s)
}

/// The quality arguments: `flag` with the lossless or the low value, none for normal quality.
pub open spec fn quality_args(q: FFmpegQuality, flag: Seq<char>, lossless: Seq<char>, low: Seq<char>) -> Seq<Seq<char>> {
    match q {
        FFmpegQuality::Lossless => seq![flag, lossless],
        FFmpegQuality::Normal => Seq::empty(),
        FFmpegQuality::Low => seq![flag, low],
    }
}

/// The input arguments that decode on an Nvidia GPU.
pub open spec fn cuda_input() -> Seq<Seq<char>> {
    seq!["-hwaccel"@, "cuda"@, "-hwaccel_output_format"@, "cuda"@, "-c:v"@, "h264_cuvid"@]
}

/// The ffmpeg input and output arguments of a predefined preset.
pub open spec fn predefined_args(c: FFmpegCodec, h: Option<FFmpegHwAccel>, q: FFmpegQuality) -> (Seq<Seq<char>>, Seq<Seq<char>>) {
    match c {
        FFmpegCodec::H264 => match h {
            Some(FFmpegHwAccel::Nvidia) => (cuda_input(), quality_args(q, "-crf"@, "18"@, "35"@)
                + seq!["-c:v"@, "h264_nvenc"@, "-c:a"@, "copy"@]),
            Some(FFmpegHwAccel::Apple) => (Seq::empty(), quality_args(q, "-q:v"@, "65"@, "32"@)
                + seq!["-c:v"@, "h264_videotoolbox"@, "-c:a"@, "copy"@]),
            None => (Seq::empty(), quality_args(q, "-crf"@, "18"@, "35"@)
                + seq!["-c:v"@, "libx264"@, "-c:a"@, "copy"@]),
        },
        FFmpegCodec::H265 => match h {
            Some(FFmpegHwAccel::Nvidia) => (cuda_input(), quality_args(q, "-crf"@, "20"@, "35"@)
                + seq!["-c:v"@, "hevc_nvenc"@, "-c:a"@, "copy"@, "-tag:v"@, "hvc1"@]),
            Some(FFmpegHwAccel::Apple) => (Seq::empty(), quality_args(q, "-q:v"@, "61"@, "32"@)
                + seq!["-c:v"@, "hevc_videotoolbox"@, "-c:a"@, "copy"@, "-tag:v"@, "hvc1"@]),
            None => (Seq::empty(), quality_args(q, "-crf"@, "20"@, "35"@)
                + seq!["-c:v"@, "libx265"@, "-c:a"@, "copy"@, "-tag:v"@, "hvc1"@]),
        },
        FFmpegCodec::Av1 => (Seq::empty(), seq!["-c:v"@, "libsvtav1"@, "-c:a"@, "copy"@]
            + quality_args(q, "-crf"@, "22"@, "35"@)),
    }
}

/// The ffmpeg input and output arguments of a preset: a custom preset has no input arguments and
/// its text split into words as output arguments (none where it has no text or the text does not
/// split).
pub open spec fn preset_args(p: PresetView) -> (Seq<Seq<char>>, Seq<Seq<char>>) {
    match p {
        PresetView::Predefined(c, h, q) => predefined_args(c, h, q),
        PresetView::Custom(o) => (Seq::empty(), match o {
            Some(t) => match shlex_words(t) {
                Some(w) => w,
                None => Seq::empty(),
            },
            None => Seq::empty(),
        }),
    }
}

/// Appends the literals `items` to `out` as strings.
fn push_strs(out: &mut Vec<String>, items: Vec<&'static str>)
    ensures
        strings_view(final(out)@) == strings_view(old(out)@) + items@.map_values(|t: &str| t@),
{
    let mut i: usize = 0;
    let ghost start = strings_view(out@);
    while i < items.len()
        invariant
            i <= items@.len(),
            strings_view(out@) == start + items@.subrange(0, i as int).map_values(|t: &str| t@),
        decreases items@.len() - i,
    {
        let ghost before = out@;
        let item = String::from_str(items[i]);
        out.push(item);
        assert(strings_view(out@) =~= strings_view(before).push(items@[i as int]@));
        assert(items@.subrange(0, i + 1).map_values(|t: &str| t@) =~= items@.subrange(0, i as int).map_values(|t: &str| t@).push(items@[i as int]@));
        i = i + 1;
        assert(strings_view(out@) =~= start + items@.subrange(0, i as int).map_values(|t: &str| t@));
    }
    assert(items@.subrange(0, items@.len() as int) =~= items@);
}

/// Appends the quality arguments (see [`quality_args`]).
fn push_quality(out: &mut Vec<String>, q: FFmpegQuality, flag: &'static str, lossless: &'static str, low: &'static str)
    ensures
        strings_view(final(out)@) == strings_view(old(out)@) + quality_args(q, flag@, lossless@, low@),
{
    match q {
        FFmpegQuality::Lossless => {
            let items = vec![flag, lossless];
            push_strs(out, items);
            assert(items@.map_values(|t: &str| t@) =~= seq![flag@, lossless@]);
        },
        FFmpegQuality::Normal => {
            assert(strings_view(out@) =~= strings_view(out@) + Seq::<Seq<char>>::empty());
        },
        FFmpegQuality::Low => {
            let items = vec![flag, low];
            push_strs(out, items);
            assert(items@.map_values(|t: &str| t@) =~= seq![flag@, low@]);
        },
    }
}

impl FFmpegPreset {
    /// The ffmpeg input and output arguments of the preset (see [`preset_args`]).
    pub fn into_input_output_args(self) -> (r: (Vec<String>, Vec<String>))
        ensures
            (strings_view(r.0@), strings_view(r.1@)) == preset_args(self@),
    {
        match self {
            FFmpegPreset::Custom(output) => {
                let out = match output {
                    Some(o) => match shlex_split(o.as_str()) {
                        Some(w) => w,
                        None => Vec::new(),
                    },
                    None => Vec::new(),
                };
                let input: Vec<String> = Vec::new();
                assert(strings_view(input@) =~= Seq::<Seq<char>>::empty());
                assert(strings_view(out@) == preset_args(self@).1);
                (input, out)
            },
            FFmpegPreset::Predefined(c, h, q) => predefined_args_exec(c, h, q),
        }
    }
}

fn predefined_args_exec(c: FFmpegCodec, h: Option<FFmpegHwAccel>, q: FFmpegQuality) -> (r: (Vec<String>, Vec<String>))
    ensures
        (strings_view(r.0@), strings_view(r.1@)) == predefined_args(c, h, q),
{
    let mut input: Vec<String> = Vec::new();
    let mut output: Vec<String> = Vec::new();
    assert(strings_view(input@) =~= Seq::<Seq<char>>::empty());
    assert(strings_view(output@) =~= Seq::<Seq<char>>::empty());
    let cuda = vec!["-hwaccel", "cuda", "-hwaccel_output_format", "cuda", "-c:v", "h264_cuvid"];
    assert(cuda@.map_values(|t: &str| t@) =~= cuda_input());
    match c {
        FFmpegCodec::H264 => {
            let (flag, lossless, low, tail) = match h {
                Some(FFmpegHwAccel::Nvidia) => {
                    push_strs(&mut input, cuda);
                    ("-crf", "18", "35", vec!["-c:v", "h264_nvenc", "-c:a", "copy"])
                },
                Some(FFmpegHwAccel::Apple) => ("-q:v", "65", "32", vec!["-c:v", "h264_videotoolbox", "-c:a", "copy"]),
                None => ("-crf", "18", "35", vec!["-c:v", "libx264", "-c:a", "copy"]),
            };
            push_quality(&mut output, q, flag, lossless, low);
            push_strs(&mut output, tail);
            proof {
                let t = tail@.map_values(|t: &str| t@);
                match h {
                    Some(FFmpegHwAccel::Nvidia) => {
                        assert(t =~= seq!["-c:v"@, "h264_nvenc"@, "-c:a"@, "copy"@]);
                    },
                    Some(FFmpegHwAccel::Apple) => {
                        assert(t =~= seq!["-c:v"@, "h264_videotoolbox"@, "-c:a"@, "copy"@]);
                    },
                    None => {
                        assert(t =~= seq!["-c:v"@, "libx264"@, "-c:a"@, "copy"@]);
                    },
                }
            }
        },
        FFmpegCodec::H265 => {
            let (flag, lossless, low, tail) = match h {
                Some(FFmpegHwAccel::Nvidia) => {
                    push_strs(&mut input, cuda);
                    ("-crf", "20", "35", vec!["-c:v", "hevc_nvenc", "-c:a", "copy", "-tag:v", "hvc1"])
                },
                Some(FFmpegHwAccel::Apple) => ("-q:v", "61", "32", vec!["-c:v", "hevc_videotoolbox", "-c:a", "copy", "-tag:v", "hvc1"]),
                None => ("-crf", "20", "35", vec!["-c:v", "libx265", "-c:a", "copy", "-tag:v", "hvc1"]),
            };
            push_quality(&mut output, q, flag, lossless, low);
            push_strs(&mut output, tail);
            proof {
                let t = tail@.map_values(|t: &str| t@);
                match h {
                    Some(FFmpegHwAccel::Nvidia) => {
                        assert(t =~= seq!["-c:v"@, "hevc_nvenc"@, "-c:a"@, "copy"@, "-tag:v"@, "hvc1"@]);
                    },
                    Some(FFmpegHwAccel::Apple) => {
                        assert(t =~= seq!["-c:v"@, "hevc_videotoolbox"@, "-c:a"@, "copy"@, "-tag:v"@, "hvc1"@]);
                    },
                    None => {
                        assert(t =~= seq!["-c:v"@, "libx265"@, "-c:a"@, "copy"@, "-tag:v"@, "hvc1"@]);
                    },
                }
            }
        },
        FFmpegCodec::Av1 => {
            let head = vec!["-c:v", "libsvtav1", "-c:a", "copy"];
            push_strs(&mut output, head);
            assert(head@.map_values(|t: &str| t@) =~= seq!["-c:v"@, "libsvtav1"@, "-c:a"@, "copy"@]);
            push_quality(&mut output, q, "-crf", "22", "35");
        },
    }
    (input, output)
}

/// Whether `with` is `base` with the quality setting `flag value` inserted at position `i`.
pub open spec fn inserts_setting(base: Seq<Seq<char>>, with: Seq<Seq<char>>, i: int, flag: Seq<char>, value: Seq<char>) -> bool {
    0 <= i <= base.len() && with == base.subrange(0, i) + seq![flag, value] + base.subrange(i, base.len() as int)
}

/// The quality of a predefined preset is one rate setting: normal quality keeps the encoder's
/// default (no setting), lossless and low quality add the same flag at the same place, and
/// lossless sets the better value of the two: a lower constant rate factor (`-crf`), or a higher
/// quality (`-q:v`, with Apple acceleration).
pub proof fn lemma_preset_quality_setting(c: FFmpegCodec, h: Option<FFmpegHwAccel>)
    ensures
        exists|i: int, flag: Seq<char>, lossless: Seq<char>, low: Seq<char>|
            #![trigger inserts_setting(predefined_args(c, h, FFmpegQuality::Normal).1, predefined_args(c, h, FFmpegQuality::Lossless).1, i, flag, lossless), inserts_setting(predefined_args(c, h, FFmpegQuality::Normal).1, predefined_args(c, h, FFmpegQuality::Low).1, i, flag, low)]
            inserts_setting(predefined_args(c, h, FFmpegQuality::Normal).1, predefined_args(c, h, FFmpegQuality::Lossless).1, i, flag, lossless)
            && inserts_setting(predefined_args(c, h, FFmpegQuality::Normal).1, predefined_args(c, h, FFmpegQuality::Low).1, i, flag, low)
            && all_digits(lossless) && all_digits(low)
            && ((flag == "-crf"@ && digits_value(lossless) < digits_value(low))
                || (flag == "-q:v"@ && digits_value(lossless) > digits_value(low))),
{
    reveal_strlit("18");
    reveal_strlit("20");
    reveal_strlit("22");
    reveal_strlit("35");
    reveal_strlit("61");
    reveal_strlit("65");
    reveal_strlit("32");
    assert("18"@ =~= seq!['1', '8']);
    assert("20"@ =~= seq!['2', '0']);
    assert("22"@ =~= seq!['2', '2']);
    assert("35"@ =~= seq!['3', '5']);
    assert("61"@ =~= seq!['6', '1']);
    assert("65"@ =~= seq!['6', '5']);
    assert("32"@ =~= seq!['3', '2']);
    let n = predefined_args(c, h, FFmpegQuality::Normal).1;
    let lo = predefined_args(c, h, FFmpegQuality::Lossless).1;
    let w = predefined_args(c, h, FFmpegQuality::Low).1;
    let i: int = if c == FFmpegCodec::Av1 { 4 } else { 0 };
    let flag: Seq<char> = if h == Some(FFmpegHwAccel::Apple) && c != FFmpegCodec::Av1 { "-q:v"@ } else { "-crf"@ };
    let a = lo[i + 1];
    let b = w[i + 1];
    assert(lo =~= n.subrange(0, i) + seq![flag, a] + n.subrange(i, n.len() as int));
    assert(w =~= n.subrange(0, i) + seq![flag, b] + n.subrange(i, n.len() as int));
    assert(a.len() == 2 && b.len() == 2);
    assert(a.drop_last() =~= seq![a[0]]);
    assert(b.drop_last() =~= seq![b[0]]);
    assert(seq![a[0]].drop_last() =~= Seq::<char>::empty());
    assert(seq![b[0]].drop_last() =~= Seq::<char>::empty());
    assert(digits_value(Seq::<char>::empty()) == 0);
    assert(digits_value(seq![a[0]]) == digit_value(a[0]));
    assert(digits_value(a) == digit_value(a[0]) * 10 + digit_value(a[1]));
    assert(digits_value(seq![b[0]]) == digit_value(b[0]));
    assert(digits_value(b) == digit_value(b[0]) * 10 + digit_value(b[1]));
    assert(inserts_setting(n, lo, i, flag, a) && inserts_setting(n, w, i, flag, b));
}

/// The video encoder of a predefined preset: `libx264`, `h264_nvenc` or `h264_videotoolbox` for
/// H.264, `libx265`, `hevc_nvenc` or `hevc_videotoolbox` for H.265 (software, Nvidia, Apple) and
/// `libsvtav1` for AV1.
pub open spec fn preset_encoder(c: FFmpegCodec, h: Option<FFmpegHwAccel>) -> Seq<char> {
    match c {
        FFmpegCodec::H264 => match h {
            None => "libx264"@,
            Some(FFmpegHwAccel::Nvidia) => "h264_nvenc"@,
            Some(FFmpegHwAccel::Apple) => "h264_videotoolbox"@,
        },
        FFmpegCodec::H265 => match h {
            None => "libx265"@,
            Some(FFmpegHwAccel::Nvidia) => "hevc_nvenc"@,
            Some(FFmpegHwAccel::Apple) => "hevc_videotoolbox"@,
        },
        FFmpegCodec::Av1 => "libsvtav1"@,
    }
}

/// Whether `out` selects the video encoder `enc`: a `-c:v` followed by `enc` is among the
/// arguments, and every `-c:v` in them is followed by `enc`.
pub open spec fn selects_encoder(out: Seq<Seq<char>>, enc: Seq<char>) -> bool {
    &&& exists|i: int| 0 <= i && i + 1 < out.len() && #[trigger] out[i] == "-c:v"@ && out[i + 1] == enc
    &&& forall|i: int| 0 <= i && i + 1 < out.len() && #[trigger] out[i] == "-c:v"@ ==> out[i + 1] == enc
}

/// A predefined preset encodes with its own codec, whatever its quality: the output arguments
/// select the encoder of the codec and hardware acceleration (an H.264 preset without hardware
/// acceleration `-c:v libx264`), an H.264 preset never names an H.265/HEVC encoder, and an H.265
/// preset never names an H.264 one.
pub proof fn lemma_preset_selects_its_encoder(c: FFmpegCodec, h: Option<FFmpegHwAccel>, q: FFmpegQuality)
    ensures
        selects_encoder(preset_args(PresetView::Predefined(c, h, q)).1, preset_encoder(c, h)),
        c == FFmpegCodec::H264 ==> {
            let out = preset_args(PresetView::Predefined(c, h, q)).1;
            !out.contains("libx265"@) && !out.contains("hevc_nvenc"@) && !out.contains("hevc_videotoolbox"@)
        },
        c == FFmpegCodec::H265 ==> {
            let out = preset_args(PresetView::Predefined(c, h, q)).1;
            !out.contains("libx264"@) && !out.contains("h264_nvenc"@) && !out.contains("h264_videotoolbox"@)
        },
{
    reveal_strlit("-c:v");
    reveal_strlit("-c:a");
    reveal_strlit("copy");
    reveal_strlit("-crf");
    reveal_strlit("-q:v");
    reveal_strlit("-tag:v");
    reveal_strlit("hvc1");
    reveal_strlit("18");
    reveal_strlit("20");
    reveal_strlit("22");
    reveal_strlit("35");
    reveal_strlit("61");
    reveal_strlit("65");
    reveal_strlit("32");
    reveal_strlit("libx264");
    reveal_strlit("h264_nvenc");
    reveal_strlit("h264_videotoolbox");
    reveal_strlit("libx265");
    reveal_strlit("hevc_nvenc");
    reveal_strlit("hevc_videotoolbox");
    reveal_strlit("libsvtav1");
    assert("-c:v"@ =~= seq!['-', 'c', ':', 'v']);
    assert("-c:a"@ =~= seq!['-', 'c', ':', 'a']);
    assert("copy"@ =~= seq!['c', 'o', 'p', 'y']);
    assert("-crf"@ =~= seq!['-', 'c', 'r', 'f']);
    assert("-q:v"@ =~= seq!['-', 'q', ':', 'v']);
    assert("hvc1"@ =~= seq!['h', 'v', 'c', '1']);
    assert("-tag:v"@.len() == 6);
    assert("18"@.len() == 2 && "20"@.len() == 2 && "22"@.len() == 2 && "35"@.len() == 2);
    assert("61"@.len() == 2 && "65"@.len() == 2 && "32"@.len() == 2);
    assert("libx264"@.len() == 7 && "libx265"@.len() == 7 && "libx264"@[6] != "libx265"@[6]);
    assert("h264_nvenc"@.len() == 10 && "hevc_nvenc"@.len() == 10 && "h264_nvenc"@[1] != "hevc_nvenc"@[1]);
    assert("h264_videotoolbox"@.len() == 17 && "hevc_videotoolbox"@.len() == 17);
    assert("h264_videotoolbox"@[1] != "hevc_videotoolbox"@[1]);
    assert("libsvtav1"@.len() == 9);
    let out = preset_args(PresetView::Predefined(c, h, q)).1;
    let enc = preset_encoder(c, h);
    let k: int = if q == FFmpegQuality::Normal || c == FFmpegCodec::Av1 { 0 } else { 2 };
    assert(k + 1 < out.len() && out[k] == "-c:v"@ && out[k + 1] == enc);
}

impl Default for FFmpegPreset {
    /// Copies video and audio as they are.
    fn default() -> (r: Self)
        ensures
            r@ == PresetView::Custom(Some("-c:v copy -c:a copy"@)),
    {
        FFmpegPreset::Custom(Some(String::from_str("-c:v copy -c:a copy")))
    }
}

/// Whether a name is made of lowercase ASCII letters and digits only (as all names of codecs,
/// hardware accelerations and qualities are).
pub open spec fn plain_name(n: Seq<char>) -> bool {
    n.len() > 0 && forall|i: int| 0 <= i < n.len() ==> ('a' <= #[trigger] n[i] <= 'z' || '0' <= n[i] <= '9')
}

proof fn lemma_names_plain()
    ensures
        forall|c: FFmpegCodec| plain_name(#[trigger] codec_name(c)),
        forall|h: FFmpegHwAccel| plain_name(#[trigger] hwaccel_name(h)),
        forall|q: FFmpegQuality| plain_name(#[trigger] quality_name(q)),
{
    reveal_strlit("h264");
    reveal_strlit("h265");
    reveal_strlit("av1");
    reveal_strlit("nvidia");
    reveal_strlit("apple");
    reveal_strlit("lossless");
    reveal_strlit("normal");
    reveal_strlit("low");
}

/// A plain name is its own lowercase form, holds no dash and consists of word characters.
proof fn lemma_plain_name(n: Seq<char>)
    requires
        plain_name(n),
    ensures
        lower(n) == n,
        !n.contains('-'),
        forall|i: int| 0 <= i < n.len() ==> is_word(#[trigger] n[i]),
{
    assert(lower(n) =~= n);
    if n.contains('-') {
        let i = choose|i: int| 0 <= i < n.len() && n[i] == '-';
        assert('a' <= n[i] <= 'z' || '0' <= n[i] <= '9');
    }
}

/// Text without dashes is one piece.
proof fn lemma_dash_split_single(t: Seq<char>)
    requires
        !t.contains('-'),
    ensures
        dash_split(t) == seq![t],
    decreases t.len(),
{
    if t.len() > 0 {
        let p = t.drop_last();
        assert(!p.contains('-')) by {
            if p.contains('-') {
                let i = choose|i: int| 0 <= i < p.len() && p[i] == '-';
                assert(t[i] == '-');
            }
        }
        lemma_dash_split_single(p);
        assert(t.last() != '-') by {
            assert(t[t.len() - 1] == t.last());
        }
        assert(p.push(t.last()) =~= t);
    } else {
        assert(t =~= Seq::<char>::empty());
    }
}

/// Appending a dash and text without dashes adds that text as one more piece.
proof fn lemma_dash_split_join(s: Seq<char>, t: Seq<char>)
    requires
        !t.contains('-'),
    ensures
        dash_split(s + seq!['-'] + t) == dash_split(s).push(t),
    decreases t.len(),
{
    if t.len() == 0 {
        let u = s + seq!['-'] + t;
        assert(u.drop_last() =~= s);
        assert(t =~= Seq::<char>::empty());
    } else {
        let p = t.drop_last();
        assert(!p.contains('-')) by {
            if p.contains('-') {
                let i = choose|i: int| 0 <= i < p.len() && p[i] == '-';
                assert(t[i] == '-');
            }
        }
        lemma_dash_split_join(s, p);
        let u = s + seq!['-'] + t;
        assert(u.drop_last() =~= s + seq!['-'] + p);
        assert(u.last() == t.last());
        assert(t.last() != '-') by {
            assert(t[t.len() - 1] == t.last());
        }
        assert(p.push(t.last()) =~= t);
    }
}

/// A preset name followed by a dash and a plain name is a preset name.
proof fn lemma_shape_join(a: Seq<char>, b: Seq<char>)
    requires
        preset_shape(a),
        plain_name(b),
    ensures
        preset_shape(a + seq!['-'] + b),
{
    lemma_plain_name(b);
    let u = a + seq!['-'] + b;
    assert forall|i: int| 0 <= i < u.len() implies (#[trigger] u[i] == '-' || is_word(u[i])) by {
        if i < a.len() {
            assert(u[i] == a[i]);
        } else if i > a.len() {
            assert(u[i] == b[i - a.len() - 1]);
        }
    }
    assert forall|i: int| 0 <= i < u.len() - 1 implies !(#[trigger] u[i] == '-' && u[i + 1] == '-') by {
        if i < a.len() - 1 {
            assert(u[i] == a[i] && u[i + 1] == a[i + 1]);
        } else if i == a.len() - 1 {
            assert(u[i] == a.last());
        } else if i == a.len() {
            assert(u[i + 1] == b[0]);
            assert('a' <= b[0] <= 'z' || '0' <= b[0] <= '9');
        } else {
            assert(u[i] == b[i - a.len() - 1]);
            assert('a' <= b[i - a.len() - 1] <= 'z' || '0' <= b[i - a.len() - 1] <= '9');
        }
    }
    assert(u.last() == b.last());
    assert('a' <= b[b.len() - 1] <= 'z' || '0' <= b[b.len() - 1] <= '9');
    assert(u[0] == a[0]);
}

/// A plain name is a preset name.
proof fn lemma_shape_plain(a: Seq<char>)
    requires
        plain_name(a),
    ensures
        preset_shape(a),
{
    lemma_plain_name(a);
    assert('a' <= a[0] <= 'z' || '0' <= a[0] <= '9');
    assert('a' <= a[a.len() - 1] <= 'z' || '0' <= a[a.len() - 1] <= '9');
    assert forall|i: int| 0 <= i < a.len() - 1 implies !(#[trigger] a[i] == '-' && a[i + 1] == '-') by {
        assert('a' <= a[i] <= 'z' || '0' <= a[i] <= '9');
    }
}

/// Each name stands for its part.
proof fn lemma_token_kinds()
    ensures
        forall|c: FFmpegCodec| #[trigger] token_kind(codec_name(c)) == PresetToken::Codec(c),
        forall|h: FFmpegHwAccel| #[trigger] token_kind(hwaccel_name(h)) == PresetToken::HwAccel(h),
        forall|q: FFmpegQuality| #[trigger] token_kind(quality_name(q)) == PresetToken::Quality(q),
{
    lemma_names_plain();
    reveal_strlit("h264");
    reveal_strlit("h265");
    reveal_strlit("av1");
    reveal_strlit("nvidia");
    reveal_strlit("apple");
    reveal_strlit("lossless");
    reveal_strlit("normal");
    reveal_strlit("low");
    assert("h264"@[3] != "h265"@[3]);
    assert("av1"@[0] != "low"@[0]);
    assert("nvidia"@[1] != "normal"@[1]);
    assert forall|c: FFmpegCodec| #[trigger] token_kind(codec_name(c)) == PresetToken::Codec(c) by {
        lemma_plain_name(codec_name(c));
    }
    assert forall|h: FFmpegHwAccel| #[trigger] token_kind(hwaccel_name(h)) == PresetToken::HwAccel(h) by {
        lemma_plain_name(hwaccel_name(h));
    }
    assert forall|q: FFmpegQuality| #[trigger] token_kind(quality_name(q)) == PresetToken::Quality(q) by {
        lemma_plain_name(quality_name(q));
    }
}

/// Every combination that the list of presets offers parses back to that combination (with the
/// normal quality where it names none): the names printed for the user are valid presets.
pub proof fn lemma_available_presets_parse(m: PresetMatch)
    requires
        available().contains(m),
    ensures
        parsed_preset(match_name(m)) == Ok::<PresetView, Seq<char>>(
            PresetView::Predefined(
                m.0,
                m.1,
                match m.2 {
                    Some(q) => q,
                    None => FFmpegQuality::Normal,
                },
            ),
        ),
{
    lemma_names_plain();
    lemma_token_kinds();
    reveal_strlit("-");
    assert("-"@ =~= seq!['-']);
    let c = codec_name(m.0);
    lemma_plain_name(c);
    lemma_dash_split_single(c);
    lemma_shape_plain(c);
    let s1 = c + (match m.1 {
        Some(h) => "-"@ + hwaccel_name(h),
        None => Seq::empty(),
    });
    let t1: Seq<Seq<char>> = match m.1 {
        Some(h) => seq![c, hwaccel_name(h)],
        None => seq![c],
    };
    match m.1 {
        Some(h) => {
            lemma_plain_name(hwaccel_name(h));
            lemma_dash_split_join(c, hwaccel_name(h));
            lemma_shape_join(c, hwaccel_name(h));
            assert(s1 =~= c + seq!['-'] + hwaccel_name(h));
        },
        None => {
            assert(s1 =~= c);
        },
    }
    assert(dash_split(s1) =~= t1);
    assert(preset_shape(s1));
    let s2 = match_name(m);
    let t2: Seq<Seq<char>> = match m.2 {
        Some(q) => t1.push(quality_name(q)),
        None => t1,
    };
    match m.2 {
        Some(q) => {
            lemma_plain_name(quality_name(q));
            lemma_dash_split_join(s1, quality_name(q));
            lemma_shape_join(s1, quality_name(q));
            assert(s2 =~= s1 + seq!['-'] + quality_name(q));
        },
        None => {
            assert(s2 =~= s1);
        },
    }
    assert(dash_split(s2) =~= t2);
    assert(preset_shape(s2));
    let st1: PresetParts = (Some(m.0), None, None);
    assert(read_tokens(seq![c], s2) == Ok::<PresetParts, Seq<char>>(st1)) by {
        assert(seq![c].drop_last() =~= Seq::<Seq<char>>::empty());
        assert(read_tokens(Seq::<Seq<char>>::empty(), s2) == Ok::<PresetParts, Seq<char>>((None, None, None)));
        assert(seq![c].last() == c);
        assert(token_kind(codec_name(m.0)) == PresetToken::Codec(m.0));
    }
    let st2: PresetParts = (Some(m.0), m.1, None);
    assert(read_tokens(t1, s2) == Ok::<PresetParts, Seq<char>>(st2)) by {
        match m.1 {
            Some(h) => {
                assert(t1.drop_last() =~= seq![c]);
            },
            None => {},
        }
    }
    assert(read_tokens(t2, s2) == Ok::<PresetParts, Seq<char>>((Some(m.0), m.1, m.2))) by {
        match m.2 {
            Some(q) => {
                assert(t2.drop_last() =~= t1);
            },
            None => {},
        }
    }
}


/// The text of a help line before its first `" ("` (the whole line where there is none).
pub open spec fn name_part(line: Seq<char>) -> Seq<char>
    decreases line.len(),
{
    if line.len() < 2 {
        line
    } else if line[0] == ' ' && line[1] == '(' {
        Seq::empty()
    } else {
        seq![line[0]] + name_part(line.drop_first())
    }
}

proof fn lemma_name_part(n: Seq<char>, rest: Seq<char>)
    requires
        !n.contains(' '),
        rest.len() >= 2,
        rest[0] == ' ',
        rest[1] == '(',
    ensures
        name_part(n + rest) == n,
    decreases n.len(),
{
    if n.len() == 0 {
        assert(n + rest =~= rest);
    } else {
        assert(n[0] != ' ');
        assert((n + rest).drop_first() =~= n.drop_first() + rest);
        if n.drop_first().contains(' ') {
            let i = choose|i: int| 0 <= i < n.drop_first().len() && n.drop_first()[i] == ' ';
            assert(n[i + 1] == ' ');
        }
        lemma_name_part(n.drop_first(), rest);
        assert(n =~= seq![n[0]] + n.drop_first());
    }
}

proof fn lemma_match_name_has_no_space(m: PresetMatch)
    ensures
        !match_name(m).contains(' '),
{
    lemma_names_plain();
    reveal_strlit("-");
    assert("-"@ =~= seq!['-']);
    let c = codec_name(m.0);
    let h = match m.1 {
        Some(x) => "-"@ + hwaccel_name(x),
        None => Seq::<char>::empty(),
    };
    let q = match m.2 {
        Some(x) => "-"@ + quality_name(x),
        None => Seq::<char>::empty(),
    };
    assert(!c.contains(' '));
    assert(!h.contains(' ')) by {
        if let Some(x) = m.1 {
            assert(plain_name(hwaccel_name(x)));
            if h.contains(' ') {
                let i = choose|i: int| 0 <= i < h.len() && h[i] == ' ';
                if i > 0 {
                    assert(h[i] == hwaccel_name(x)[i - 1]);
                }
            }
        }
    }
    assert(!q.contains(' ')) by {
        if let Some(x) = m.2 {
            assert(plain_name(quality_name(x)));
            if q.contains(' ') {
                let i = choose|i: int| 0 <= i < q.len() && q[i] == ' ';
                if i > 0 {
                    assert(q[i] == quality_name(x)[i - 1]);
                }
            }
        }
    }
    assert(match_name(m) == c + h + q);
    if match_name(m).contains(' ') {
        let i = choose|i: int| 0 <= i < match_name(m).len() && match_name(m)[i] == ' ';
        if i < c.len() {
            assert(match_name(m)[i] == c[i]);
        } else if i < c.len() + h.len() {
            assert(match_name(m)[i] == h[i - c.len()]);
        } else {
            assert(match_name(m)[i] == q[i - c.len() - h.len()]);
        }
    }
}

/// Every line of the list of presets shown in the help names, before its `" ("`, a preset that
/// parses back to the combination the line describes (with the normal quality where it names
/// none).
pub proof fn lemma_listed_preset_lines_parse(m: PresetMatch)
    requires
        available().contains(m),
    ensures
        parsed_preset(name_part(human_readable(m))) == Ok::<PresetView, Seq<char>>(
            PresetView::Predefined(
                m.0,
                m.1,
                match m.2 {
                    Some(q) => q,
                    None => FFmpegQuality::Normal,
                },
            ),
        ),
{
    lemma_match_name_has_no_space(m);
    reveal_strlit(" (");
    let rest = " ("@ + description(m) + ")"@;
    assert(human_readable(m) =~= match_name(m) + rest);
    lemma_name_part(match_name(m), rest);
    lemma_available_presets_parse(m);
}

} // verus!
