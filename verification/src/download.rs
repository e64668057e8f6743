//! How downloaded streams are merged into one output file by ffmpeg.
use vstd::prelude::*;
use crate::text::{chars_of, lower, lower_vec, vec_eq_str, decimal, decimal_exec, string_from};
use crate::locale::{Locale, LocaleView, tag, human_name, views};
use crate::ffmpeg::{strings_view, FFmpegPreset, PresetView, preset_args};
use crate::os::{extension_of, path_extension};

verus! {

broadcast use vstd::string::group_string_axioms;

/// How several versions of one episode are merged.
#[derive(Clone, Copy, Debug, PartialEq, Eq, Structural)]
pub enum MergeBehavior {
    /// Every version keeps its own video track.
    Video,
    /// One video track with the audio of every version.
    Audio,
    /// Video tracks are merged where their lengths allow it.
    Auto,
    /// Like `Auto`, and where videos still differ in length the offsets of their matching audio
    /// parts are found and removed from the beginning, keeping one video.
    Sync,
}

/// What [`MergeBehavior::parse`] gives for `s`: the behavior whose name equals the lowercase
/// text, else an error message naming the text.
pub open spec fn merge_behavior_of(s: Seq<char>) -> Result<MergeBehavior, Seq<char>> {
    if lower(s) == "video"@ {
        Ok(MergeBehavior::Video)
    } else if lower(s) == "audio"@ {
        Ok(MergeBehavior::Audio)
    } else if lower(s) == "auto"@ {
        Ok(MergeBehavior::Auto)
    } else if lower(s) == "sync"@ {
        Ok(MergeBehavior::Sync)
    } else {
        Err("'"@ + s + "' is not a valid merge behavior"@)
    }
}

impl MergeBehavior {
    /// Parses a merge behavior, ignoring case (see [`merge_behavior_of`]).
    pub fn parse(s: &str) -> (r: Result<MergeBehavior, String>)
        ensures
            match r {
                Ok(m) => merge_behavior_of(s@) == Ok::<MergeBehavior, Seq<char>>(m),
                Err(e) => merge_behavior_of(s@) == Err::<MergeBehavior, Seq<char>>(e@),
            },
    {
        let low = lower_vec(&chars_of(s));
        if vec_eq_str(&low, "video") {
            Ok(MergeBehavior::Video)
        } else if vec_eq_str(&low, "audio") {
            Ok(MergeBehavior::Audio)
        } else if vec_eq_str(&low, "auto") {
            Ok(MergeBehavior::Auto)
        } else if vec_eq_str(&low, "sync") {
            Ok(MergeBehavior::Sync)
        } else {
            let mut e = String::from_str("'");
            e.append(s);
            e.append("' is not a valid merge behavior");
            Err(e)
        }
    }
}

/// `" [Video: #<n>]"`, which marks a track of the `n`-th video.
pub open spec fn video_mark(n: nat) -> Seq<char> {
    " [Video: #"@ + decimal(n) + "]"@
}

fn video_mark_exec(n: u64) -> (r: String)
    ensures
        r@ == video_mark(n as nat),
{
    let mut s = String::from_str(" [Video: #");
    let d = string_from(&decimal_exec(n));
    s.append(d.as_str());
    s.append("]");
    s
}

/// The title of an audio track in `locale` that belongs to the video at index `i`.
pub open spec fn audio_title(locale: LocaleView, i: nat) -> Seq<char> {
    if i == 0 {
        human_name(locale)
    } else {
        human_name(locale) + video_mark(i + 1)
    }
}

/// The title of a subtitle track in `locale` that belongs to the video at index `i`; closed
/// captions are marked.
pub open spec fn subtitle_title(locale: LocaleView, not_cc: bool, i: nat) -> Seq<char> {
    human_name(locale) + (if not_cc { Seq::empty() } else { " (CC)"@ }) + (if i == 0 {
        Seq::empty()
    } else {
        video_mark(i + 1)
    })
}

/// The title of the video track at index `i` out of `count`.
pub open spec fn video_title(count: nat, i: nat) -> Seq<char> {
    if count == 1 {
        "Default"@
    } else {
        "#"@ + decimal(i + 1)
    }
}

/// The title of an audio track (see [`audio_title`]).
pub fn audio_track_title(locale: &Locale, i: u64) -> (r: String)
    requires
        i < u64::MAX,
    ensures
        r@ == audio_title(locale@, i as nat),
{
    let mut s = locale.to_human_readable();
    if i != 0 {
        let m = video_mark_exec(i + 1);
        s.append(m.as_str());
    }
    s
}

/// The title of a subtitle track (see [`subtitle_title`]).
pub fn subtitle_track_title(locale: &Locale, not_cc: bool, i: u64) -> (r: String)
    requires
        i < u64::MAX,
    ensures
        r@ == subtitle_title(locale@, not_cc, i as nat),
{
    let mut s = locale.to_human_readable();
    let ghost h = s@;
    if !not_cc {
        s.append(" (CC)");
    }
    let ghost c = s@;
    assert(c == h + (if not_cc { Seq::<char>::empty() } else { " (CC)"@ }));
    if i != 0 {
        let m = video_mark_exec(i + 1);
        s.append(m.as_str());
    }
    assert(s@ == c + (if i == 0 { Seq::<char>::empty() } else { video_mark((i + 1) as nat) }));
    s
}

/// The title of a video track (see [`video_title`]).
pub fn video_track_title(count: u64, i: u64) -> (r: String)
    requires
        i < u64::MAX,
    ensures
        r@ == video_title(count as nat, i as nat),
{
    if count == 1 {
        String::from_str("Default")
    } else {
        let mut s = String::from_str("#");
        let d = string_from(&decimal_exec(i + 1));
        s.append(d.as_str());
        s
    }
}

/// Whether an ffmpeg argument selects the video or audio codec.
pub open spec fn is_codec_flag(a: Seq<char>) -> bool {
    a == "-c:v"@ || a == "-c:a"@
}

/// The arguments without each codec flag that is directly followed by `copy`, and without that
/// `copy`: stream copying does not work when subtitles are burned into the video.
pub open spec fn drop_copies(a: Seq<Seq<char>>) -> Seq<Seq<char>>
    decreases a.len(),
{
    if a.len() == 0 {
        a
    } else if a.len() >= 2 && is_codec_flag(a[0]) && a[1] == "copy"@ {
        drop_copies(a.subrange(2, a.len() as int))
    } else {
        seq![a[0]] + drop_copies(a.subrange(1, a.len() as int))
    }
}

/// The arguments without stream copying (see [`drop_copies`]).
pub fn remove_copy_args(a: Vec<String>) -> (r: Vec<String>)
    ensures
        strings_view(r@) == drop_copies(strings_view(a@)),
{
    let ghost av = strings_view(a@);
    let mut r: Vec<String> = Vec::new();
    let mut i: usize = 0;
    assert(av.subrange(0, av.len() as int) =~= av);
    assert(strings_view(r@) =~= Seq::<Seq<char>>::empty());
    while i < a.len()
        invariant
            i <= a@.len(),
            av == strings_view(a@),
            strings_view(r@) + drop_copies(av.subrange(i as int, av.len() as int)) == drop_copies(av),
        decreases a@.len() - i,
    {
        let ghost rest = av.subrange(i as int, av.len() as int);
        let cv = vec_eq_str_s(&a[i], "-c:v");
        let ca = vec_eq_str_s(&a[i], "-c:a");
        if (cv || ca) && i + 1 < a.len() && vec_eq_str_s(&a[i + 1], "copy") {
            assert(rest.subrange(2, rest.len() as int) =~= av.subrange(i + 2, av.len() as int));
            i = i + 2;
        } else {
            let ghost before = r@;
            r.push(a[i].clone());
            assert(strings_view(r@) =~= strings_view(before).push(av[i as int]));
            assert(rest.subrange(1, rest.len() as int) =~= av.subrange(i + 1, av.len() as int));
            assert(seq![rest[0]] + drop_copies(rest.subrange(1, rest.len() as int)) == drop_copies(rest));
            assert(strings_view(r@) + drop_copies(av.subrange(i + 1, av.len() as int)) =~= strings_view(before) + (
            seq![rest[0]] + drop_copies(rest.subrange(1, rest.len() as int))));
            i = i + 1;
        }
    }
    assert(av.subrange(av.len() as int, av.len() as int) =~= Seq::<Seq<char>>::empty());
    assert(strings_view(r@) =~= strings_view(r@) + Seq::<Seq<char>>::empty());
    r
}

/// Whether the string `s` equals the literal `t`.
fn vec_eq_str_s(s: &String, t: &str) -> (r: bool)
    ensures
        r == (s@ == t@),
{
    vec_eq_str(&chars_of(s.as_str()), t)
}

/// A file handed to ffmpeg as one track: its path, language and title.
pub struct Track {
    pub path: String,
    pub language: Locale,
    pub title: String,
    /// The time by which the track is shifted, as ffmpeg reads it (`[-]H:MM:SS.mmm`), if any.
    pub offset: Option<String>,
}

/// A track as a value of specifications.
pub struct TrackView {
    pub path: Seq<char>,
    pub language: LocaleView,
    pub title: Seq<char>,
    pub offset: Option<Seq<char>>,
}

impl View for Track {
    type V = TrackView;

    open spec fn view(&self) -> TrackView {
        TrackView {
            path: self.path@,
            language: self.language@,
            title: self.title@,
            offset: match self.offset {
                Some(o) => Some(o@),
                None => None,
            },
        }
    }
}

/// The views of a sequence of tracks.
pub open spec fn track_views(ts: Seq<Track>) -> Seq<TrackView> {
    ts.map_values(|t: Track| t@)
}

/// The concatenation of `f(0)`, ..., `f(n - 1)`.
pub open spec fn concat_for(n: nat, f: spec_fn(nat) -> Seq<Seq<char>>) -> Seq<Seq<char>>
    decreases n,
{
    if n == 0 {
        Seq::empty()
    } else {
        concat_for((n - 1) as nat, f) + f((n - 1) as nat)
    }
}

/// `-itsoffset <offset>` where a track is shifted.
pub open spec fn offset_args(t: TrackView) -> Seq<Seq<char>> {
    match t.offset {
        Some(o) => seq!["-itsoffset"@, o],
        None => Seq::empty(),
    }
}

/// `-i <path>` for each track, after its offset where it is shifted.
pub open spec fn input_args(ts: Seq<TrackView>) -> Seq<Seq<char>> {
    concat_for(ts.len(), |i: nat| offset_args(ts[i as int]) + seq!["-i"@, ts[i as int].path])
}

/// `-map <offset + i>` for each of `n` tracks.
pub open spec fn map_args(n: nat, offset: nat) -> Seq<Seq<char>> {
    concat_for(n, |i: nat| seq!["-map"@, decimal(offset as nat + i)])
}

/// The title of each video track, and an empty language so that none is copied from the source.
pub open spec fn video_metadata(ts: Seq<TrackView>) -> Seq<Seq<char>> {
    concat_for(
        ts.len(),
        |i: nat|
            seq![
                "-metadata:s:v:"@ + decimal(i),
                "title="@ + ts[i as int].title,
                "-metadata:s:v:"@ + decimal(i),
                "language="@,
            ],
    )
}

/// The language and title of each audio (`kind` `a`) or subtitle (`kind` `s`) track.
pub open spec fn stream_metadata(ts: Seq<TrackView>, kind: Seq<char>) -> Seq<Seq<char>> {
    concat_for(
        ts.len(),
        |i: nat|
            seq![
                "-metadata:s:"@ + kind + ":"@ + decimal(i),
                "language="@ + tag(ts[i as int].language),
                "-metadata:s:"@ + kind + ":"@ + decimal(i),
                "title="@ + ts[i as int].title,
            ],
    )
}

/// The index of the first track in language `l`.
pub open spec fn first_in_language(ts: Seq<TrackView>, l: LocaleView) -> Option<nat>
    decreases ts.len(),
{
    if ts.len() == 0 {
        None
    } else {
        match first_in_language(ts.drop_last(), l) {
            Some(p) => Some(p),
            None => if ts.last().language == l {
                Some((ts.len() - 1) as nat)
            } else {
                None
            },
        }
    }
}

/// Whether a container with this file extension can hold subtitle tracks (instead of subtitles
/// burned into the video): `mkv`, `mp4` and `mov`.
pub open spec fn supports_softsubs(ext: Seq<char>) -> bool {
    ext == "mkv"@ || ext == "mp4"@ || ext == "mov"@
}

/// The output arguments once the default subtitle is known: `mkv` keeps them, `mp4` and `mov` add
/// what their subtitle tracks need, and any other container gets the subtitle at `pos` burned
/// into the video (which rules out stream copying).
pub open spec fn output_args(
    subs: Seq<TrackView>,
    output_presets: Seq<Seq<char>>,
    pos: Option<nat>,
    ext: Seq<char>,
) -> Seq<Seq<char>> {
    match pos {
        None => output_presets,
        Some(p) => if ext == "mkv"@ {
            output_presets
        } else if ext == "mp4"@ || ext == "mov"@ {
            output_presets + seq!["-movflags"@, "faststart"@, "-c:s"@, "mov_text"@]
        } else {
            drop_copies(output_presets) + seq!["-vf"@, "ass="@ + subs[p as int].path]
        },
    }
}

/// The arguments of the ffmpeg call that merges the tracks into the file `dst` with extension
/// `ext`: inputs, stream mapping and metadata of videos, audios and (where the container holds
/// them) subtitles; the default subtitle flagged default and forced, or burned in; the preset's arguments; the output
/// format; the destination.
pub open spec fn ffmpeg_args(
    videos: Seq<TrackView>,
    audios: Seq<TrackView>,
    subs: Seq<TrackView>,
    input_presets: Seq<Seq<char>>,
    output_presets: Seq<Seq<char>>,
    default_subtitle: Option<LocaleView>,
    output_format: Option<Seq<char>>,
    dst: Seq<char>,
    ext: Seq<char>,
) -> Seq<Seq<char>> {
    let soft = supports_softsubs(ext);
    let pos = match default_subtitle {
        Some(l) => first_in_language(subs, l),
        None => None,
    };
    let disposition = match pos {
        Some(p) => if soft { seq!["-disposition:s:s:"@ + decimal(p), "default+forced"@] } else { Seq::empty() },
        None => Seq::empty(),
    };
    let format = match output_format {
        Some(f) => seq!["-f"@, f],
        None => Seq::empty(),
    };
    head_args(videos, audios, subs, input_presets, soft) + disposition + output_args(
        subs,
        output_presets,
        pos,
        ext,
    ) + format + seq![dst]
}

/// `prefix` followed by the decimal `n`.
fn numbered(prefix: &str, n: u64) -> (r: String)
    ensures
        r@ == prefix@ + decimal(n as nat),
{
    let mut s = String::from_str(prefix);
    let d = string_from(&decimal_exec(n));
    s.append(d.as_str());
    s
}

/// `prefix` followed by `t`.
fn joined(prefix: &str, t: &str) -> (r: String)
    ensures
        r@ == prefix@ + t@,
{
    let mut s = String::from_str(prefix);
    s.append(t);
    s
}

/// Appends the strings of `items` to `out`.
fn push_all(out: &mut Vec<String>, items: Vec<String>)
    ensures
        strings_view(final(out)@) == strings_view(old(out)@) + strings_view(items@),
{
    let ghost start = strings_view(out@);
    let mut i: usize = 0;
    while i < items.len()
        invariant
            i <= items@.len(),
            strings_view(out@) == start + strings_view(items@).subrange(0, i as int),
        decreases items@.len() - i,
    {
        let ghost before = out@;
        out.push(items[i].clone());
        assert(strings_view(out@) =~= strings_view(before).push(items@[i as int]@));
        i = i + 1;
        assert(strings_view(out@) =~= start + strings_view(items@).subrange(0, i as int));
    }
    assert(strings_view(items@).subrange(0, items@.len() as int) =~= strings_view(items@));
}

/// Appends `-i <path>` for each track.
fn push_inputs(out: &mut Vec<String>, ts: &Vec<Track>)
    ensures
        strings_view(final(out)@) == strings_view(old(out)@) + input_args(track_views(ts@)),
{
    let ghost start = strings_view(out@);
    let ghost tv = track_views(ts@);
    let ghost f = |i: nat| offset_args(tv[i as int]) + seq!["-i"@, tv[i as int].path];
    let mut i: usize = 0;
    while i < ts.len()
        invariant
            i <= ts@.len(),
            tv == track_views(ts@),
            f == (|i: nat| offset_args(tv[i as int]) + seq!["-i"@, tv[i as int].path]),
            strings_view(out@) == start + concat_for(i as nat, f),
        decreases ts@.len() - i,
    {
        let ghost before = strings_view(out@);
        assert(tv[i as int] == ts@[i as int]@);
        match &ts[i].offset {
            Some(o) => {
                out.push(String::from_str("-itsoffset"));
                out.push(o.clone());
            },
            None => {},
        }
        out.push(String::from_str("-i"));
        out.push(ts[i].path.clone());
        assert(strings_view(out@) =~= before + f(i as nat));
        i = i + 1;
    }
}

/// Appends `-map <offset + i>` for each of `n` tracks.
fn push_maps(out: &mut Vec<String>, n: u64, offset: u64)
    requires
        offset + n <= u64::MAX,
    ensures
        strings_view(final(out)@) == strings_view(old(out)@) + map_args(n as nat, offset as nat),
{
    let ghost start = strings_view(out@);
    let ghost f = |i: nat| seq!["-map"@, decimal(offset as nat + i)];
    let mut i: u64 = 0;
    while i < n
        invariant
            i <= n,
            offset + n <= u64::MAX,
            f == (|i: nat| seq!["-map"@, decimal(offset as nat + i)]),
            strings_view(out@) == start + concat_for(i as nat, f),
        decreases n - i,
    {
        let ghost before = strings_view(out@);
        out.push(String::from_str("-map"));
        out.push(string_from(&decimal_exec(offset + i)));
        assert(strings_view(out@) =~= before + f(i as nat));
        i = i + 1;
    }
}

/// Appends the metadata of the video tracks.
fn push_video_metadata(out: &mut Vec<String>, ts: &Vec<Track>)
    ensures
        strings_view(final(out)@) == strings_view(old(out)@) + video_metadata(track_views(ts@)),
{
    let ghost start = strings_view(out@);
    let ghost tv = track_views(ts@);
    let ghost f = |i: nat|
        seq![
            "-metadata:s:v:"@ + decimal(i),
            "title="@ + tv[i as int].title,
            "-metadata:s:v:"@ + decimal(i),
            "language="@,
        ];
    let mut i: usize = 0;
    while i < ts.len()
        invariant
            i <= ts@.len(),
            tv == track_views(ts@),
            f == (|i: nat|
                seq![
                    "-metadata:s:v:"@ + decimal(i),
                    "title="@ + tv[i as int].title,
                    "-metadata:s:v:"@ + decimal(i),
                    "language="@,
                ]),
            strings_view(out@) == start + concat_for(i as nat, f),
        decreases ts@.len() - i,
    {
        let ghost before = strings_view(out@);
        out.push(numbered("-metadata:s:v:", i as u64));
        out.push(joined("title=", ts[i].title.as_str()));
        out.push(numbered("-metadata:s:v:", i as u64));
        out.push(String::from_str("language="));
        assert(strings_view(out@) =~= before + f(i as nat));
        i = i + 1;
    }
}

/// Appends the language and title of each track of the given kind (`a` or `s`).
fn push_stream_metadata(out: &mut Vec<String>, ts: &Vec<Track>, kind: &str)
    ensures
        strings_view(final(out)@) == strings_view(old(out)@) + stream_metadata(track_views(ts@), kind@),
{
    let mut prefix = String::from_str("-metadata:s:");
    prefix.append(kind);
    prefix.append(":");
    let ghost start = strings_view(out@);
    let ghost tv = track_views(ts@);
    let ghost k = kind@;
    assert(prefix@ == "-metadata:s:"@ + k + ":"@);
    let ghost f = |i: nat|
        seq![
            "-metadata:s:"@ + k + ":"@ + decimal(i),
            "language="@ + tag(tv[i as int].language),
            "-metadata:s:"@ + k + ":"@ + decimal(i),
            "title="@ + tv[i as int].title,
        ];
    let mut i: usize = 0;
    while i < ts.len()
        invariant
            i <= ts@.len(),
            tv == track_views(ts@),
            prefix@ == "-metadata:s:"@ + k + ":"@,
            f == (|i: nat|
                seq![
                    "-metadata:s:"@ + k + ":"@ + decimal(i),
                    "language="@ + tag(tv[i as int].language),
                    "-metadata:s:"@ + k + ":"@ + decimal(i),
                    "title="@ + tv[i as int].title,
                ]),
            strings_view(out@) == start + concat_for(i as nat, f),
        decreases ts@.len() - i,
    {
        let ghost before = strings_view(out@);
        let a = numbered(prefix.as_str(), i as u64);
        let l = ts[i].language.to_tag();
        let b = joined("language=", l.as_str());
        let c = numbered(prefix.as_str(), i as u64);
        let d = joined("title=", ts[i].title.as_str());
        out.push(a);
        out.push(b);
        out.push(c);
        out.push(d);
        assert(strings_view(out@) =~= before + f(i as nat));
        i = i + 1;
    }
}

/// The index of the first track in language `l`.
fn first_in_language_exec(ts: &Vec<Track>, l: &Locale) -> (r: Option<usize>)
    ensures
        match r {
            Some(p) => p < ts@.len() && first_in_language(track_views(ts@), l@) == Some(p as nat),
            None => first_in_language(track_views(ts@), l@) is None,
        },
{
    let ghost tv = track_views(ts@);
    let mut i: usize = 0;
    while i < ts.len()
        invariant
            i <= ts@.len(),
            tv == track_views(ts@),
            first_in_language(tv.subrange(0, i as int), l@) is None,
        decreases ts@.len() - i,
    {
        assert(tv.subrange(0, i + 1).drop_last() =~= tv.subrange(0, i as int));
        if ts[i].language.same(l) {
            proof { lemma_first_in_language_prefix(tv, (i + 1) as nat, l@); }
            return Some(i);
        }
        i = i + 1;
    }
    assert(tv.subrange(0, tv.len() as int) =~= tv);
    None
}

/// The first track in a language is found in the shortest prefix that holds one.
proof fn lemma_first_in_language_prefix(ts: Seq<TrackView>, n: nat, l: LocaleView)
    requires
        n <= ts.len(),
        first_in_language(ts.subrange(0, n as int), l) is Some,
    ensures
        first_in_language(ts, l) == first_in_language(ts.subrange(0, n as int), l),
    decreases ts.len() - n,
{
    if n < ts.len() {
        assert(ts.subrange(0, (n + 1) as int).drop_last() =~= ts.subrange(0, n as int));
        lemma_first_in_language_prefix(ts, n + 1, l);
    } else {
        assert(ts.subrange(0, n as int) =~= ts);
    }
}

/// The arguments before the default subtitle's: `-y -hide_banner`, the preset's input arguments,
/// then inputs, stream mapping and metadata.
pub open spec fn head_args(
    videos: Seq<TrackView>,
    audios: Seq<TrackView>,
    subs: Seq<TrackView>,
    input_presets: Seq<Seq<char>>,
    soft: bool,
) -> Seq<Seq<char>> {
    let nv = videos.len();
    let na = audios.len();
    let input = input_args(videos) + input_args(audios) + (if soft { input_args(subs) } else { Seq::empty() });
    let maps = map_args(nv, 0) + map_args(na, nv) + (if soft { map_args(subs.len(), nv + na) } else { Seq::empty() });
    let metadata = video_metadata(videos) + stream_metadata(audios, "a"@) + (if soft {
        stream_metadata(subs, "s"@)
    } else {
        Seq::empty()
    });
    seq!["-y"@, "-hide_banner"@] + input_presets + input + maps + metadata
}

fn head_args_exec(
    videos: &Vec<Track>,
    audios: &Vec<Track>,
    subtitles: &Vec<Track>,
    input_presets: Vec<String>,
    soft: bool,
) -> (r: Vec<String>)
    requires
        videos@.len() + audios@.len() + subtitles@.len() <= u64::MAX,
    ensures
        strings_view(r@) == head_args(
            track_views(videos@),
            track_views(audios@),
            track_views(subtitles@),
            strings_view(input_presets@),
            soft,
        ),
{
    let nv = videos.len() as u64;
    let na = audios.len() as u64;
    let ns = subtitles.len() as u64;
    let mut args: Vec<String> = Vec::new();
    args.push(String::from_str("-y"));
    args.push(String::from_str("-hide_banner"));
    assert(strings_view(args@) =~= seq!["-y"@, "-hide_banner"@]);
    push_all(&mut args, input_presets);
    let ghost s0 = strings_view(args@);
    push_inputs(&mut args, videos);
    push_inputs(&mut args, audios);
    if soft {
        push_inputs(&mut args, subtitles);
    }
    let ghost s1 = strings_view(args@);
    push_maps(&mut args, nv, 0);
    push_maps(&mut args, na, nv);
    if soft {
        push_maps(&mut args, ns, nv + na);
    }
    let ghost s2 = strings_view(args@);
    push_video_metadata(&mut args, videos);
    push_stream_metadata(&mut args, audios, "a");
    if soft {
        push_stream_metadata(&mut args, subtitles, "s");
    }
    proof {
        let vv = track_views(videos@);
        let av = track_views(audios@);
        let sv = track_views(subtitles@);
        let input = input_args(vv) + input_args(av) + (if soft { input_args(sv) } else { Seq::empty() });
        let maps = map_args(vv.len(), 0) + map_args(av.len(), vv.len()) + (if soft {
            map_args(sv.len(), vv.len() + av.len())
        } else {
            Seq::empty()
        });
        let metadata = video_metadata(vv) + stream_metadata(av, "a"@) + (if soft {
            stream_metadata(sv, "s"@)
        } else {
            Seq::empty()
        });
        assert(s1 =~= s0 + input);
        assert(s2 =~= s1 + maps);
        assert(strings_view(args@) =~= s2 + metadata);
    }
    args
}

fn output_args_exec(subtitles: &Vec<Track>, output_presets: Vec<String>, pos: Option<usize>, ext: &str) -> (r: Vec<
    String,
>)
    requires
        pos matches Some(p) ==> p < subtitles@.len(),
    ensures
        strings_view(r@) == output_args(
            track_views(subtitles@),
            strings_view(output_presets@),
            match pos {
                Some(p) => Some(p as nat),
                None => None,
            },
            ext@,
        ),
{
    let mut output = output_presets;
    if let Some(p) = pos {
        if vec_eq_str(&chars_of(ext), "mkv") {
        } else if vec_eq_str(&chars_of(ext), "mp4") || vec_eq_str(&chars_of(ext), "mov") {
            let ghost before = strings_view(output@);
            output.push(String::from_str("-movflags"));
            output.push(String::from_str("faststart"));
            output.push(String::from_str("-c:s"));
            output.push(String::from_str("mov_text"));
            assert(strings_view(output@) =~= before + seq!["-movflags"@, "faststart"@, "-c:s"@, "mov_text"@]);
        } else {
            output = remove_copy_args(output);
            let ghost before = strings_view(output@);
            output.push(String::from_str("-vf"));
            output.push(joined("ass=", subtitles[p].path.as_str()));
            assert(strings_view(output@) =~= before + seq!["-vf"@, "ass="@ + track_views(subtitles@)[p as int].path]);
        }
    }
    output
}

/// The arguments of the ffmpeg call that merges the tracks into `dst`, whose file extension is
/// `ext` (see [`ffmpeg_args`]; the preset's arguments as [`preset_args`] gives them).
pub fn merge_args_with_extension(
    videos: &Vec<Track>,
    audios: &Vec<Track>,
    subtitles: &Vec<Track>,
    preset: FFmpegPreset,
    default_subtitle: &Option<Locale>,
    output_format: &Option<String>,
    dst: &str,
    ext: &str,
) -> (r: Vec<String>)
    requires
        videos@.len() + audios@.len() + subtitles@.len() <= u64::MAX,
    ensures
        strings_view(r@) == ffmpeg_args(
            track_views(videos@),
            track_views(audios@),
            track_views(subtitles@),
            preset_args(preset@).0,
            preset_args(preset@).1,
            match default_subtitle {
                Some(l) => Some(l@),
                None => None,
            },
            match output_format {
                Some(f) => Some(f@),
                None => None,
            },
            dst@,
            ext@,
        ),
{
    let ghost pv = preset@;
    let (input_presets, output_presets) = preset.into_input_output_args();
    let soft = vec_eq_str(&chars_of(ext), "mkv") || vec_eq_str(&chars_of(ext), "mp4") || vec_eq_str(
        &chars_of(ext),
        "mov",
    );
    let mut args = head_args_exec(videos, audios, subtitles, input_presets, soft);
    let pos = match default_subtitle {
        Some(l) => first_in_language_exec(subtitles, l),
        None => None,
    };
    if let Some(p) = pos {
        if soft {
            let ghost before = strings_view(args@);
            args.push(numbered("-disposition:s:s:", p as u64));
            args.push(String::from_str("default+forced"));
            assert(strings_view(args@) =~= before + seq!["-disposition:s:s:"@ + decimal(p as nat), "default+forced"@]);
        }
    }
    let output = output_args_exec(subtitles, output_presets, pos, ext);
    push_all(&mut args, output);
    match output_format {
        Some(f) => {
            let ghost before = strings_view(args@);
            args.push(String::from_str("-f"));
            args.push(f.clone());
            assert(strings_view(args@) =~= before + seq!["-f"@, f@]);
        },
        None => {},
    }
    let ghost before = strings_view(args@);
    args.push(String::from_str(dst));
    assert(strings_view(args@) =~= before + seq![dst@]);
    args
}

/// The arguments of the ffmpeg call that merges the tracks into `dst` (see
/// [`merge_args_with_extension`]).
pub fn merge_args(
    videos: &Vec<Track>,
    audios: &Vec<Track>,
    subtitles: &Vec<Track>,
    preset: FFmpegPreset,
    default_subtitle: &Option<Locale>,
    output_format: &Option<String>,
    dst: &str,
) -> (r: Vec<String>)
    requires
        videos@.len() + audios@.len() + subtitles@.len() <= u64::MAX,
    ensures
        strings_view(r@) == ffmpeg_args(
            track_views(videos@),
            track_views(audios@),
            track_views(subtitles@),
            preset_args(preset@).0,
            preset_args(preset@).1,
            match default_subtitle {
                Some(l) => Some(l@),
                None => None,
            },
            match output_format {
                Some(f) => Some(f@),
                None => None,
            },
            dst@,
            extension_of(dst@),
        ),
{
    let ext = path_extension(dst);
    merge_args_with_extension(videos, audios, subtitles, preset, default_subtitle, output_format, dst, ext.as_str())
}

/// The position of the first occurrence of `l` in `s`.
pub open spec fn position_of(s: Seq<LocaleView>, l: LocaleView) -> Option<nat>
    decreases s.len(),
{
    if s.len() == 0 {
        None
    } else {
        match position_of(s.drop_last(), l) {
            Some(p) => Some(p),
            None => if s.last() == l {
                Some((s.len() - 1) as nat)
            } else {
                None
            },
        }
    }
}

/// The sort key of a locale under a preferred order: locales missing from it come first, then the
/// others in its order.
pub open spec fn locale_key(sort: Seq<LocaleView>, l: LocaleView) -> nat {
    match position_of(sort, l) {
        None => 0,
        Some(p) => p + 1,
    }
}

/// The sort key of a subtitle: its locale's key, full subtitles before closed captions.
pub open spec fn subtitle_key(sort: Seq<LocaleView>, l: LocaleView, not_cc: bool) -> nat {
    2 * locale_key(sort, l) + (if not_cc { 0nat } else { 1nat })
}

/// Whether `order` lists the indices `0..n` each once.
pub open spec fn is_permutation(order: Seq<usize>, n: nat) -> bool {
    &&& order.len() == n
    &&& forall|i: int| 0 <= i < n ==> #[trigger] order[i] < n
    &&& forall|i: int, j: int| 0 <= i < j < n ==> order[i] != order[j]
    &&& forall|k: int| 0 <= k < n ==> #[trigger] listed(order, k)
}

/// Whether index `k` occurs in `order`.
pub open spec fn listed(order: Seq<usize>, k: int) -> bool {
    exists|i: int| 0 <= i < order.len() && order[i] == k
}

/// Whether `order` lists indices by ascending key, indices of equal keys in their own order (a
/// stable sort).
pub open spec fn stably_sorted(keys: Seq<u64>, order: Seq<usize>) -> bool {
    forall|i: int, j: int|
        0 <= i < j < order.len() ==> (keys[order[i] as int] < keys[order[j] as int] || (keys[order[i] as int]
            == keys[order[j] as int] && order[i] < order[j]))
}

/// The order in which a stable sort by `keys` puts the indices `0..keys.len()`.
pub fn stable_order(keys: &Vec<u64>) -> (r: Vec<usize>)
    ensures
        is_permutation(r@, keys@.len()),
        stably_sorted(keys@, r@),
{
    let mut order: Vec<usize> = Vec::new();
    let mut idx: usize = 0;
    while idx < keys.len()
        invariant
            idx <= keys@.len(),
            order@.len() == idx,
            forall|i: int| 0 <= i < idx ==> #[trigger] order@[i] < idx,
            forall|k: int| 0 <= k < idx ==> #[trigger] listed(order@, k),
            stably_sorted(keys@, order@),
        decreases keys@.len() - idx,
    {
        let k = keys[idx];
        let mut p: usize = 0;
        while p < order.len() && keys[order[p]] <= k
            invariant
                p <= order@.len(),
                order@.len() == idx,
                idx < keys@.len(),
                k == keys@[idx as int],
                forall|i: int| 0 <= i < idx ==> #[trigger] order@[i] < idx,
                forall|q: int| 0 <= q < p ==> keys@[#[trigger] order@[q] as int] <= k,
            decreases order@.len() - p,
        {
            p = p + 1;
        }
        let ghost before = order@;
        order.insert(p, idx);
        assert forall|k: int| 0 <= k < idx + 1 implies #[trigger] listed(order@, k) by {
            if k == idx {
                assert(order@[p as int] == k);
            } else {
                assert(listed(before, k));
                let q = choose|i: int| 0 <= i < before.len() && before[i] == k;
                if q < p {
                    assert(order@[q] == k);
                } else {
                    assert(order@[q + 1] == k);
                }
            }
        }
        assert forall|i: int, j: int| 0 <= i < j < order@.len() implies (keys@[order@[i] as int] < keys@[order@[j] as int]
            || (keys@[order@[i] as int] == keys@[order@[j] as int] && order@[i] < order@[j])) by {
            if j < p {
                assert(order@[i] == before[i] && order@[j] == before[j]);
            } else if j == p {
                assert(order@[i] == before[i]);
            } else if i == p {
                assert(order@[j] == before[j - 1]);
                assert(p < before.len());
                assert(keys@[before[p as int] as int] > k);
                if j - 1 > p {
                    assert(keys@[before[p as int] as int] <= keys@[before[j - 1] as int]);
                }
            } else if i < p {
                assert(order@[i] == before[i] && order@[j] == before[j - 1]);
            } else {
                assert(order@[i] == before[i - 1] && order@[j] == before[j - 1]);
            }
        }
        idx = idx + 1;
    }
    proof {
        assert forall|i: int, j: int| 0 <= i < j < keys@.len() implies order@[i] != order@[j] by {
            assert(keys@[order@[i] as int] < keys@[order@[j] as int] || order@[i] < order@[j]);
        }
    }
    order
}

/// The position of `l` in `sort`.
pub(crate) fn position_of_exec(sort: &Vec<Locale>, l: &Locale) -> (r: Option<usize>)
    ensures
        match r {
            Some(p) => p < sort@.len() && position_of(views(sort@), l@) == Some(p as nat),
            None => position_of(views(sort@), l@) is None,
        },
{
    let ghost sv = views(sort@);
    let mut i: usize = 0;
    while i < sort.len()
        invariant
            i <= sort@.len(),
            sv == views(sort@),
            position_of(sv.subrange(0, i as int), l@) is None,
        decreases sort@.len() - i,
    {
        assert(sv.subrange(0, i + 1).drop_last() =~= sv.subrange(0, i as int));
        if sort[i].same(l) {
            proof { lemma_position_of_prefix(sv, (i + 1) as nat, l@); }
            return Some(i);
        }
        i = i + 1;
    }
    assert(sv.subrange(0, sv.len() as int) =~= sv);
    None
}

/// The first position of a locale is found in the shortest prefix that holds it.
proof fn lemma_position_of_prefix(s: Seq<LocaleView>, n: nat, l: LocaleView)
    requires
        n <= s.len(),
        position_of(s.subrange(0, n as int), l) is Some,
    ensures
        position_of(s, l) == position_of(s.subrange(0, n as int), l),
    decreases s.len() - n,
{
    if n < s.len() {
        assert(s.subrange(0, (n + 1) as int).drop_last() =~= s.subrange(0, n as int));
        lemma_position_of_prefix(s, n + 1, l);
    } else {
        assert(s.subrange(0, n as int) =~= s);
    }
}

/// The order of audio tracks (or of versions by their video's locale) under the preferred
/// locale order `sort` (see [`locale_key`]).
pub fn audio_order(sort: &Vec<Locale>, locales: &Vec<Locale>) -> (r: Vec<usize>)
    requires
        sort@.len() < 0x4000_0000_0000_0000,
    ensures
        is_permutation(r@, locales@.len()),
        stably_sorted(Seq::new(locales@.len(), |i: int| locale_key(views(sort@), locales@[i]@) as u64), r@),
{
    let mut keys: Vec<u64> = Vec::new();
    let mut i: usize = 0;
    while i < locales.len()
        invariant
            i <= locales@.len(),
            sort@.len() < 0x4000_0000_0000_0000,
            keys@ =~= Seq::new(i as nat, |j: int| locale_key(views(sort@), locales@[j]@) as u64),
        decreases locales@.len() - i,
    {
        let k: u64 = match position_of_exec(sort, &locales[i]) {
            Some(p) => p as u64 + 1,
            None => 0,
        };
        keys.push(k);
        i = i + 1;
    }
    stable_order(&keys)
}

/// The order of subtitle tracks `(locale, not closed captions)` under the preferred locale order
/// `sort` (see [`subtitle_key`]).
pub fn subtitle_order(sort: &Vec<Locale>, subtitles: &Vec<(Locale, bool)>) -> (r: Vec<usize>)
    requires
        sort@.len() < 0x4000_0000_0000_0000,
    ensures
        is_permutation(r@, subtitles@.len()),
        stably_sorted(
            Seq::new(subtitles@.len(), |i: int| subtitle_key(views(sort@), subtitles@[i].0@, subtitles@[i].1) as u64),
            r@,
        ),
{
    let mut keys: Vec<u64> = Vec::new();
    let mut i: usize = 0;
    while i < subtitles.len()
        invariant
            i <= subtitles@.len(),
            sort@.len() < 0x4000_0000_0000_0000,
            keys@ =~= Seq::new(i as nat, |j: int| subtitle_key(views(sort@), subtitles@[j].0@, subtitles@[j].1) as u64),
        decreases subtitles@.len() - i,
    {
        let base: u64 = match position_of_exec(sort, &subtitles[i].0) {
            Some(p) => 2 * (p as u64 + 1),
            None => 0,
        };
        let k: u64 = if subtitles[i].1 { base } else { base + 1 };
        keys.push(k);
        i = i + 1;
    }
    stable_order(&keys)
}

/// The sum of a sequence of numbers.
pub open spec fn sum(s: Seq<u64>) -> nat
    decreases s.len(),
{
    if s.len() == 0 {
        0
    } else {
        sum(s.drop_last()) + s.last() as nat
    }
}

/// The estimated size in bytes of a stream with `bandwidth` bits per second whose segments last
/// `segment_seconds` each.
pub fn estimate_variant_file_size(bandwidth: u64, segment_seconds: &Vec<u64>) -> (r: u64)
    requires
        sum(segment_seconds@) <= u64::MAX,
        sum(segment_seconds@) * (bandwidth / 8) <= u64::MAX,
    ensures
        r == (bandwidth / 8) * sum(segment_seconds@),
{
    let mut total: u64 = 0;
    let mut i: usize = 0;
    proof {
        assert(segment_seconds@.subrange(0, segment_seconds@.len() as int) =~= segment_seconds@);
    }
    while i < segment_seconds.len()
        invariant
            i <= segment_seconds@.len(),
            total == sum(segment_seconds@.subrange(0, i as int)),
            sum(segment_seconds@) <= u64::MAX,
            sum(segment_seconds@) * (bandwidth / 8) <= u64::MAX,
        decreases segment_seconds@.len() - i,
    {
        proof {
            assert(segment_seconds@.subrange(0, i + 1).drop_last() =~= segment_seconds@.subrange(0, i as int));
            lemma_sum_prefix(segment_seconds@, (i + 1) as nat);
        }
        total = total + segment_seconds[i];
        i = i + 1;
    }
    assert(segment_seconds@.subrange(0, segment_seconds@.len() as int) =~= segment_seconds@);
    let rate = bandwidth / 8;
    assert(rate * total <= u64::MAX) by (nonlinear_arith)
        requires
            total == sum(segment_seconds@),
            sum(segment_seconds@) * rate <= u64::MAX,
    ;
    rate * total
}

/// A prefix sums to no more than the whole sequence.
proof fn lemma_sum_prefix(s: Seq<u64>, n: nat)
    requires
        n <= s.len(),
    ensures
        sum(s.subrange(0, n as int)) <= sum(s),
    decreases s.len() - n,
{
    if n < s.len() {
        lemma_sum_prefix(s, n + 1);
        assert(s.subrange(0, (n + 1) as int).drop_last() =~= s.subrange(0, n as int));
    } else {
        assert(s.subrange(0, n as int) =~= s);
    }
}

/// Which of the temporary directory and the destination lacks space for `required` bytes.
/// Where both seem to be on one partition (same total size, free space differing by less than
/// 10 KiB) each is credited twice its free space, as the comparison weighs the sum of both needs; the
/// destination is only checked where it is a regular output file.
pub open spec fn space_shortage(
    required: nat,
    tmp_total: nat,
    tmp_available: nat,
    dst_total: nat,
    dst_available: nat,
    dst_is_output_file: bool,
) -> (bool, bool) {
    let diff = if tmp_available >= dst_available { tmp_available - dst_available } else { dst_available - tmp_available };
    let factor: nat = if tmp_total == dst_total && diff < 10240 { 2 } else { 1 };
    (tmp_available * factor < required, dst_is_output_file && dst_available * factor < required)
}

/// Whether the output goes to a regular file (not a special file such as a pipe, nor `-`, which
/// stands for standard output).
pub open spec fn is_output_file(dst: Seq<char>, special: bool) -> bool {
    !special && dst != "-"@
}

/// Which of the temporary directory and the destination `dst` lacks space (see
/// [`space_shortage`]); `dst_special` tells whether `dst` is a special file.
pub fn check_free_space(
    required: u64,
    tmp_total: u64,
    tmp_available: u64,
    dst_total: u64,
    dst_available: u64,
    dst: &str,
    dst_special: bool,
) -> (r: (bool, bool))
    requires
        tmp_available <= i64::MAX,
        dst_available <= i64::MAX,
    ensures
        r == space_shortage(
            required as nat,
            tmp_total as nat,
            tmp_available as nat,
            dst_total as nat,
            dst_available as nat,
            is_output_file(dst@, dst_special),
        ),
{
    let diff = if tmp_available >= dst_available { tmp_available - dst_available } else { dst_available - tmp_available };
    let mut tmp_space = tmp_available;
    let mut dst_space = dst_available;
    if tmp_total == dst_total && diff < 10240 {
        tmp_space = tmp_space * 2;
        dst_space = dst_space * 2;
    }
    let output_file = !dst_special && !vec_eq_str(&chars_of(dst), "-");
    (tmp_space < required, output_file && dst_space < required)
}

/// The settings of a download, collected before it starts.
pub struct DownloadBuilder {
    pub ffmpeg_preset: FFmpegPreset,
    pub default_subtitle: Option<Locale>,
    pub output_format: Option<String>,
    pub audio_sort: Option<Vec<Locale>>,
    pub subtitle_sort: Option<Vec<Locale>>,
}

impl DownloadBuilder {
    /// The default settings: streams copied as they are, no default subtitle, the output format
    /// taken from the file name, and no preferred order of audios or subtitles.
    pub fn new() -> (r: DownloadBuilder)
        ensures
            r.ffmpeg_preset@ == PresetView::Custom(Some("-c:v copy -c:a copy"@)),
            r.default_subtitle is None,
            r.output_format is None,
            r.audio_sort is None,
            r.subtitle_sort is None,
    {
        DownloadBuilder {
            ffmpeg_preset: FFmpegPreset::default(),
            default_subtitle: None,
            output_format: None,
            audio_sort: None,
            subtitle_sort: None,
        }
    }

    /// Sets the ffmpeg preset.
    pub fn ffmpeg_preset(self, value: FFmpegPreset) -> (r: DownloadBuilder)
        ensures
            r == (DownloadBuilder { ffmpeg_preset: value, ..self }),
    {
        DownloadBuilder { ffmpeg_preset: value, ..self }
    }

    /// Sets the subtitle that is shown by default.
    pub fn default_subtitle(self, value: Option<Locale>) -> (r: DownloadBuilder)
        ensures
            r == (DownloadBuilder { default_subtitle: value, ..self }),
    {
        DownloadBuilder { default_subtitle: value, ..self }
    }

    /// Sets the output format handed to ffmpeg.
    pub fn output_format(self, value: Option<String>) -> (r: DownloadBuilder)
        ensures
            r == (DownloadBuilder { output_format: value, ..self }),
    {
        DownloadBuilder { output_format: value, ..self }
    }

    /// Sets the preferred order of audio locales.
    pub fn audio_sort(self, value: Option<Vec<Locale>>) -> (r: DownloadBuilder)
        ensures
            r == (DownloadBuilder { audio_sort: value, ..self }),
    {
        DownloadBuilder { audio_sort: value, ..self }
    }

    /// Sets the preferred order of subtitle locales.
    pub fn subtitle_sort(self, value: Option<Vec<Locale>>) -> (r: DownloadBuilder)
        ensures
            r == (DownloadBuilder { subtitle_sort: value, ..self }),
    {
        DownloadBuilder { subtitle_sort: value, ..self }
    }

    /// The downloader with these settings.
    pub fn build(self) -> (r: Downloader)
        ensures
            r.ffmpeg_preset == self.ffmpeg_preset,
            r.default_subtitle == self.default_subtitle,
            r.output_format == self.output_format,
            r.audio_sort == self.audio_sort,
            r.subtitle_sort == self.subtitle_sort,
    {
        Downloader {
            ffmpeg_preset: self.ffmpeg_preset,
            default_subtitle: self.default_subtitle,
            output_format: self.output_format,
            audio_sort: self.audio_sort,
            subtitle_sort: self.subtitle_sort,
        }
    }
}

/// The settings with which downloaded streams are merged (see [`merge_args`], [`audio_order`] and
/// [`subtitle_order`]).
pub struct Downloader {
    pub ffmpeg_preset: FFmpegPreset,
    pub default_subtitle: Option<Locale>,
    pub output_format: Option<String>,
    pub audio_sort: Option<Vec<Locale>>,
    pub subtitle_sort: Option<Vec<Locale>>,
}

/// The subtitle downloaded for a wanted language: none where the video already has it burned in
/// or no language is wanted; else the first subtitle in that language (`(false, position)`), else
/// the first closed captions in it (`(true, position)`), else none.
pub open spec fn subtitle_choice(
    wanted: Option<LocaleView>,
    contains_hardsub: bool,
    subtitles: Seq<LocaleView>,
    captions: Seq<LocaleView>,
) -> Option<(bool, nat)> {
    if contains_hardsub {
        None
    } else {
        match wanted {
            None => None,
            Some(l) => match position_of(subtitles, l) {
                Some(p) => Some((false, p)),
                None => match position_of(captions, l) {
                    Some(p) => Some((true, p)),
                    None => None,
                },
            },
        }
    }
}

/// The subtitle downloaded for `wanted` among the stream's `subtitles` and `captions` (see
/// [`subtitle_choice`]): whether it is closed captions, and its position among them.
pub fn chosen_subtitle(wanted: &Option<Locale>, contains_hardsub: bool, subtitles: &Vec<Locale>, captions: &Vec<Locale>) -> (r: Option<(bool, usize)>)
    ensures
        match r {
            Some((cc, p)) => subtitle_choice(
                match wanted {
                    Some(l) => Some(l@),
                    None => None,
                },
                contains_hardsub,
                views(subtitles@),
                views(captions@),
            ) == Some((cc, p as nat)),
            None => subtitle_choice(
                match wanted {
                    Some(l) => Some(l@),
                    None => None,
                },
                contains_hardsub,
                views(subtitles@),
                views(captions@),
            ) is None,
        },
{
    if contains_hardsub {
        return None;
    }
    match wanted {
        None => None,
        Some(l) => match position_of_exec(subtitles, l) {
            Some(p) => Some((false, p)),
            None => match position_of_exec(captions, l) {
                Some(p) => Some((true, p)),
                None => None,
            },
        },
    }
}

/// Whether a subtitle is taken for real subtitles rather than closed captions: where the audio is
/// Japanese or the stream has more than one subtitle.
pub fn not_closed_captions(audio: &Locale, subtitle_count: usize) -> (r: bool)
    ensures
        r == (audio@ == Locale::ja_JP@ || subtitle_count > 1),
{
    let ja = Locale::ja_JP;
    audio.same(&ja) || subtitle_count > 1
}

} // verus!
