//! The decisions of the `download` and `archive` commands that do not need the service: checks
//! of the options, which versions of an episode share one video, and whether an existing file is
//! kept.
use vstd::prelude::*;
use crate::text::{chars_of, lower, lower_vec, vec_eq_str, is_space, is_whitespace, occurs_at, occurs_at_exec, slice_vec, string_from};
use crate::locale::{Locale, LocaleView, views, contains_locale};
use crate::download::MergeBehavior;
use crate::os::{extension_of, path_extension};

verus! {

broadcast use vstd::string::group_string_axioms;

/// Whether the output goes to a special file (such as a pipe) or to standard output (`-`), where
/// no file extension can be asked for.
pub open spec fn is_stream_output(output: Seq<char>, special: bool) -> bool {
    special || output == "-"@
}

/// What the `download` command's check of its output paths finds: a path without file extension
/// (that is not a special file or `-`) is an error; the path for special episodes is checked
/// only where it is given.
pub open spec fn download_paths_check(
    output: Seq<char>,
    output_special: bool,
    output_specials: Option<Seq<char>>,
    specials_special: bool,
) -> Result<(), Seq<char>> {
    if extension_of(output).len() == 0 && !is_stream_output(output, output_special) {
        Err("No file extension found. Please specify a file extension (via `-o`) for the output file"@)
    } else {
        match output_specials {
            Some(s) => if extension_of(s).len() == 0 && !is_stream_output(s, specials_special) {
                Err("No file extension found. Please specify a file extension (via `--output-specials`) for the output file"@)
            } else {
                Ok(())
            },
            None => Ok(()),
        }
    }
}

/// Checks the output paths of the `download` command (see [`download_paths_check`]);
/// `output_special` and `specials_special` tell whether the paths are special files.
pub fn check_download_paths(output: &str, output_special: bool, output_specials: &Option<String>, specials_special: bool) -> (r:
    Result<(), String>)
    ensures
        match r {
            Ok(()) => download_paths_check(
                output@,
                output_special,
                match output_specials {
                    Some(s) => Some(s@),
                    None => None,
                },
                specials_special,
            ) == Ok::<(), Seq<char>>(()),
            Err(e) => download_paths_check(
                output@,
                output_special,
                match output_specials {
                    Some(s) => Some(s@),
                    None => None,
                },
                specials_special,
            ) == Err::<(), Seq<char>>(e@),
        },
{
    let ext = path_extension(output);
    if ext.as_str().is_empty() && !output_special && !vec_eq_str(&chars_of(output), "-") {
        return Err(
            String::from_str("No file extension found. Please specify a file extension (via `-o`) for the output file"),
        );
    }
    match output_specials {
        Some(s) => {
            let e = path_extension(s.as_str());
            if e.as_str().is_empty() && !specials_special && !vec_eq_str(&chars_of(s.as_str()), "-") {
                Err(
                    String::from_str(
                        "No file extension found. Please specify a file extension (via `--output-specials`) for the output file",
                    ),
                )
            } else {
                Ok(())
            }
        },
        None => Ok(()),
    }
}

/// Whether a container with this file extension can hold subtitle tracks.
pub open spec fn softsub_container(ext: Seq<char>) -> bool {
    ext == "mkv"@ || ext == "mov"@ || ext == "mp4"@
}

/// Whether the output file `path` can hold subtitle tracks.
pub fn supports_softsubs(path: &str) -> (r: bool)
    ensures
        r == softsub_container(extension_of(path@)),
{
    let ext = chars_of(path_extension(path).as_str());
    vec_eq_str(&ext, "mkv") || vec_eq_str(&ext, "mov") || vec_eq_str(&ext, "mp4")
}

/// The download command's softsub check agrees with the merge step: a file extension passes the
/// check exactly when the merge step keeps subtitle tracks in that container, so `mkv`, `mov` and
/// `mp4` outputs hold soft subtitles and only other containers get them burned in.
pub proof fn lemma_softsub_check_agrees_with_merge(ext: Seq<char>)
    ensures
        softsub_container(ext) == crate::download::supports_softsubs(ext),
        ext == "mkv"@ || ext == "mov"@ || ext == "mp4"@ ==> softsub_container(ext),
{
}

/// The format ffmpeg writes: MPEG-TS to a special file or standard output, else the one the file
/// extension implies.
pub fn download_output_format(output: &str, output_special: bool) -> (r: Option<String>)
    ensures
        match r {
            Some(f) => is_stream_output(output@, output_special) && f@ == "mpegts"@,
            None => !is_stream_output(output@, output_special),
        },
{
    if output_special || vec_eq_str(&chars_of(output), "-") {
        Some(String::from_str("mpegts"))
    } else {
        None
    }
}

/// Whether subtitles are burned into the video (hardsubs): where forced, else where the output
/// container (the one for special episodes, for a special episode) cannot hold them.
pub fn use_hardsubs(force_hardsub: bool, special_episode: bool, output_softsubs: bool, specials_softsubs: bool) -> (r:
    bool)
    ensures
        r == (force_hardsub || (if special_episode { !specials_softsubs } else { !output_softsubs })),
{
    if force_hardsub {
        true
    } else if special_episode {
        !specials_softsubs
    } else {
        !output_softsubs
    }
}

/// What the `archive` command's check of its options finds: outputs must be matroska files
/// (unless they are special files or `-`), and chapters can only be included when every version
/// shares one video.
pub open spec fn archive_check(
    output: Seq<char>,
    output_special: bool,
    output_specials: Option<Seq<char>>,
    specials_special: bool,
    include_chapters: bool,
    merge: MergeBehavior,
) -> Result<(), Seq<char>> {
    if extension_of(output) != "mkv"@ && !is_stream_output(output, output_special) {
        Err("File extension is not '.mkv'. Currently only matroska / '.mkv' files are supported"@)
    } else if (match output_specials {
        Some(s) => extension_of(s) != "mkv"@ && !is_stream_output(s, specials_special),
        None => false,
    }) {
        Err("File extension for special episodes is not '.mkv'. Currently only matroska / '.mkv' files are supported"@)
    } else if include_chapters && merge != MergeBehavior::Audio && merge != MergeBehavior::Sync {
        Err("`--include-chapters` can only be used if `--merge` is set to 'audio' or 'sync'"@)
    } else {
        Ok(())
    }
}

/// Checks the options of the `archive` command (see [`archive_check`]).
pub fn check_archive_options(
    output: &str,
    output_special: bool,
    output_specials: &Option<String>,
    specials_special: bool,
    include_chapters: bool,
    merge: MergeBehavior,
) -> (r: Result<(), String>)
    ensures
        match r {
            Ok(()) => archive_check(
                output@,
                output_special,
                match output_specials {
                    Some(s) => Some(s@),
                    None => None,
                },
                specials_special,
                include_chapters,
                merge,
            ) == Ok::<(), Seq<char>>(()),
            Err(e) => archive_check(
                output@,
                output_special,
                match output_specials {
                    Some(s) => Some(s@),
                    None => None,
                },
                specials_special,
                include_chapters,
                merge,
            ) == Err::<(), Seq<char>>(e@),
        },
{
    let ext = chars_of(path_extension(output).as_str());
    if !vec_eq_str(&ext, "mkv") && !output_special && !vec_eq_str(&chars_of(output), "-") {
        return Err(String::from_str("File extension is not '.mkv'. Currently only matroska / '.mkv' files are supported"));
    }
    if let Some(s) = output_specials {
        let e = chars_of(path_extension(s.as_str()).as_str());
        if !vec_eq_str(&e, "mkv") && !specials_special && !vec_eq_str(&chars_of(s.as_str()), "-") {
            return Err(
                String::from_str(
                    "File extension for special episodes is not '.mkv'. Currently only matroska / '.mkv' files are supported",
                ),
            );
        }
    }
    let audio = match merge {
        MergeBehavior::Audio | MergeBehavior::Sync => true,
        _ => false,
    };
    if include_chapters && !audio {
        return Err(String::from_str("`--include-chapters` can only be used if `--merge` is set to 'audio' or 'sync'"));
    }
    Ok(())
}

/// `|x|`.
pub open spec fn dist(x: int, y: int) -> int {
    if x >= y { x - y } else { y - x }
}

/// The index of the first group whose length is closest to `d`.
pub open spec fn closest(groups: Seq<i64>, d: i64) -> Option<nat>
    decreases groups.len(),
{
    if groups.len() == 0 {
        None
    } else {
        match closest(groups.drop_last(), d) {
            None => Some((groups.len() - 1) as nat),
            Some(i) => if dist(groups.last() as int, d as int) < dist(groups[i as int] as int, d as int) {
                Some((groups.len() - 1) as nat)
            } else {
                Some(i)
            },
        }
    }
}

/// The groups of versions that share one video, for versions of the given lengths (in
/// milliseconds) taken in order: a version joins the group whose first version's length is
/// closest to its own, where the two differ by less than `tolerance`; else it starts a new group.
/// Gives the length of each group's first version and the group of each version.
pub open spec fn merge_groups_of(lengths: Seq<i64>, tolerance: nat) -> (Seq<i64>, Seq<nat>)
    decreases lengths.len(),
{
    if lengths.len() == 0 {
        (Seq::empty(), Seq::empty())
    } else {
        let (groups, assigned) = merge_groups_of(lengths.drop_last(), tolerance);
        let d = lengths.last();
        match closest(groups, d) {
            Some(i) => if dist(groups[i as int] as int, d as int) < tolerance {
                (groups, assigned.push(i))
            } else {
                (groups.push(d), assigned.push(groups.len()))
            },
            None => (groups.push(d), assigned.push(groups.len())),
        }
    }
}

fn closest_exec(groups: &Vec<i64>, d: i64) -> (r: Option<usize>)
    requires
        forall|i: int| 0 <= i < groups@.len() ==> -0x2000_0000_0000_0000 <= #[trigger] groups@[i] <= 0x2000_0000_0000_0000,
        -0x2000_0000_0000_0000 <= d <= 0x2000_0000_0000_0000,
    ensures
        match r {
            Some(i) => i < groups@.len() && closest(groups@, d) == Some(i as nat),
            None => closest(groups@, d) is None,
        },
{
    let mut best: Option<usize> = None;
    let mut best_dist: i64 = 0;
    let mut i: usize = 0;
    while i < groups.len()
        invariant
            i <= groups@.len(),
            forall|k: int| 0 <= k < groups@.len() ==> -0x2000_0000_0000_0000 <= #[trigger] groups@[k] <= 0x2000_0000_0000_0000,
            -0x2000_0000_0000_0000 <= d <= 0x2000_0000_0000_0000,
            match best {
                Some(b) => b < i && closest(groups@.subrange(0, i as int), d) == Some(b as nat) && best_dist == dist(
                    groups@[b as int] as int,
                    d as int,
                ),
                None => i == 0,
            },
        decreases groups@.len() - i,
    {
        let g = groups[i];
        let di = if g >= d { g - d } else { d - g };
        assert(groups@.subrange(0, i + 1).drop_last() =~= groups@.subrange(0, i as int));
        match best {
            None => {
                best = Some(i);
                best_dist = di;
            },
            Some(b) => {
                assert(groups@.subrange(0, i + 1)[b as int] == groups@[b as int]);
                if di < best_dist {
                    best = Some(i);
                    best_dist = di;
                }
            },
        }
        i = i + 1;
    }
    assert(groups@.subrange(0, groups@.len() as int) =~= groups@);
    best
}

/// The versions whose group in `assigned` is `g`, in order.
pub open spec fn members_of(assigned: Seq<nat>, g: nat) -> Seq<usize>
    decreases assigned.len(),
{
    if assigned.len() == 0 {
        Seq::empty()
    } else {
        let m = members_of(assigned.drop_last(), g);
        if assigned.last() == g {
            m.push((assigned.len() - 1) as usize)
        } else {
            m
        }
    }
}

proof fn lemma_closest_in_range(groups: Seq<i64>, d: i64)
    ensures
        closest(groups, d) matches Some(i) ==> i < groups.len(),
        groups.len() > 0 ==> closest(groups, d) is Some,
    decreases groups.len(),
{
    if groups.len() > 0 {
        lemma_closest_in_range(groups.drop_last(), d);
    }
}

/// Each version joins a group that exists or starts the next one.
proof fn lemma_merge_groups_step(lengths: Seq<i64>, tolerance: nat)
    ensures
        merge_groups_of(lengths, tolerance).1.len() == lengths.len(),
        lengths.len() > 0 ==> {
            let before = merge_groups_of(lengths.drop_last(), tolerance);
            let after = merge_groups_of(lengths, tolerance);
            let a = after.1.last();
            &&& after.1 == before.1.push(a)
            &&& a <= before.0.len()
            &&& after.0.len() == before.0.len() + if a == before.0.len() { 1int } else { 0int }
        },
    decreases lengths.len(),
{
    if lengths.len() > 0 {
        lemma_merge_groups_step(lengths.drop_last(), tolerance);
        let before = merge_groups_of(lengths.drop_last(), tolerance);
        lemma_closest_in_range(before.0, lengths.last());
    }
}

/// The groups of the first versions do not depend on the versions after them.
proof fn lemma_merge_groups_prefix(lengths: Seq<i64>, tolerance: nat, j: int)
    requires
        0 <= j <= lengths.len(),
    ensures
        merge_groups_of(lengths.subrange(0, j), tolerance).1 == merge_groups_of(lengths, tolerance).1.subrange(0, j),
    decreases lengths.len(),
{
    lemma_merge_groups_step(lengths, tolerance);
    if j == lengths.len() {
        assert(lengths.subrange(0, j) =~= lengths);
        assert(merge_groups_of(lengths, tolerance).1.subrange(0, j) =~= merge_groups_of(lengths, tolerance).1);
    } else {
        lemma_merge_groups_prefix(lengths.drop_last(), tolerance, j);
        assert(lengths.drop_last().subrange(0, j) =~= lengths.subrange(0, j));
        assert(merge_groups_of(lengths.drop_last(), tolerance).1.subrange(0, j) =~= merge_groups_of(lengths, tolerance).1.subrange(0, j));
    }
}

proof fn lemma_no_members_beyond(assigned: Seq<nat>, c: nat)
    requires
        forall|i: int| 0 <= i < assigned.len() ==> #[trigger] assigned[i] < c,
    ensures
        members_of(assigned, c) == Seq::<usize>::empty(),
    decreases assigned.len(),
{
    if assigned.len() > 0 {
        lemma_no_members_beyond(assigned.drop_last(), c);
    }
}

/// Which versions are merged into which download, as `(version whose video is kept, versions whose
/// audio is kept)` per download: with `Video` every version is a download of its own; with `Audio`
/// one download takes the video of the first version and the audio of all; with `Auto` (and
/// `Sync`, which then syncs what is still apart) one download per group of [`merge_groups_of`],
/// with the video of the group's first version and the audio of its versions in order.
pub fn merge_plan(merge: MergeBehavior, lengths: &Vec<i64>, tolerance: u32) -> (r: Vec<(usize, Vec<usize>)>)
    requires
        forall|i: int| 0 <= i < lengths@.len() ==> -0x2000_0000_0000_0000 <= #[trigger] lengths@[i] <= 0x2000_0000_0000_0000,
    ensures
        merge == MergeBehavior::Video ==> r@.len() == lengths@.len() && forall|i: int|
            0 <= i < r@.len() ==> (#[trigger] r@[i]).0 == i && r@[i].1@ == seq![i as usize],
        merge == MergeBehavior::Audio ==> if lengths@.len() == 0 {
            r@.len() == 0
        } else {
            &&& r@.len() == 1
            &&& r@[0].0 == 0
            &&& r@[0].1@.len() == lengths@.len()
            &&& forall|i: int| 0 <= i < lengths@.len() ==> #[trigger] r@[0].1@[i] == i
        },
        merge == MergeBehavior::Auto || merge == MergeBehavior::Sync ==> {
            let mg = merge_groups_of(lengths@, tolerance as nat);
            &&& r@.len() == mg.0.len()
            &&& forall|k: int| 0 <= k < lengths@.len() ==> #[trigger] mg.1[k] < r@.len()
            &&& forall|g: int| 0 <= g < r@.len() ==> {
                &&& (#[trigger] r@[g]).1@ == members_of(mg.1, g as nat)
                &&& r@[g].1@.len() > 0
                &&& r@[g].0 == r@[g].1@[0]
            }
        },
{
    let n = lengths.len();
    let mut r: Vec<(usize, Vec<usize>)> = Vec::new();
    match merge {
        MergeBehavior::Video => {
            let mut i: usize = 0;
            while i < n
                invariant
                    i <= n,
                    n == lengths@.len(),
                    r@.len() == i,
                    forall|j: int| 0 <= j < i ==> (#[trigger] r@[j]).0 == j && r@[j].1@ == seq![j as usize],
                decreases n - i,
            {
                let mut one: Vec<usize> = Vec::new();
                one.push(i);
                r.push((i, one));
                i = i + 1;
            }
        },
        MergeBehavior::Audio => {
            if n > 0 {
                let mut all: Vec<usize> = Vec::new();
                let mut i: usize = 0;
                while i < n
                    invariant
                        i <= n,
                        all@.len() == i,
                        forall|j: int| 0 <= j < i ==> #[trigger] all@[j] == j,
                    decreases n - i,
                {
                    all.push(i);
                    i = i + 1;
                }
                r.push((0, all));
            }
        },
        MergeBehavior::Auto | MergeBehavior::Sync => {
            let assigned = merge_groups(lengths, tolerance);
            let ghost mg = merge_groups_of(lengths@, tolerance as nat);
            let mut k: usize = 0;
            proof {
                lemma_merge_groups_step(lengths@, tolerance as nat);
                assert(lengths@.subrange(0, 0) =~= Seq::<i64>::empty());
                assert(mg.1.subrange(0, 0) =~= Seq::<nat>::empty());
            }
            while k < n
                invariant
                    k <= n,
                    n == lengths@.len(),
                    mg == merge_groups_of(lengths@, tolerance as nat),
                    mg.1.len() == n,
                    assigned@.len() == n,
                    forall|i: int| 0 <= i < n ==> assigned@[i] as nat == #[trigger] mg.1[i],
                    r@.len() == merge_groups_of(lengths@.subrange(0, k as int), tolerance as nat).0.len(),
                    forall|i: int| 0 <= i < k ==> #[trigger] mg.1[i] < r@.len(),
                    forall|g: int| 0 <= g < r@.len() ==> {
                        &&& (#[trigger] r@[g]).1@ == members_of(mg.1.subrange(0, k as int), g as nat)
                        &&& r@[g].1@.len() > 0
                        &&& r@[g].0 == r@[g].1@[0]
                    },
                decreases n - k,
            {
                let a = assigned[k];
                let ghost pre = mg.1.subrange(0, k as int);
                let ghost post = mg.1.subrange(0, k + 1);
                proof {
                    lemma_merge_groups_step(lengths@.subrange(0, k + 1), tolerance as nat);
                    lemma_merge_groups_prefix(lengths@, tolerance as nat, k + 1);
                    assert(lengths@.subrange(0, k + 1).drop_last() =~= lengths@.subrange(0, k as int));
                    assert(post.drop_last() =~= pre);
                    assert(post.last() == mg.1[k as int]);
                }
                if a < r.len() {
                    let ghost old_r = r@;
                    let (v, mut members) = r.remove(a);
                    members.push(k);
                    r.insert(a, (v, members));
                    proof {
                        assert forall|g: int| 0 <= g < r@.len() implies {
                            &&& (#[trigger] r@[g]).1@ == members_of(post, g as nat)
                            &&& r@[g].1@.len() > 0
                            &&& r@[g].0 == r@[g].1@[0]
                        } by {
                            if g == a {
                                assert(r@[g].1@ == old_r[g].1@.push(k));
                            } else {
                                assert(r@[g] == old_r[g]);
                            }
                        }
                    }
                } else {
                    proof {
                        lemma_no_members_beyond(pre, a as nat);
                    }
                    let ghost old_r = r@;
                    let mut one: Vec<usize> = Vec::new();
                    one.push(k);
                    r.push((k, one));
                    proof {
                        assert forall|g: int| 0 <= g < r@.len() implies {
                            &&& (#[trigger] r@[g]).1@ == members_of(post, g as nat)
                            &&& r@[g].1@.len() > 0
                            &&& r@[g].0 == r@[g].1@[0]
                        } by {
                            if g < old_r.len() {
                                assert(r@[g] == old_r[g]);
                            } else {
                                assert(members_of(post, g as nat) =~= seq![k]);
                            }
                        }
                    }
                }
                k = k + 1;
            }
            proof {
                assert(lengths@.subrange(0, n as int) =~= lengths@);
                assert(mg.1.subrange(0, n as int) =~= mg.1);
            }
        },
    }
    r
}

/// The groups of versions that share one video (see [`merge_groups_of`]): the group of each
/// version, groups numbered in the order in which they start.
pub fn merge_groups(lengths: &Vec<i64>, tolerance: u32) -> (r: Vec<usize>)
    requires
        forall|i: int| 0 <= i < lengths@.len() ==> -0x2000_0000_0000_0000 <= #[trigger] lengths@[i] <= 0x2000_0000_0000_0000,
    ensures
        r@.len() == lengths@.len(),
        forall|i: int| 0 <= i < r@.len() ==> r@[i] as nat == #[trigger] merge_groups_of(lengths@, tolerance as nat).1[i],
{
    let mut groups: Vec<i64> = Vec::new();
    let mut assigned: Vec<usize> = Vec::new();
    let mut k: usize = 0;
    while k < lengths.len()
        invariant
            k <= lengths@.len(),
            forall|i: int| 0 <= i < lengths@.len() ==> -0x2000_0000_0000_0000 <= #[trigger] lengths@[i] <= 0x2000_0000_0000_0000,
            groups@ == merge_groups_of(lengths@.subrange(0, k as int), tolerance as nat).0,
            assigned@.len() == k,
            forall|i: int| 0 <= i < k ==> assigned@[i] as nat == #[trigger] merge_groups_of(lengths@.subrange(0, k as int), tolerance as nat).1[i],
            merge_groups_of(lengths@.subrange(0, k as int), tolerance as nat).1.len() == k,
            groups@.len() <= k,
            forall|i: int| 0 <= i < groups@.len() ==> -0x2000_0000_0000_0000 <= #[trigger] groups@[i] <= 0x2000_0000_0000_0000,
        decreases lengths@.len() - k,
    {
        let ghost prev = merge_groups_of(lengths@.subrange(0, k as int), tolerance as nat);
        assert(lengths@.subrange(0, k + 1).drop_last() =~= lengths@.subrange(0, k as int));
        let d = lengths[k];
        let c = closest_exec(&groups, d);
        let mut joined = false;
        if let Some(i) = c {
            let g = groups[i];
            let di = if g >= d { g - d } else { d - g };
            if di < tolerance as i64 {
                assigned.push(i);
                joined = true;
            }
        }
        if !joined {
            assigned.push(groups.len());
            groups.push(d);
        }
        proof {
            let next = merge_groups_of(lengths@.subrange(0, k + 1), tolerance as nat);
            assert(next.1 == prev.1.push(assigned@[k as int] as nat));
            assert forall|i: int| 0 <= i < k + 1 implies assigned@[i] as nat == #[trigger] next.1[i] by {
                if i < k {
                    assert(next.1[i] == prev.1[i]);
                }
            }
        }
        k = k + 1;
    }
    assert(lengths@.subrange(0, lengths@.len() as int) =~= lengths@);
    assigned
}

/// Whether an existing output file is kept (and the version skipped): always, unless a way to
/// compare is asked for and the file's tracks are known; then it is replaced where the version
/// has an audio (when audios are compared) or a subtitle (when subtitles are compared) that the
/// file lacks. Without closed captions, a version's subtitle in its own (non-Japanese) audio
/// language does not count.
pub open spec fn keeps_existing(
    compare_audio: bool,
    compare_subtitle: bool,
    existing: Option<(Seq<LocaleView>, Seq<LocaleView>)>,
    locales: Seq<(LocaleView, Seq<LocaleView>)>,
    no_closed_caption: bool,
) -> bool {
    if !compare_audio && !compare_subtitle {
        true
    } else {
        match existing {
            None => true,
            Some((audios, subtitles)) => {
                let audio_differ = compare_audio && exists|i: int|
                    0 <= i < locales.len() && !audios.contains(#[trigger] locales[i].0);
                let subtitle_differ = compare_subtitle && exists|i: int, j: int|
                    0 <= i < locales.len() && 0 <= j < locales[i].1.len() && !(no_closed_caption
                        && locales[i].0 != LocaleView::Known(11) && #[trigger] locales[i].1[j] == locales[i].0)
                        && !subtitles.contains(locales[i].1[j]);
                !(audio_differ || subtitle_differ)
            },
        }
    }
}

/// The views of the locales of a version: its audio and its subtitles.
pub open spec fn version_views(v: Seq<(Locale, Vec<Locale>)>) -> Seq<(LocaleView, Seq<LocaleView>)> {
    v.map_values(|p: (Locale, Vec<Locale>)| (p.0@, views(p.1@)))
}

fn is_japanese(l: &Locale) -> (r: bool)
    ensures
        r == (l@ == LocaleView::Known(11)),
{
    match l {
        Locale::ja_JP => true,
        Locale::Custom(_) => false,
        _ => {
            assert(l@ != LocaleView::Known(11));
            false
        },
    }
}

/// Whether an existing output file is kept (see [`keeps_existing`]); `existing` holds the audio
/// and subtitle languages of the file, where they could be read.
pub fn keep_existing_file(
    compare_audio: bool,
    compare_subtitle: bool,
    existing: &Option<(Vec<Locale>, Vec<Locale>)>,
    locales: &Vec<(Locale, Vec<Locale>)>,
    no_closed_caption: bool,
) -> (r: bool)
    ensures
        r == keeps_existing(
            compare_audio,
            compare_subtitle,
            match existing {
                Some((a, s)) => Some((views(a@), views(s@))),
                None => None,
            },
            version_views(locales@),
            no_closed_caption,
        ),
{
    if !compare_audio && !compare_subtitle {
        return true;
    }
    let (audios, subtitles) = match existing {
        None => {
            return true;
        },
        Some(p) => p,
    };
    let ghost lv = version_views(locales@);
    let mut audio_differ = false;
    if compare_audio {
        let mut i: usize = 0;
        while i < locales.len()
            invariant
                i <= locales@.len(),
                lv == version_views(locales@),
                !audio_differ ==> forall|k: int| 0 <= k < i ==> views(audios@).contains(#[trigger] lv[k].0),
                audio_differ ==> exists|k: int| 0 <= k < lv.len() && !views(audios@).contains(#[trigger] lv[k].0),
            decreases locales@.len() - i,
        {
            if !contains_locale(audios, &locales[i].0) {
                assert(!views(audios@).contains(lv[i as int].0));
                audio_differ = true;
            }
            i = i + 1;
        }
    }
    let mut subtitle_differ = false;
    if compare_subtitle {
        let mut i: usize = 0;
        while i < locales.len()
            invariant
                i <= locales@.len(),
                lv == version_views(locales@),
                !subtitle_differ ==> forall|k: int, j: int|
                    0 <= k < i && 0 <= j < lv[k].1.len() ==> (no_closed_caption && lv[k].0 != LocaleView::Known(11)
                        && #[trigger] lv[k].1[j] == lv[k].0) || views(subtitles@).contains(lv[k].1[j]),
                subtitle_differ ==> exists|k: int, j: int|
                    0 <= k < lv.len() && 0 <= j < lv[k].1.len() && !(no_closed_caption && lv[k].0 != LocaleView::Known(
                        11,
                    ) && #[trigger] lv[k].1[j] == lv[k].0) && !views(subtitles@).contains(lv[k].1[j]),
            decreases locales@.len() - i,
        {
            let (audio, subs) = (&locales[i].0, &locales[i].1);
            let ja = is_japanese(audio);
            let mut j: usize = 0;
            while j < subs.len()
                invariant
                    i < locales@.len(),
                    j <= subs@.len(),
                    lv == version_views(locales@),
                    lv[i as int].1 == views(subs@),
                    lv[i as int].0 == audio@,
                    ja == (audio@ == LocaleView::Known(11)),
                    !subtitle_differ ==> forall|k: int, jj: int|
                        0 <= k < i && 0 <= jj < lv[k].1.len() ==> (no_closed_caption && lv[k].0 != LocaleView::Known(11)
                            && #[trigger] lv[k].1[jj] == lv[k].0) || views(subtitles@).contains(lv[k].1[jj]),
                    !subtitle_differ ==> forall|jj: int|
                        0 <= jj < j ==> (no_closed_caption && lv[i as int].0 != LocaleView::Known(11) && #[trigger] lv[i as int].1[jj]
                            == lv[i as int].0) || views(subtitles@).contains(lv[i as int].1[jj]),
                    subtitle_differ ==> exists|k: int, jj: int|
                        0 <= k < lv.len() && 0 <= jj < lv[k].1.len() && !(no_closed_caption && lv[k].0 != LocaleView::Known(
                            11,
                        ) && #[trigger] lv[k].1[jj] == lv[k].0) && !views(subtitles@).contains(lv[k].1[jj]),
                decreases subs@.len() - j,
            {
                let omitted = no_closed_caption && !ja && subs[j].same(audio);
                if !omitted && !contains_locale(subtitles, &subs[j]) {
                    assert(lv[i as int].1[j as int] == subs@[j as int]@);
                    subtitle_differ = true;
                }
                j = j + 1;
            }
            i = i + 1;
        }
    }
    !(audio_differ || subtitle_differ)
}

/// How an existing output file is compared with a version before it is skipped.
#[derive(Clone, Copy, Debug, PartialEq, Eq, Structural)]
pub enum SkipExistingMethod {
    Audio,
    Subtitle,
}

/// What [`SkipExistingMethod::parse`] gives for `s`: the method whose name equals the lowercase
/// text, else an error message naming the text.
pub open spec fn skip_method_of(s: Seq<char>) -> Result<SkipExistingMethod, Seq<char>> {
    if lower(s) == "audio"@ {
        Ok(SkipExistingMethod::Audio)
    } else if lower(s) == "subtitle"@ {
        Ok(SkipExistingMethod::Subtitle)
    } else {
        Err("invalid skip existing method '"@ + s + "'"@)
    }
}

/// The name of a method: `audio` or `subtitle`.
pub open spec fn skip_method_name(m: SkipExistingMethod) -> Seq<char> {
    match m {
        SkipExistingMethod::Audio => "audio"@,
        SkipExistingMethod::Subtitle => "subtitle"@,
    }
}

/// The name of a method parses back to the method.
pub proof fn lemma_skip_method_name_parses_back(m: SkipExistingMethod)
    ensures
        skip_method_of(skip_method_name(m)) == Ok::<SkipExistingMethod, Seq<char>>(m),
{
    reveal_strlit("audio");
    reveal_strlit("subtitle");
    assert(lower("audio"@) =~= "audio"@);
    assert(lower("subtitle"@) =~= "subtitle"@);
    assert("audio"@.len() != "subtitle"@.len());
}

impl SkipExistingMethod {
    /// Parses a method, ignoring case (see [`skip_method_of`]).
    pub fn parse(s: &str) -> (r: Result<SkipExistingMethod, String>)
        ensures
            match r {
                Ok(m) => skip_method_of(s@) == Ok::<SkipExistingMethod, Seq<char>>(m),
                Err(e) => skip_method_of(s@) == Err::<SkipExistingMethod, Seq<char>>(e@),
            },
    {
        let low = lower_vec(&chars_of(s));
        if vec_eq_str(&low, "audio") {
            Ok(SkipExistingMethod::Audio)
        } else if vec_eq_str(&low, "subtitle") {
            Ok(SkipExistingMethod::Subtitle)
        } else {
            let mut e = String::from_str("invalid skip existing method '");
            e.append(s);
            e.append("'");
            Err(e)
        }
    }

    /// The methods used where none is given: none.
    pub fn default() -> (r: Vec<SkipExistingMethod>)
        ensures
            r@.len() == 0,
    {
        Vec::new()
    }

    /// The name of the method (see [`skip_method_name`]).
    pub fn name(&self) -> (r: &'static str)
        ensures
            r@ == skip_method_name(*self),
    {
        match self {
            SkipExistingMethod::Audio => "audio",
            SkipExistingMethod::Subtitle => "subtitle",
        }
    }
}

/// `None` for an empty list, else the list.
pub fn some_vec_or_none<T>(v: Vec<T>) -> (r: Option<Vec<T>>)
    ensures
        match r {
            Some(x) => v@.len() > 0 && x@ == v@,
            None => v@.len() == 0,
        },
{
    if v.len() == 0 {
        None
    } else {
        Some(v)
    }
}

/// How much is logged.
#[derive(Clone, Copy, Debug, PartialEq, Eq, Structural)]
pub enum LogLevel {
    Debug,
    Info,
    Error,
}

/// The log level of the verbosity flags `(verbose, quiet)`, if given: both at once are refused.
pub fn log_level(verbosity: Option<(bool, bool)>) -> (r: Result<LogLevel, String>)
    ensures
        match verbosity {
            None => r == Ok::<LogLevel, String>(LogLevel::Info),
            Some((v, q)) => if v && q {
                r matches Err(e) && e@ == "Output cannot be verbose ('-v') and quiet ('-q') at the same time"@
            } else if v {
                r == Ok::<LogLevel, String>(LogLevel::Debug)
            } else if q {
                r == Ok::<LogLevel, String>(LogLevel::Error)
            } else {
                r == Ok::<LogLevel, String>(LogLevel::Info)
            },
        },
{
    match verbosity {
        None => Ok(LogLevel::Info),
        Some((v, q)) => {
            if v && q {
                Err(String::from_str("Output cannot be verbose ('-v') and quiet ('-q') at the same time"))
            } else if v {
                Ok(LogLevel::Debug)
            } else if q {
                Ok(LogLevel::Error)
            } else {
                Ok(LogLevel::Info)
            }
        },
    }
}

/// A progress message that is open until it is stopped; one that is dropped while open ends with
/// an empty line.
pub struct ProgressHandler {
    pub stopped: bool,
}

impl ProgressHandler {
    /// Stops the progress: the message `msg` ends it (and nothing more is printed when the
    /// handler is dropped). Gives the message that ends the progress.
    pub fn stop(&mut self, msg: &str) -> (r: String)
        ensures
            final(self).stopped,
            r@ == msg@,
    {
        self.stopped = true;
        String::from_str(msg)
    }

    /// The message printed when the handler is dropped: an empty one while it is open.
    pub fn end_message(&self) -> (r: Option<String>)
        ensures
            match r {
                Some(m) => !self.stopped && m@.len() == 0,
                None => self.stopped,
            },
    {
        if self.stopped {
            None
        } else {
            Some(String::new())
        }
    }
}

/// The end of the run of ASCII digits that starts at `p`.
pub open spec fn digits_end(s: Seq<char>, p: int) -> int
    decreases s.len() - p,
{
    if 0 <= p < s.len() && '0' <= s[p] <= '9' {
        digits_end(s, p + 1)
    } else {
        p
    }
}

/// The end of the line that position `p` is on (the position of its line feed, or the end).
pub open spec fn line_end(s: Seq<char>, p: int) -> int
    decreases s.len() - p,
{
    if 0 <= p < s.len() && s[p] != '\n' {
        line_end(s, p + 1)
    } else {
        p
    }
}

/// The kind of stream named at `q`: `Some(true)` where `): Audio` follows (with any white space
/// character after the colon), `Some(false)` where `): Subtitle` does, else none.
pub open spec fn kind_at(s: Seq<char>, q: int) -> Option<bool> {
    if 0 <= q && q + 2 < s.len() && s[q] == ')' && s[q + 1] == ':' && is_space(s[q + 2]) {
        if occurs_at(s, "Audio"@, q + 3) {
            Some(true)
        } else if occurs_at(s, "Subtitle"@, q + 3) {
            Some(false)
        } else {
            None
        }
    } else {
        None
    }
}

/// The last position `q` with `a < q <= e` at which a stream kind is named.
pub open spec fn last_kind(s: Seq<char>, a: int, e: int) -> Option<int>
    decreases e - a,
{
    if e <= a {
        None
    } else if kind_at(s, e) is Some {
        Some(e)
    } else {
        last_kind(s, a, e - 1)
    }
}

/// The stream line that starts at `p` (`Stream #<digits>:<digits>(<language>): Audio` or
/// `... Subtitle`, the language taking all of the line it can): the span of the language and
/// whether the stream is audio.
pub open spec fn stream_at(s: Seq<char>, p: int) -> Option<(int, int, bool)> {
    let a = p + 7;
    let b = digits_end(s, a + 1);
    let c = digits_end(s, b + 1);
    if 0 <= p && occurs_at(s, "Stream"@, p) && p + 6 < s.len() && is_space(s[p + 6]) && a < s.len() && s[a] == '#'
        && b > a + 1 && b < s.len() && s[b] == ':' && c > b + 1 && c < s.len() && s[c] == '(' {
        match last_kind(s, c + 1, line_end(s, c + 1)) {
            Some(q) => Some((c + 1, q, kind_at(s, q)->0)),
            None => None,
        }
    } else {
        None
    }
}

/// Where a found stream line ends.
pub open spec fn stream_end(s: Seq<char>, m: (int, int, bool)) -> int {
    m.1 + 3 + if m.2 { 5int } else { 8int }
}

/// The stream lines of an ffmpeg report from position `p` on, each as its language and whether
/// it is audio: the first that starts at or after `p`, then those after it.
pub open spec fn streams_from(s: Seq<char>, p: int) -> Seq<(Seq<char>, bool)>
    decreases s.len() + 1 - p,
{
    if p < 0 || p > s.len() {
        Seq::empty()
    } else {
        match stream_at(s, p) {
            Some(m) => if p < stream_end(s, m) <= s.len() {
                seq![(s.subrange(m.0, m.1), m.2)] + streams_from(s, stream_end(s, m))
            } else {
                Seq::empty()
            },
            None => streams_from(s, p + 1),
        }
    }
}

/// The languages of the streams of one kind, as locales.
pub open spec fn stream_locales(found: Seq<(Seq<char>, bool)>, audio: bool) -> Seq<LocaleView>
    decreases found.len(),
{
    if found.len() == 0 {
        Seq::empty()
    } else {
        stream_locales(found.drop_last(), audio) + if found.last().1 == audio {
            seq![crate::locale::locale_from_tag(found.last().0)]
        } else {
            Seq::empty()
        }
    }
}

pub(crate) fn digits_end_exec(s: &Vec<char>, p: usize) -> (r: usize)
    requires
        p <= s@.len(),
    ensures
        r == digits_end(s@, p as int),
        p <= r <= s@.len(),
{
    let mut i = p;
    while i < s.len() && '0' <= s[i] && s[i] <= '9'
        invariant
            p <= i <= s@.len(),
            digits_end(s@, p as int) == digits_end(s@, i as int),
        decreases s@.len() - i,
    {
        i = i + 1;
    }
    i
}

fn line_end_exec(s: &Vec<char>, p: usize) -> (r: usize)
    requires
        p <= s@.len(),
    ensures
        r == line_end(s@, p as int),
        p <= r <= s@.len(),
{
    let mut i = p;
    while i < s.len() && s[i] != '\n'
        invariant
            p <= i <= s@.len(),
            line_end(s@, p as int) == line_end(s@, i as int),
        decreases s@.len() - i,
    {
        i = i + 1;
    }
    i
}

fn kind_at_exec(s: &Vec<char>, q: usize) -> (r: Option<bool>)
    ensures
        r == kind_at(s@, q as int),
{
    if s.len() >= 3 && q < s.len() - 2 && s[q] == ')' && s[q + 1] == ':' && is_whitespace(s[q + 2]) {
        if occurs_at_exec(s, &chars_of("Audio"), q + 3) {
            Some(true)
        } else if occurs_at_exec(s, &chars_of("Subtitle"), q + 3) {
            Some(false)
        } else {
            None
        }
    } else {
        None
    }
}

fn last_kind_exec(s: &Vec<char>, a: usize, e: usize) -> (r: Option<usize>)
    ensures
        match r {
            Some(q) => last_kind(s@, a as int, e as int) == Some(q as int),
            None => last_kind(s@, a as int, e as int) is None,
        },
{
    let mut q = e;
    while q > a
        invariant
            a <= q || q == e,
            q <= e,
            last_kind(s@, a as int, e as int) == last_kind(s@, a as int, q as int),
        decreases q,
    {
        if kind_at_exec(s, q).is_some() {
            return Some(q);
        }
        q = q - 1;
    }
    None
}

fn stream_at_exec(s: &Vec<char>, p: usize) -> (r: Option<(usize, usize, bool)>)
    requires
        p <= s@.len(),
        s@.len() + 20 < usize::MAX,
    ensures
        match r {
            Some(m) => stream_at(s@, p as int) == Some((m.0 as int, m.1 as int, m.2)),
            None => stream_at(s@, p as int) is None,
        },
{
    let a = p + 7;
    if !(occurs_at_exec(s, &chars_of("Stream"), p) && p + 6 < s.len() && is_whitespace(s[p + 6]) && a < s.len() && s[a] == '#') {
        return None;
    }
    let b = digits_end_exec(s, a + 1);
    if !(b > a + 1 && b < s.len() && s[b] == ':') {
        return None;
    }
    let c = digits_end_exec(s, b + 1);
    if !(c > b + 1 && c < s.len() && s[c] == '(') {
        return None;
    }
    let e = line_end_exec(s, c + 1);
    proof {
        lemma_last_kind(s@, c + 1, e as int);
    }
    match last_kind_exec(s, c + 1, e) {
        Some(q) => {
            let k = kind_at_exec(s, q);
            match k {
                Some(audio) => Some((c + 1, q, audio)),
                None => None,
            }
        },
        None => None,
    }
}

/// The audio and subtitle languages that an ffmpeg report of a file lists (see
/// [`streams_from`]), or none where it lists neither.
pub fn stream_languages(report: &str) -> (r: Option<(Vec<Locale>, Vec<Locale>)>)
    requires
        report@.len() + 20 < usize::MAX,
    ensures
        match r {
            Some((audio, subtitle)) => views(audio@) == stream_locales(streams_from(report@, 0), true) && views(subtitle@)
                == stream_locales(streams_from(report@, 0), false) && (audio@.len() > 0 || subtitle@.len() > 0),
            None => stream_locales(streams_from(report@, 0), true).len() == 0 && stream_locales(streams_from(report@, 0), false).len() == 0,
        },
{
    let s = chars_of(report);
    let ghost all = streams_from(s@, 0);
    let ghost mut done: Seq<(Seq<char>, bool)> = Seq::empty();
    let mut audio: Vec<Locale> = Vec::new();
    let mut subtitle: Vec<Locale> = Vec::new();
    let mut p: usize = 0;
    while p < s.len()
        invariant
            p <= s@.len(),
            s@ == report@,
            s@.len() + 20 < usize::MAX,
            all == streams_from(s@, 0),
            all == done + streams_from(s@, p as int),
            views(audio@) == stream_locales(done, true),
            views(subtitle@) == stream_locales(done, false),
        decreases s@.len() - p,
    {
        match stream_at_exec(&s, p) {
            Some(m) => {
                let (l0, l1, is_audio) = m;
                proof {
                    lemma_stream_at_bounds(s@, p as int);
                }
                let end = l1 + 3 + if is_audio { 5 } else { 8 };
                let lang = string_from(&slice_vec(&s, l0, l1));
                let l = Locale::from_tag(lang.as_str());
                let ghost item = (s@.subrange(l0 as int, l1 as int), is_audio);
                proof {
                    crate::locale::lemma_views_push(audio@, l);
                    crate::locale::lemma_views_push(subtitle@, l);
                }
                if is_audio {
                    audio.push(l);
                } else {
                    subtitle.push(l);
                }
                proof {
                    assert(done.push(item).drop_last() =~= done);
                    assert(streams_from(s@, p as int) == seq![item] + streams_from(s@, end as int));
                    done = done.push(item);
                    assert(all =~= done + streams_from(s@, end as int));
                }
                p = end;
            },
            None => {
                p = p + 1;
            },
        }
    }
    proof {
        if p == s.len() {
            assert(stream_at(s@, p as int) is None);
            assert(streams_from(s@, p as int + 1) =~= Seq::<(Seq<char>, bool)>::empty());
        }
        assert(all =~= done);
    }
    if audio.len() == 0 && subtitle.len() == 0 {
        None
    } else {
        Some((audio, subtitle))
    }
}

proof fn lemma_last_kind(s: Seq<char>, a: int, e: int)
    ensures
        last_kind(s, a, e) matches Some(q) ==> a < q <= e && kind_at(s, q) is Some,
    decreases e - a,
{
    if e > a && kind_at(s, e) is None {
        lemma_last_kind(s, a, e - 1);
    }
}

proof fn lemma_stream_at_bounds(s: Seq<char>, p: int)
    requires
        stream_at(s, p) is Some,
    ensures
        ({
            let m = stream_at(s, p)->0;
            &&& p < m.0 < m.1
            &&& kind_at(s, m.1) == Some(m.2)
            &&& stream_end(s, m) <= s.len()
        }),
{
    reveal_strlit("Audio");
    reveal_strlit("Subtitle");
    let a = p + 7;
    let b = digits_end(s, a + 1);
    let c = digits_end(s, b + 1);
    lemma_last_kind(s, c + 1, line_end(s, c + 1));
}

} // verus!
