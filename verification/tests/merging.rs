use crunchy_cli_core::download::{
    audio_order, chosen_subtitle, not_closed_captions, audio_track_title, check_free_space, estimate_variant_file_size, merge_args, remove_copy_args,
    stable_order, subtitle_order, subtitle_track_title, video_track_title, DownloadBuilder, MergeBehavior, Track,
};
use crunchy_cli_core::ffmpeg::FFmpegPreset;
use crunchy_cli_core::locale::Locale;
use crunchy_cli_core::segments::{distribute_segments, SegmentBuffer};

fn track(path: &str, language: Locale, title: &str) -> Track {
    Track { path: path.to_string(), language, title: title.to_string(), offset: None }
}

fn strings(v: &[&str]) -> Vec<String> {
    v.iter().map(|s| s.to_string()).collect()
}

#[test]
fn merge_behavior_parse() {
    assert_eq!(MergeBehavior::parse("Video"), Ok(MergeBehavior::Video));
    assert_eq!(MergeBehavior::parse("AUDIO"), Ok(MergeBehavior::Audio));
    assert_eq!(MergeBehavior::parse("auto"), Ok(MergeBehavior::Auto));
    assert_eq!(MergeBehavior::parse("sync"), Ok(MergeBehavior::Sync));
    assert_eq!(MergeBehavior::parse("both"), Err("'both' is not a valid merge behavior".to_string()));
}

#[test]
fn track_titles() {
    assert_eq!(audio_track_title(&Locale::ja_JP, 0), "Japanese");
    assert_eq!(audio_track_title(&Locale::ja_JP, 1), "Japanese [Video: #2]");
    assert_eq!(subtitle_track_title(&Locale::en_US, true, 0), "English (US)");
    assert_eq!(subtitle_track_title(&Locale::en_US, false, 2), "English (US) (CC) [Video: #3]");
    assert_eq!(video_track_title(1, 0), "Default");
    assert_eq!(video_track_title(2, 1), "#2");
}

#[test]
fn copy_arguments_are_removed() {
    let args = strings(&["-c:v", "copy", "-crf", "18", "-c:a", "copy", "-x", "copy"]);
    assert_eq!(remove_copy_args(args), strings(&["-crf", "18", "-x", "copy"]));
    assert_eq!(remove_copy_args(strings(&["-c:a"])), strings(&["-c:a"]));
}

#[test]
fn merge_into_matroska() {
    let videos = vec![track("/tmp/v.mp4", Locale::ja_JP, "Default")];
    let audios = vec![track("/tmp/a.m4a", Locale::ja_JP, "Japanese")];
    let subs = vec![track("/tmp/s.ass", Locale::en_US, "English (US)")];
    let args = merge_args(&videos, &audios, &subs, FFmpegPreset::default(), &Some(Locale::en_US), &None, "out.mkv");
    let expected = strings(&[
        "-y", "-hide_banner", "-i", "/tmp/v.mp4", "-i", "/tmp/a.m4a", "-i", "/tmp/s.ass", "-map", "0", "-map", "1",
        "-map", "2", "-metadata:s:v:0", "title=Default", "-metadata:s:v:0", "language=", "-metadata:s:a:0",
        "language=ja-JP", "-metadata:s:a:0", "title=Japanese", "-metadata:s:s:0", "language=en-US",
        "-metadata:s:s:0", "title=English (US)", "-disposition:s:s:0", "default+forced", "-c:v", "copy", "-c:a", "copy",
        "out.mkv",
    ]);
    assert_eq!(args, expected);
}

#[test]
fn merge_into_mp4_adds_subtitle_codec() {
    let videos = vec![track("v", Locale::ja_JP, "Default")];
    let subs = vec![track("s", Locale::de_DE, "German"), track("t", Locale::en_US, "English (US)")];
    let args = merge_args(&videos, &vec![], &subs, FFmpegPreset::default(), &Some(Locale::en_US), &None, "a/b.mp4");
    let expected = strings(&[
        "-y", "-hide_banner", "-i", "v", "-i", "s", "-i", "t", "-map", "0", "-map", "1", "-map", "2",
        "-metadata:s:v:0", "title=Default", "-metadata:s:v:0", "language=", "-metadata:s:s:0", "language=de-DE",
        "-metadata:s:s:0", "title=German", "-metadata:s:s:1", "language=en-US", "-metadata:s:s:1",
        "title=English (US)", "-disposition:s:s:1", "default+forced", "-c:v", "copy", "-c:a", "copy", "-movflags",
        "faststart", "-c:s", "mov_text", "a/b.mp4",
    ]);
    assert_eq!(args, expected);
}

#[test]
fn merge_into_mov_keeps_soft_subtitles() {
    let videos = vec![track("v", Locale::ja_JP, "Default")];
    let subs = vec![track("s", Locale::en_US, "English (US)")];
    let args = merge_args(&videos, &vec![], &subs, FFmpegPreset::default(), &Some(Locale::en_US), &None, "a/b.mov");
    let expected = strings(&[
        "-y", "-hide_banner", "-i", "v", "-i", "s", "-map", "0", "-map", "1", "-metadata:s:v:0", "title=Default",
        "-metadata:s:v:0", "language=", "-metadata:s:s:0", "language=en-US", "-metadata:s:s:0", "title=English (US)",
        "-disposition:s:s:0", "default+forced", "-c:v", "copy", "-c:a", "copy", "-movflags", "faststart", "-c:s",
        "mov_text", "a/b.mov",
    ]);
    assert_eq!(args, expected);
}

#[test]
fn merge_burns_subtitles_into_other_containers() {
    let videos = vec![track("v", Locale::ja_JP, "Default")];
    let subs = vec![track("/tmp/s.ass", Locale::en_US, "English (US)")];
    let args = merge_args(
        &videos,
        &vec![],
        &subs,
        FFmpegPreset::default(),
        &Some(Locale::en_US),
        &Some("mpegts".to_string()),
        "-",
    );
    let expected = strings(&[
        "-y", "-hide_banner", "-i", "v", "-map", "0", "-metadata:s:v:0", "title=Default", "-metadata:s:v:0",
        "language=", "-vf", "ass=/tmp/s.ass", "-f", "mpegts", "-",
    ]);
    assert_eq!(args, expected);
}

#[test]
fn stable_orders() {
    assert_eq!(stable_order(&vec![3, 1, 3, 0, 1]), vec![3, 1, 4, 0, 2]);
    assert_eq!(stable_order(&vec![]), Vec::<usize>::new());
    let order = audio_order(&vec![Locale::ja_JP, Locale::de_DE], &vec![Locale::de_DE, Locale::en_US, Locale::ja_JP]);
    assert_eq!(order, vec![1, 2, 0]);
    let order = subtitle_order(
        &vec![Locale::en_US],
        &vec![(Locale::en_US, false), (Locale::de_DE, true), (Locale::en_US, true)],
    );
    assert_eq!(order, vec![1, 2, 0]);
}

#[test]
fn file_size_estimate() {
    assert_eq!(estimate_variant_file_size(8000, &vec![2, 3]), 5000);
    assert_eq!(estimate_variant_file_size(7, &vec![100]), 0);
}

#[test]
fn free_space() {
    assert_eq!(check_free_space(100, 1000, 60, 1000, 60, "out.mkv", false), (false, false));
    assert_eq!(check_free_space(100, 1000, 40, 1000, 40, "out.mkv", false), (true, true));
    assert_eq!(check_free_space(100, 1000, 40, 1000, 40, "-", false), (true, false));
    assert_eq!(check_free_space(100, 1000, 60, 2000, 60, "out.mkv", true), (true, false));
}

#[test]
fn builder_settings() {
    let d = DownloadBuilder::new()
        .default_subtitle(Some(Locale::de_DE))
        .output_format(Some("matroska".to_string()))
        .build();
    assert!(d.default_subtitle.unwrap().same(&Locale::de_DE));
    assert_eq!(d.output_format, Some("matroska".to_string()));
    assert!(d.audio_sort.is_none());
    let (_, output) = d.ffmpeg_preset.into_input_output_args();
    assert_eq!(output, strings(&["-c:v", "copy", "-c:a", "copy"]));
}

#[test]
fn segments_are_shared_round_robin() {
    assert_eq!(distribute_segments(5, 2), vec![vec![0, 2, 4], vec![1, 3]]);
    assert_eq!(distribute_segments(7, 3), vec![vec![0, 3, 6], vec![1, 4], vec![2, 5]]);
    assert_eq!(distribute_segments(1, 3), vec![vec![0], vec![], vec![]]);
}

#[test]
fn segments_are_written_in_order() {
    let mut b = SegmentBuffer::new();
    assert!(b.receive(1, vec![1]).is_empty());
    assert_eq!(b.receive(0, vec![0]), vec![vec![0], vec![1]]);
    assert!(b.receive(3, vec![3]).is_empty());
    assert!(b.receive(4, vec![4]).is_empty());
    assert_eq!(b.finish(), Err("Download buffer is not empty. Remaining segments: 3, 4".to_string()));
    assert_eq!(b.receive(2, vec![2]), vec![vec![2], vec![3], vec![4]]);
    assert_eq!(b.finish(), Ok(()));
}

#[test]
fn segments_arriving_backwards_are_written_in_order() {
    let mut b = SegmentBuffer::new();
    let mut written: Vec<Vec<u8>> = Vec::new();
    for pos in (0..5u64).rev() {
        written.extend(b.receive(pos, vec![pos as u8, 7]));
    }
    let expected: Vec<Vec<u8>> = (0..5u8).map(|p| vec![p, 7]).collect();
    assert_eq!(written, expected);
    assert_eq!(b.finish(), Ok(()));
}

#[test]
fn subtitle_or_captions_are_chosen() {
    let subs = vec![Locale::de_DE, Locale::en_US, Locale::en_US];
    let ccs = vec![Locale::fr_FR];
    assert_eq!(chosen_subtitle(&Some(Locale::en_US), false, &subs, &ccs), Some((false, 1)));
    assert_eq!(chosen_subtitle(&Some(Locale::fr_FR), false, &subs, &ccs), Some((true, 0)));
    assert_eq!(chosen_subtitle(&Some(Locale::ja_JP), false, &subs, &ccs), None);
    assert_eq!(chosen_subtitle(&Some(Locale::en_US), true, &subs, &ccs), None);
    assert_eq!(chosen_subtitle(&None, false, &subs, &ccs), None);
    assert!(not_closed_captions(&Locale::ja_JP, 1));
    assert!(not_closed_captions(&Locale::de_DE, 2));
    assert!(!not_closed_captions(&Locale::de_DE, 1));
}

#[test]
fn shifted_tracks_get_an_input_offset() {
    let videos = vec![track("v", Locale::ja_JP, "Default")];
    let mut audio = track("a", Locale::de_DE, "German");
    audio.offset = Some("-0:00:01.500".to_string());
    let args = merge_args(&videos, &vec![audio], &vec![], FFmpegPreset::default(), &None, &None, "out.mkv");
    let expected = strings(&[
        "-y", "-hide_banner", "-i", "v", "-itsoffset", "-0:00:01.500", "-i", "a", "-map", "0", "-map", "1",
        "-metadata:s:v:0", "title=Default", "-metadata:s:v:0", "language=", "-metadata:s:a:0", "language=de-DE",
        "-metadata:s:a:0", "title=German", "-c:v", "copy", "-c:a", "copy", "out.mkv",
    ]);
    assert_eq!(args, expected);
}
