use crunchy_cli_core::filter::{missing_locales, real_dedup_vec};
use crunchy_cli_core::fmt::{format_time_delta, TimeSpan};
use crunchy_cli_core::format::Format;
use crunchy_cli_core::locale::Locale;
use crunchy_cli_core::os::{free_file_candidate, is_special_file, renamed_file_name, sanitize, sanitize_with_rules};
use crunchy_cli_core::parse::{url_filter_of, Resolution, UrlFilter};
use crunchy_cli_core::search::{FilterOptions, Format as SearchFormat, Scope};
use crunchy_cli_core::sort::get_duplicated_seasons;
use crunchy_cli_core::subtitle::fix_subtitle_look_and_feel;
use crunchy_cli_core::sync::{as_u32_le, create_inverse_index, matching_positions, possible_shifts};
use crunchy_cli_core::video::{pick_audio, pick_video};

#[test]
fn sanitized_names() {
    assert_eq!(sanitize("  a/b:c?.txt  ", true, true), "abc.txt");
    assert_eq!(sanitize("a/b:c", false, false), "a/b:c");
    assert_eq!(sanitize("a/b", true, false), "ab");
    assert_eq!(sanitize("a\0b", false, false), "ab");
    assert_eq!(sanitize("CON.txt", false, true), "");
    assert_eq!(sanitize("com1", false, true), "");
    assert_eq!(sanitize("console", false, true), "console");
    assert_eq!(sanitize("...", false, false), "");
    assert_eq!(sanitize("name. . ", false, true), "name");
    assert_eq!(sanitize(&"a".repeat(300), false, false), "a".repeat(255));
}

#[test]
fn free_file_names() {
    assert_eq!(renamed_file_name("video", "mp4", 1), "video (1).mp4");
    assert_eq!(renamed_file_name("video (1)", "mp4", 2), "video (2).mp4");
    assert_eq!(renamed_file_name("video (1)", "mp4", 3), "video (1) (3).mp4");
    assert_eq!(renamed_file_name(".mp4", "", 1), " (1)..mp4");
    assert_eq!(free_file_candidate("dir/video.mp4", 1), "dir/video (1).mp4");
    assert!(is_special_file(true, false, false));
    assert!(!is_special_file(true, true, false));
    assert!(!is_special_file(false, false, false));
}

#[test]
fn deduplicated_locales() {
    let mut v = vec![Locale::de_DE, Locale::en_US, Locale::de_DE, Locale::ja_JP, Locale::en_US];
    real_dedup_vec(&mut v);
    assert_eq!(v.len(), 3);
    assert!(v[0].same(&Locale::de_DE) && v[1].same(&Locale::en_US) && v[2].same(&Locale::ja_JP));
    real_dedup_vec(&mut v);
    assert_eq!(v.len(), 3);
    let missing = missing_locales(&vec![Locale::de_DE], &vec![Locale::de_DE, Locale::en_US, Locale::ja_JP]);
    assert_eq!(missing.len(), 2);
    assert!(missing[0].same(&Locale::en_US) && missing[1].same(&Locale::ja_JP));
}

#[test]
fn time_deltas() {
    assert_eq!(format_time_delta(&TimeSpan { seconds: 3725, subsec_nanos: 45_000_000 }), "1:02:05.045");
    assert_eq!(format_time_delta(&TimeSpan { seconds: -61, subsec_nanos: -5_999_999 }), "-0:01:01.005");
    assert_eq!(format_time_delta(&TimeSpan { seconds: 0, subsec_nanos: 0 }), "0:00:00.000");
    assert_eq!(format_time_delta(&TimeSpan { seconds: 0, subsec_nanos: -1 }), "-0:00:00.000");
    assert_eq!(format_time_delta(&TimeSpan { seconds: 360000, subsec_nanos: 0 }), "100:00:00.000");
}

#[test]
fn subtitle_scaling_line() {
    let fixed = fix_subtitle_look_and_feel(b"[Script Info]\nTitle: x\n\n[V4+ Styles]\nFormat: a".to_vec());
    assert_eq!(
        String::from_utf8(fixed).unwrap(),
        "[Script Info]\nTitle: x\n\nScaledBorderAndShadows: yes\n[V4+ Styles]\nFormat: a\n"
    );
    let untouched = fix_subtitle_look_and_feel(b"[Events]\nDialogue: x".to_vec());
    assert_eq!(String::from_utf8(untouched).unwrap(), "[Events]\nDialogue: x\n");
}

#[test]
fn fingerprint_helpers() {
    assert_eq!(as_u32_le(&[1, 2, 3, 4]), 0x0403_0201);
    let index = create_inverse_index(&vec![5, 7, 5]);
    assert_eq!(index.len(), 2);
    assert_eq!(index[&5], 2);
    assert_eq!(index[&7], 1);
}

#[test]
fn duplicated_seasons() {
    assert_eq!(get_duplicated_seasons(&vec![1, 2, 1, 3, 2, 2]), vec![1, 2]);
    assert_eq!(get_duplicated_seasons(&vec![4, 3]), Vec::<u32>::new());
    assert_eq!(get_duplicated_seasons(&vec![9, 9, 0, 0]), vec![0, 9]);
}

#[test]
fn search_templates() {
    let f = match SearchFormat::new("{{ series.title }} - {{episode.number}}".to_string(), any_options()) {
        Ok(f) => f,
        Err(e) => panic!("{}", e),
    };
    assert_eq!(f.pattern.len(), 2);
    assert!(f.check_pattern_count_empty(Scope::Season));
    assert!(!f.check_pattern_count_empty(Scope::Series));
    let out = f.replace(&vec![
        (Scope::Episode, "number".to_string(), "3".to_string()),
        (Scope::Series, "title".to_string(), "One Piece".to_string()),
    ]);
    assert_eq!(out, "One Piece - 3");
    match SearchFormat::new("{{series.number}}".to_string(), any_options()) {
        Err(e) => assert_eq!(e, "'series.number' is not a valid keyword"),
        Ok(_) => panic!("series have no number"),
    }
    match SearchFormat::new("x {{foo.title}} {{bar.x}}".to_string(), any_options()) {
        Err(e) => assert_eq!(e, "'foo.title' is not a valid keyword"),
        Ok(_) => panic!("foo is no scope"),
    }
    let plain = SearchFormat::new("{ series.title } {{series.title".to_string(), any_options()).ok().unwrap();
    assert!(plain.pattern.is_empty());
}

#[test]
fn search_filters() {
    let opts = FilterOptions { audio: vec![Locale::ja_JP], filter_subtitles: true, url_filter: UrlFilter::default() };
    assert!(opts.check_audio_language(&vec![Locale::de_DE, Locale::ja_JP]));
    assert!(!opts.check_audio_language(&vec![Locale::de_DE]));
    assert!(!opts.check_movie_listing(&None));
    assert!(!opts.subtitle_kept(&Locale::de_DE));
    assert!(opts.episode_kept(&Locale::ja_JP, 3, 1));
    assert!(opts.season_kept(&vec![Locale::ja_JP], 2));
    let any = FilterOptions { audio: vec![], filter_subtitles: false, url_filter: UrlFilter::default() };
    assert!(any.check_series(&vec![]));
    assert!(any.subtitle_kept(&Locale::de_DE));
}

fn format() -> Format {
    Format {
        title: "A/B".to_string(),
        description: String::new(),
        locales: vec![(Locale::ja_JP, vec![]), (Locale::de_DE, vec![Locale::en_US])],
        resolution: Resolution { width: 1920, height: 1080 },
        series_id: "SID".to_string(),
        series_name: "S".to_string(),
        season_id: "SEID".to_string(),
        season_title: "Season".to_string(),
        season_number: 1,
        episode_id: "EID".to_string(),
        episode_number: "5".to_string(),
        sequence_number: 5000,
        relative_episode_number: None,
        relative_sequence_number: Some(4500),
        release_year: 2018,
        release_month: 1,
        release_day: 13,
    }
}

#[test]
fn output_paths_with_sizes_numbers_and_dates() {
    let f = format();
    let path = "{width}x{height} {sequence_number} {relative_sequence_number} {release_year}-{release_month}-{release_day}";
    assert_eq!(f.format_path(path, false), "1920x1080 05 4.5 2018-01-13");
    let mut g = format();
    g.sequence_number = 12050;
    g.relative_sequence_number = None;
    assert_eq!(g.format_path("{sequence_number} {relative_sequence_number}", false), "12.05 00");
}

#[test]
fn output_paths() {
    let f = format();
    let path = "{series_name}/S{season_number}E{episode_number} {title} [{audio}] {resolution} {relative_episode_number}.mkv";
    assert_eq!(f.format_path(path, false), "S/S01E05 A/B [ja-JP|de-DE] 1920x1080 00.mkv");
    assert_eq!(f.format_path("{title}.mkv", true), "AB.mkv");
    assert_eq!(f.format_path("{title}{title}", false), "A/BA/B");
    assert!(Format::has_relative_episodes_fmt("{relative_episode_number}.mkv"));
    assert!(!Format::has_relative_episodes_fmt("{episode_number}.mkv"));
}

#[test]
fn variant_choice() {
    let variants = vec![(100, 720), (300, 1080), (300, 720), (50, 1080)];
    assert_eq!(pick_video(&variants, u64::MAX), Some(1));
    assert_eq!(pick_video(&variants, 0), Some(3));
    assert_eq!(pick_video(&variants, 720), Some(2));
    assert_eq!(pick_video(&variants, 480), None);
    assert_eq!(pick_audio(&vec![5, 9, 9, 1]), 1);
}

#[test]
fn search_filters_keep_positions_in_order() {
    let (_, only_second) = url_filter_of("https://www.crunchyroll.com/series/X/y[S2]", true).ok().unwrap();
    let opts = FilterOptions { audio: vec![Locale::ja_JP], filter_subtitles: true, url_filter: only_second };
    let seasons = vec![
        (vec![Locale::ja_JP], 1),
        (vec![Locale::de_DE, Locale::ja_JP], 2),
        (vec![Locale::de_DE], 2),
        (vec![Locale::ja_JP], 2),
    ];
    assert_eq!(opts.filter_seasons(&seasons), vec![1, 3]);
    let episodes = vec![(Locale::ja_JP, 1, 2), (Locale::ja_JP, 4, 1), (Locale::en_US, 2, 2), (Locale::ja_JP, 9, 2)];
    assert_eq!(opts.filter_episodes(&episodes), vec![0, 3]);
    let subtitles = vec![Locale::de_DE, Locale::ja_JP, Locale::en_US, Locale::ja_JP];
    assert_eq!(opts.filter_subtitles(&subtitles), vec![1, 3]);
    let unfiltered = FilterOptions { audio: vec![Locale::ja_JP], filter_subtitles: false, url_filter: UrlFilter::default() };
    assert_eq!(unfiltered.filter_subtitles(&subtitles), vec![0, 1, 2, 3]);
}

fn any_options() -> FilterOptions {
    FilterOptions { audio: vec![], filter_subtitles: false, url_filter: UrlFilter::default() }
}

#[test]
fn renaming_steps_count_up_from_the_asked_name() {
    let mut path = "dir/video (1).mp4".to_string();
    let mut names = vec![];
    for i in 1..=3 {
        path = free_file_candidate(&path, i);
        names.push(path.clone());
    }
    assert_eq!(names, vec!["dir/video (1) (1).mp4", "dir/video (1) (2).mp4", "dir/video (1) (3).mp4"]);
}

#[test]
fn documented_search_keywords_are_accepted() {
    let t = "{{series.id}} {{series.release_year}} {{season.episodes}} {{episode.duration}} {{episode.air_date}} \
             {{movie.premium_only}} {{movie_listing.id}} {{music_video.duration}} {{concert.id}}";
    assert!(SearchFormat::new(t.to_string(), any_options()).is_ok());
    assert!(SearchFormat::new("{{movie_listing.duration}}".to_string(), any_options()).is_err());
}

#[test]
fn scaling_line_closes_the_script_info() {
    let raw = b"[Script Info]\nTitle: x\n[V4+ Styles]".to_vec();
    assert_eq!(
        fix_subtitle_look_and_feel(raw),
        b"[Script Info]\nTitle: x\nScaledBorderAndShadows: yes\n[V4+ Styles]\n".to_vec()
    );
}

#[test]
fn fingerprint_shifts_and_matches() {
    let mut shifts = possible_shifts(&vec![10, 20, 30, 4], &vec![5, 10, 21, 30]);
    shifts.sort();
    assert_eq!(shifts, vec![-3, 1]);
    let (lhs, rhs) = (vec![1, 2, 3, 4], vec![9, 1, 2, 7]);
    assert_eq!(matching_positions(&lhs, &rhs, 1, 0), (vec![0, 1], vec![1, 2]));
    assert_eq!(matching_positions(&lhs, &rhs, 1, 1), (vec![0, 1, 2], vec![1, 2, 3]));
    assert_eq!(matching_positions(&lhs, &rhs, -1, 1), (vec![2], vec![1]));
    assert_eq!(matching_positions(&lhs, &rhs, 10, 32), (vec![], vec![]));
}

#[test]
fn dedup_keeps_first_occurrences_in_order() {
    let mut v = vec![Locale::ja_JP, Locale::de_DE, Locale::ja_JP, Locale::en_US, Locale::de_DE, Locale::fr_FR];
    real_dedup_vec(&mut v);
    let tags: Vec<String> = v.iter().map(|l| l.to_tag()).collect();
    assert_eq!(tags, vec!["ja-JP", "de-DE", "en-US", "fr-FR"]);
}

#[test]
fn sanitized_names_in_every_mode() {
    let raw = "  a/b\\c:d\0e  ";
    assert_eq!(sanitize(raw, true, true), "abcde");
    assert_eq!(sanitize(raw, false, true), "a/b\\cde");
    assert_eq!(sanitize(raw, true, false), "ab\\c:de");
    assert_eq!(sanitize(raw, false, false), "a/b\\c:de");
}

#[test]
fn sanitizing_with_explicit_rules() {
    assert_eq!(sanitize_with_rules("a:b?c", false, true), "abc");
    assert_eq!(sanitize_with_rules("a:b?c", false, false), "a:b?c");
    let on_windows = std::path::MAIN_SEPARATOR == '\\';
    assert_eq!(sanitize("a:b?c", false, false), sanitize_with_rules("a:b?c", false, on_windows));
    assert_eq!(sanitize("a:b?c", false, true), "abc");
}
