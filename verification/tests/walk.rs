use crunchy_cli_core::sort::sort_formats_after_seasons;
use crunchy_cli_core::command::stream_languages;
use crunchy_cli_core::locale::Locale;
use crunchy_cli_core::parse::{parse_filter, UrlFilter};
use crunchy_cli_core::search::{join_lines, FilterOptions, Format as SearchFormat, Scope};
use crunchy_cli_core::visit::{
    admitted_versions,
    archive_episode_kept, episode_admitted, finish_order, free_versions, is_special_episode, note_missing_subtitles,
    relative_episode_number, relative_numbers, season_locale, shares_locale, text_less_exec, SingleFormatCollection,
};

#[test]
fn specials() {
    assert!(is_special_episode(0));
    assert!(is_special_episode(1500));
    assert!(is_special_episode(-500));
    assert!(!is_special_episode(3000));
    assert!(!is_special_episode(-2000));
}

#[test]
fn episodes_admitted() {
    let all = UrlFilter::default();
    assert!(episode_admitted(&all, 1500, 1, false));
    assert!(!episode_admitted(&all, 1500, 1, true));
    assert!(!episode_admitted(&all, 0, 1, true));
    assert!(episode_admitted(&all, 2000, 1, true));
    let f = match parse_filter("S2E3-S2E5") {
        Ok(f) => f,
        Err(_) => panic!("valid filter"),
    };
    assert!(episode_admitted(&f, 4000, 2, false));
    assert!(episode_admitted(&f, 5000, 2, true));
    assert!(!episode_admitted(&f, 5500, 2, false));
    assert!(!episode_admitted(&f, 4000, 1, false));
}

fn season() -> Vec<(String, i64)> {
    vec![
        ("a".to_string(), 0),
        ("b".to_string(), 1000),
        ("c".to_string(), 1500),
        ("d".to_string(), 2000),
    ]
}

#[test]
fn relative_numbering() {
    let eps = season();
    assert_eq!(relative_numbers(&eps, &"a".to_string()), Some((1, 0)));
    assert_eq!(relative_numbers(&eps, &"b".to_string()), Some((2, 1000)));
    assert_eq!(relative_numbers(&eps, &"c".to_string()), Some((3, 1500)));
    assert_eq!(relative_numbers(&eps, &"d".to_string()), Some((4, 2000)));
    assert_eq!(relative_numbers(&eps, &"x".to_string()), None);
    let ids: Vec<String> = eps.iter().map(|e| e.0.clone()).collect();
    assert_eq!(relative_episode_number(&ids, &"c".to_string()), Some(3));
    assert_eq!(relative_episode_number(&ids, &"z".to_string()), None);
}

#[test]
fn missing_subtitles_noted_once() {
    let mut noted = vec![];
    assert!(note_missing_subtitles(&mut noted, 2));
    assert!(!note_missing_subtitles(&mut noted, 2));
    assert!(note_missing_subtitles(&mut noted, 3));
    assert_eq!(noted, vec![2, 3]);
}

#[test]
fn season_languages() {
    assert!(matches!(season_locale(&vec![]), Some(Locale::ja_JP)));
    assert!(matches!(season_locale(&vec![Locale::de_DE]), Some(Locale::de_DE)));
    assert!(season_locale(&vec![Locale::de_DE, Locale::ja_JP]).is_none());
    let requested = vec![Locale::ja_JP, Locale::en_US];
    assert!(archive_episode_kept(&Some(Locale::de_DE), &requested, &Locale::de_DE));
    assert!(!archive_episode_kept(&Some(Locale::de_DE), &requested, &Locale::ja_JP));
    assert!(archive_episode_kept(&None, &requested, &Locale::en_US));
    assert!(!archive_episode_kept(&None, &requested, &Locale::de_DE));
    assert!(shares_locale(&requested, &vec![Locale::fr_FR, Locale::en_US]));
    assert!(!shares_locale(&requested, &vec![Locale::fr_FR]));
    assert!(!shares_locale(&vec![], &vec![Locale::fr_FR]));
}

#[test]
fn versions_without_premium() {
    assert_eq!(free_versions(&vec![true, false, false, true]), vec![1, 2]);
    assert_eq!(free_versions(&vec![true]), Vec::<usize>::new());
}

#[test]
fn text_order() {
    assert!(text_less_exec(&"abc".to_string(), &"abd".to_string()));
    assert!(text_less_exec(&"ab".to_string(), &"abc".to_string()));
    assert!(!text_less_exec(&"abc".to_string(), &"ab".to_string()));
    assert!(!text_less_exec(&"x".to_string(), &"x".to_string()));
    assert!(text_less_exec(&"B".to_string(), &"a".to_string()));
}

#[test]
fn finishing_order() {
    let formats = vec![
        ("ep2".to_string(), "s1".to_string(), Locale::de_DE),
        ("ep1".to_string(), "s1".to_string(), Locale::de_DE),
        ("ep1".to_string(), "s2".to_string(), Locale::ja_JP),
        ("ep0".to_string(), "s2".to_string(), Locale::ja_JP),
        ("ep2".to_string(), "s2".to_string(), Locale::fr_FR),
    ];
    let seasons = vec!["s1".to_string(), "s2".to_string()];
    let audio = vec![Locale::ja_JP, Locale::de_DE];
    let groups = finish_order(&formats, &seasons, &audio);
    assert_eq!(groups, vec![vec![2, 1], vec![0, 4], vec![3]]);
}

#[test]
fn collection_by_season_and_episode() {
    let mut c: SingleFormatCollection<&str> = SingleFormatCollection::new();
    assert!(c.is_empty());
    c.add_single_formats(2, 1000, vec!["s2e1"]);
    c.add_single_formats(1, 2000, vec!["s1e2"]);
    c.add_single_formats(1, 1500, vec!["s1e1.5"]);
    c.add_single_formats(1, 2000, vec!["s1e2 again"]);
    assert!(!c.is_empty());
    assert_eq!(c.into_groups(), vec![vec!["s1e1.5"], vec!["s1e2 again"], vec!["s2e1"]]);
}

fn values(scope: Scope, pairs: &[(&str, &str)]) -> Vec<(Scope, String, String)> {
    pairs.iter().map(|(k, v)| (scope, k.to_string(), v.to_string())).collect()
}

#[test]
fn search_output_lines() {
    let f = SearchFormat::new("{{episode.title}} {{subtitle.locale}}".to_string(), any_options()).ok().unwrap();
    let opts = FilterOptions { audio: vec![Locale::de_DE], filter_subtitles: true, url_filter: UrlFilter::default() };
    let outer = values(Scope::Episode, &[("title", "Pilot")]);
    let subs = vec![
        (Locale::de_DE, values(Scope::Subtitle, &[("locale", "de-DE")])),
        (Locale::en_US, values(Scope::Subtitle, &[("locale", "en-US")])),
    ];
    let blank = values(Scope::Subtitle, &[("locale", "")]);
    assert_eq!(f.stream_lines(&opts, &outer, &subs, &blank), vec!["Pilot de-DE".to_string()]);
    // Without subtitles, a template that shows subtitle fields shows nothing.
    assert_eq!(f.stream_lines(&opts, &outer, &vec![], &blank), Vec::<String>::new());
    let plain = SearchFormat::new("{{episode.title}}".to_string(), any_options()).ok().unwrap();
    let all = FilterOptions { audio: vec![], filter_subtitles: false, url_filter: UrlFilter::default() };
    assert_eq!(plain.stream_lines(&all, &outer, &vec![], &blank), vec!["Pilot".to_string()]);
    // The empty subtitle is filtered like any other.
    assert_eq!(plain.stream_lines(&opts, &outer, &vec![], &blank), Vec::<String>::new());
    assert_eq!(join_lines(&vec!["a".to_string(), "b".to_string()]), "a\nb");
    assert_eq!(join_lines(&vec![]), "");
}

#[test]
fn stream_languages_of_a_report() {
    let report = "Input #0, matroska\n  Stream #0:0: Video: h264\n  Stream #0:1(jpn): Audio: aac (LC)\n  Stream #0:2(ger): Audio: aac\n  Stream #0:3(eng): Subtitle: ass (default)\n";
    match stream_languages(report) {
        Some((audio, subtitle)) => {
            let a: Vec<String> = audio.iter().map(|l| l.to_tag()).collect();
            let s: Vec<String> = subtitle.iter().map(|l| l.to_tag()).collect();
            assert_eq!(a, vec!["jpn".to_string(), "ger".to_string()]);
            assert_eq!(s, vec!["eng".to_string()]);
        }
        None => panic!("the report lists streams"),
    }
    assert!(stream_languages("Stream #0:0: Video: h264\n").is_none());
    // the language takes all of the line it can
    match stream_languages("Stream #1:22(a): Audio (b): Subtitle") {
        Some((audio, subtitle)) => {
            assert!(audio.is_empty());
            assert_eq!(subtitle[0].to_tag(), "a): Audio (b");
        }
        None => panic!("one stream"),
    }
    assert!(matches!(stream_languages("Stream #0:1(ja-JP): Audio"), Some((a, _)) if matches!(a[0], Locale::ja_JP)));
}

#[test]
fn formats_sorted_after_seasons() {
    let f = |s: u32, n: u64, id: &str| (s, n, id.to_string());
    let formats = vec![f(2, 1, "A"), f(1, 2, "A"), f(1, 1, "A"), f(2, 1, "A"), f(3, 5, "0")];
    assert_eq!(sort_formats_after_seasons(&formats), vec![vec![4], vec![2, 1], vec![0, 3]]);
    assert!(sort_formats_after_seasons(&Vec::new()).is_empty());
}

fn any_options() -> FilterOptions {
    FilterOptions { audio: vec![], filter_subtitles: false, url_filter: UrlFilter::default() }
}

#[test]
fn versions_admitted_by_language_and_account() {
    let wanted = vec![Locale::ja_JP, Locale::de_DE];
    let audios = vec![Locale::ja_JP, Locale::en_US, Locale::de_DE, Locale::ja_JP];
    let premium = vec![true, false, false, false];
    assert_eq!(admitted_versions(&wanted, &audios, &premium, true), vec![0, 2, 3]);
    assert_eq!(admitted_versions(&wanted, &audios, &premium, false), vec![2, 3]);
}
