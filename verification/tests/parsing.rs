use crunchy_cli_core::clap::{clap_parse_proxies, clap_parse_resolution, clap_parse_speed_limit, split_proxies};
use crunchy_cli_core::parse::{parse_filter, parse_resolution, url_filter_of, InnerUrlFilter, UrlFilter};

fn range(fs: Option<u32>, fe: Option<u64>, ts: Option<u32>, te: Option<u64>) -> InnerUrlFilter {
    InnerUrlFilter { from_episode: fe, to_episode: te, from_season: fs, to_season: ts }
}

fn filter_of(url: &str) -> (String, UrlFilter) {
    match url_filter_of(url, true) {
        Ok(r) => r,
        Err(e) => panic!("{}", e.message()),
    }
}

#[test]
fn filter_single_episode() {
    let (url, f) = filter_of("https://www.crunchyroll.com/series/GY8VEQ95Y/darling-in-the-franxx[E5]");
    assert_eq!(url, "https://www.crunchyroll.com/series/GY8VEQ95Y/darling-in-the-franxx");
    assert_eq!(f.inner, vec![range(None, Some(5), None, Some(5))]);
    assert!(f.is_episode_valid(5000, 1));
    assert!(!f.is_episode_valid(6000, 1));
}

#[test]
fn filter_full_season() {
    let (_, f) = filter_of("https://crunchyroll.com/series/12345678/example[S1]");
    assert_eq!(f.inner, vec![range(Some(1), None, Some(1), None)]);
    assert!(f.is_season_valid(1));
    assert!(!f.is_season_valid(2));
}

#[test]
fn filter_up_to_season() {
    let (_, f) = filter_of("https://crunchyroll.com/series/12345678/example[-S2]");
    assert_eq!(f.inner, vec![range(None, None, Some(2), None)]);
    assert!(f.is_season_valid(0));
    assert!(f.is_season_valid(2));
    assert!(!f.is_season_valid(3));
}

#[test]
fn filter_from_episode_on() {
    let (_, f) = filter_of("https://crunchyroll.com/series/12345678/example[S3E4-]");
    assert_eq!(f.inner, vec![range(Some(3), Some(4), None, None)]);
    assert!(f.is_episode_valid(4000, 3));
    assert!(!f.is_episode_valid(3000, 3));
    assert!(f.is_episode_valid(10000, 7));
}

#[test]
fn filter_from_episode_to_season() {
    let (_, f) = filter_of("https://crunchyroll.com/series/12345678/example[S1E4-S3]");
    assert_eq!(f.inner, vec![range(Some(1), Some(4), Some(3), None)]);
    assert!(f.is_season_valid(3));
    assert!(!f.is_season_valid(4));
}

#[test]
fn filter_two_seasons() {
    let (_, f) = filter_of("https://crunchyroll.com/series/12345678/example[S3,S5]");
    assert_eq!(f.inner, vec![range(Some(3), None, Some(3), None), range(Some(5), None, Some(5), None)]);
    assert!(f.is_season_valid(3));
    assert!(!f.is_season_valid(4));
    assert!(f.is_season_valid(5));
}

#[test]
fn filter_seasons_and_episodes() {
    let (_, f) = filter_of("https://crunchyroll.com/series/12345678/example[S1-S3,S4E2-S4E6]");
    assert_eq!(
        f.inner,
        vec![range(Some(1), None, Some(3), None), range(Some(4), Some(2), Some(4), Some(6))]
    );
    assert!(f.is_episode_valid(9000, 2));
    assert!(f.is_episode_valid(6000, 4));
    assert!(!f.is_episode_valid(7000, 4));
}

#[test]
fn filter_without_brackets_selects_all() {
    let (url, f) = filter_of("https://crunchyroll.com/series/12345678/example");
    assert_eq!(url, "https://crunchyroll.com/series/12345678/example");
    assert!(f.is_season_valid(0));
    assert!(f.is_season_valid(u32::MAX));
    assert!(f.is_episode_valid(123456, 9));
}

#[test]
fn filter_not_requested_selects_all() {
    let (url, f) = match url_filter_of("https://crunchyroll.com/x[S1]", false) {
        Ok(r) => r,
        Err(e) => panic!("{}", e.message()),
    };
    assert_eq!(url, "https://crunchyroll.com/x[S1]");
    assert!(f.is_season_valid(7));
}

#[test]
fn filter_season_too_large() {
    match parse_filter("S99999999999") {
        Ok(_) => panic!("accepted a season that does not fit"),
        Err(e) => assert_eq!(e.message(), "number too large to fit in target type"),
    }
}

#[test]
fn default_filter_selects_everything() {
    let f = UrlFilter::default();
    assert!(f.is_season_valid(0));
    assert!(f.is_season_valid(17));
    assert!(f.is_episode_valid(-5000, 3));
    assert!(f.is_episode_valid(i64::MAX, u32::MAX));
}

#[test]
fn resolution_words_and_pixels() {
    let best = parse_resolution("best").unwrap();
    assert_eq!((best.width, best.height), (u64::MAX, u64::MAX));
    let worst = parse_resolution("WORST").unwrap();
    assert_eq!((worst.width, worst.height), (0, 0));
    let p = parse_resolution("1080p").unwrap();
    assert_eq!((p.width, p.height), (1920, 1080));
    let x = parse_resolution("1280x720").unwrap();
    assert_eq!((x.width, x.height), (1280, 720));
}

#[test]
fn resolution_errors() {
    assert_eq!(clap_parse_resolution("hd").err().unwrap(), "Could not find resolution");
    assert_eq!(clap_parse_resolution("axp").err().unwrap(), "Could not find resolution");
    assert_eq!(clap_parse_resolution("12x").err().unwrap(), "Could not find resolution");
}

#[test]
fn speed_limits() {
    assert_eq!(clap_parse_speed_limit("100"), Ok(100));
    assert_eq!(clap_parse_speed_limit("10b"), Ok(10));
    assert_eq!(clap_parse_speed_limit("500KB"), Ok(512000));
    assert_eq!(clap_parse_speed_limit("1mb"), Ok(1048576));
    assert_eq!(clap_parse_speed_limit("fast"), Err("Invalid speed limit".to_string()));
    assert_eq!(clap_parse_speed_limit("4096MB"), Err("Invalid speed limit".to_string()));
    assert_eq!(clap_parse_speed_limit("4095MB"), Ok(4095 * 1024 * 1024));
    assert_eq!(clap_parse_speed_limit("4194304kb"), Err("Invalid speed limit".to_string()));
    assert_eq!(clap_parse_speed_limit("4194303kb"), Ok(4194303 * 1024));
}

#[test]
fn proxy_texts() {
    assert_eq!(
        split_proxies("https://a.example:socks5://b.example"),
        (Some("https://a.example".to_string()), Some("socks5://b.example".to_string()))
    );
    assert_eq!(split_proxies(":https://a.example"), (None, Some("https://a.example".to_string())));
    assert_eq!(split_proxies("https://a.example:"), (Some("https://a.example".to_string()), None));
    assert_eq!(
        split_proxies("https://a.example"),
        (Some("https://a.example".to_string()), Some("https://a.example".to_string()))
    );
}

#[test]
fn proxies_are_handed_to_the_client() {
    let (plain, secure) = clap_parse_proxies("http://proxy.example:8080").unwrap();
    assert!(plain.is_some() && secure.is_some());
    let (plain, secure) = clap_parse_proxies(":socks5://proxy.example").unwrap();
    assert!(plain.is_none() && secure.is_some());
    let refused = clap_parse_proxies("http://proxy.example:8080:https://[bad").unwrap_err();
    assert!(refused.starts_with("second proxy: "), "{}", refused);
    let refused = clap_parse_proxies("https://[bad:http://proxy.example").unwrap_err();
    assert!(refused.starts_with("first proxy: "), "{}", refused);
    let refused = clap_parse_proxies("https://[bad").unwrap_err();
    assert!(!refused.starts_with("first proxy: ") && !refused.starts_with("second proxy: "));
}

#[test]
fn filter_episode_bounds_hold_in_their_own_season() {
    let (_, f) = filter_of("https://www.crunchyroll.com/series/GY8VEQ95Y/darling-in-the-franxx[S1E4-S3]");
    assert!(f.is_episode_valid(4000, 1) && !f.is_episode_valid(3000, 1));
    assert!(f.is_episode_valid(1000, 2) && f.is_episode_valid(1000, 3) && !f.is_episode_valid(1000, 4));
    let (_, f) = filter_of("https://www.crunchyroll.com/series/GY8VEQ95Y/darling-in-the-franxx[S3E4-]");
    assert!(f.is_episode_valid(4000, 3) && !f.is_episode_valid(3000, 3));
    assert!(f.is_episode_valid(1000, 4) && !f.is_episode_valid(9000, 2));
    let (_, f) = filter_of("https://www.crunchyroll.com/series/GY8VEQ95Y/darling-in-the-franxx[S4E2-S4E6]");
    assert!(f.is_episode_valid(2000, 4) && f.is_episode_valid(6000, 4) && !f.is_episode_valid(7000, 4));
    assert!(!f.is_episode_valid(3000, 3) && !f.is_episode_valid(3000, 5));
}

#[test]
fn proxies_keep_their_order_and_the_client_message() {
    let (plain, secure) = clap_parse_proxies("http://first.example:8080:socks5://second.example:1080").unwrap();
    let plain = format!("{:?}", plain.unwrap());
    let secure = format!("{:?}", secure.unwrap());
    assert!(plain.contains("first.example") && !plain.contains("second.example"), "{}", plain);
    assert!(secure.contains("second.example") && !secure.contains("first.example"), "{}", secure);
    let expected = reqwest::Proxy::all("https://[bad").unwrap_err().to_string();
    assert_eq!(clap_parse_proxies("https://[bad").unwrap_err(), expected);
    assert_eq!(
        clap_parse_proxies("http://proxy.example:8080:https://[bad").unwrap_err(),
        format!("second proxy: {}", expected)
    );
}
