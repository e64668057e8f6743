use crunchy_cli_core::command::{
    check_archive_options, check_download_paths, download_output_format, keep_existing_file, log_level,
    merge_groups, merge_plan, some_vec_or_none, supports_softsubs, use_hardsubs, LogLevel, ProgressHandler,
    SkipExistingMethod,
};
use crunchy_cli_core::config::{Auth, Config};
use crunchy_cli_core::download::MergeBehavior;
use crunchy_cli_core::locale::Locale;
use crunchy_cli_core::session::{
    login_plan, needs_stored_session, session_language, Login, LoginMethod, LoginPlan, SessionToken,
};

fn method(credentials: Option<&str>, etp_rt: Option<&str>, anonymous: bool) -> LoginMethod {
    LoginMethod {
        credentials: credentials.map(|s| s.to_string()),
        etp_rt: etp_rt.map(|s| s.to_string()),
        anonymous,
    }
}

#[test]
fn credentials_login() {
    match login_plan(&method(Some("me@example.com:pa:ss"), None, false), &None, &None) {
        Ok(LoginPlan::Credentials { user, password }) => {
            assert_eq!(user, "me@example.com");
            assert_eq!(password, "pa:ss");
        },
        _ => panic!("expected a login with credentials"),
    }
    match login_plan(&method(Some("nocolon"), None, false), &None, &None) {
        Err(e) => assert_eq!(e, "Invalid credentials format. Please provide your credentials as user:password"),
        _ => panic!("expected an error"),
    }
}

#[test]
fn only_one_login_method() {
    match login_plan(&method(Some("a:b"), None, true), &None, &None) {
        Err(e) => assert_eq!(e, "Please use only one login method ('--credentials', '--etp-rt' or '--anonymous')"),
        _ => panic!("expected an error"),
    }
    match login_plan(&method(None, Some("x"), false), &Some(method(None, None, true)), &None) {
        Err(e) => assert_eq!(e, "Please use only one login method ('--credentials', '--etp-rt' or '--anonymous')"),
        _ => panic!("expected an error"),
    }
}

#[test]
fn login_command_method_wins() {
    assert!(matches!(
        login_plan(&method(None, None, false), &Some(method(None, None, true)), &None),
        Ok(LoginPlan::Anonymous)
    ));
    match login_plan(&method(None, Some("cookie"), false), &Some(method(None, None, false)), &None) {
        Ok(LoginPlan::EtpRt(t)) => assert_eq!(t, "cookie"),
        _ => panic!("expected the etp_rt login"),
    }
}

#[test]
fn stored_session_login() {
    let none = method(None, None, false);
    assert!(needs_stored_session(&none, &None));
    assert!(!needs_stored_session(&none, &Some(method(None, None, true))));
    match login_plan(&none, &None, &Some("refresh_token:abc".to_string())) {
        Ok(LoginPlan::RefreshToken(t)) => assert_eq!(t, "abc"),
        _ => panic!("expected the refresh token"),
    }
    match login_plan(&none, &None, &Some("etp_rt:def".to_string())) {
        Ok(LoginPlan::EtpRt(t)) => assert_eq!(t, "def"),
        _ => panic!("expected the etp_rt"),
    }
    match login_plan(&none, &None, &Some("garbage".to_string())) {
        Err(e) => assert_eq!(e, "Could not read stored session ('garbage')"),
        _ => panic!("expected an error"),
    }
    match login_plan(&none, &None, &None) {
        Err(e) => assert_eq!(e, "Please use a login method ('--credentials', '--etp-rt' or '--anonymous')"),
        _ => panic!("expected an error"),
    }
}

#[test]
fn session_file_content() {
    assert_eq!(
        Login::session_file_content(&SessionToken::RefreshToken("tok".to_string())),
        Ok("refresh_token:tok".to_string())
    );
    assert_eq!(
        Login::session_file_content(&SessionToken::Anonymous),
        Err("Anonymous login cannot be saved".to_string())
    );
    assert_eq!(
        Login::session_file_content(&SessionToken::EtpRt("x".to_string())),
        Err("Login with etp_rt isn't supported anymore. Please use your credentials to login".to_string())
    );
}

#[test]
fn session_languages() {
    let (l, warn) = session_language(&Some(Locale::de_DE), &Locale::ja_JP).unwrap();
    assert!(l.same(&Locale::de_DE) && !warn);
    let (l, warn) = session_language(&None, &Locale::ja_JP).unwrap();
    assert!(l.same(&Locale::en_US) && warn);
    let (l, warn) = session_language(&None, &Locale::fr_FR).unwrap();
    assert!(l.same(&Locale::fr_FR) && !warn);
    match session_language(&Some(Locale::ja_JP), &Locale::en_US) {
        Err(e) => assert_eq!(
            e,
            "Via `--lang` specified language is not supported. Supported languages: `ar-ME` (ar-ME), `de-DE` (German), \
             `en-US` (English (US)), `es-ES` (Spanish (Spain)), `es-419` (Spanish (Latin America)), `fr-FR` (French), \
             `it-IT` (Italian), `pt-BR` (Portuguese (Brazil)), `pt-PT` (Portuguese (Portugal)), `ru-RU` (Russian)"
        ),
        Ok(_) => panic!("Japanese is not a supported answer language"),
    }
}

#[test]
fn config_path_checks() {
    assert_eq!(Config::assert_config_file_path(None, false, true), Ok(None));
    assert_eq!(
        Config::assert_config_file_path(None, false, false),
        Err("Cannot find config directory".to_string())
    );
    assert_eq!(
        Config::assert_config_file_path(Some("/c/x.conf".to_string()), true, true),
        Err("Config path (/c/x.conf) is a directory (must be a normal file)".to_string())
    );
    assert_eq!(
        Config::assert_config_file_path(Some("/c/x.conf".to_string()), false, false),
        Ok(Some("/c/x.conf".to_string()))
    );
    let c = Config::default();
    assert!(c.auth.is_none());
    let c = Config { auth: Some(Auth::RefreshToken { token: "t".to_string() }) };
    assert!(matches!(c.auth, Some(Auth::RefreshToken { .. })));
}

#[test]
fn download_path_checks() {
    assert_eq!(check_download_paths("{title}.mp4", false, &None, false), Ok(()));
    assert_eq!(
        check_download_paths("{title}", false, &None, false),
        Err("No file extension found. Please specify a file extension (via `-o`) for the output file".to_string())
    );
    assert_eq!(check_download_paths("-", false, &None, false), Ok(()));
    assert_eq!(check_download_paths("pipe", true, &None, false), Ok(()));
    assert_eq!(
        check_download_paths("a.mkv", false, &Some("b".to_string()), false),
        Err("No file extension found. Please specify a file extension (via `--output-specials`) for the output file"
            .to_string())
    );
    assert!(supports_softsubs("x.mov"));
    assert!(!supports_softsubs("x.avi"));
    assert_eq!(download_output_format("-", false), Some("mpegts".to_string()));
    assert_eq!(download_output_format("a.mp4", false), None);
    assert!(use_hardsubs(true, false, true, true));
    assert!(use_hardsubs(false, true, true, false));
    assert!(!use_hardsubs(false, false, true, false));
}

#[test]
fn archive_option_checks() {
    assert_eq!(check_archive_options("{title}.mkv", false, &None, false, false, MergeBehavior::Auto), Ok(()));
    assert_eq!(
        check_archive_options("{title}.mp4", false, &None, false, false, MergeBehavior::Auto),
        Err("File extension is not '.mkv'. Currently only matroska / '.mkv' files are supported".to_string())
    );
    assert_eq!(
        check_archive_options("a.mkv", false, &Some("b.mp4".to_string()), false, false, MergeBehavior::Auto),
        Err("File extension for special episodes is not '.mkv'. Currently only matroska / '.mkv' files are supported"
            .to_string())
    );
    assert_eq!(
        check_archive_options("a.mkv", false, &None, false, true, MergeBehavior::Video),
        Err("`--include-chapters` can only be used if `--merge` is set to 'audio' or 'sync'".to_string())
    );
    assert_eq!(check_archive_options("a.mkv", false, &None, false, true, MergeBehavior::Audio), Ok(()));
}

#[test]
fn versions_grouped_by_length() {
    assert_eq!(merge_groups(&vec![1000, 1100, 5000, 1050, 4990], 200), vec![0, 0, 1, 0, 1]);
    assert_eq!(merge_groups(&vec![1000, 1200], 200), vec![0, 1]);
    assert_eq!(merge_groups(&vec![], 200), Vec::<usize>::new());
}

#[test]
fn existing_files() {
    let locales = vec![(Locale::de_DE, vec![Locale::de_DE, Locale::en_US])];
    let existing = Some((vec![Locale::de_DE], vec![Locale::en_US]));
    assert!(keep_existing_file(false, false, &existing, &locales, false));
    assert!(keep_existing_file(true, false, &existing, &locales, false));
    assert!(!keep_existing_file(false, true, &existing, &locales, false));
    assert!(keep_existing_file(false, true, &existing, &locales, true));
    assert!(keep_existing_file(true, true, &None, &locales, false));
}

#[test]
fn skip_existing_methods() {
    assert_eq!(SkipExistingMethod::parse("Audio"), Ok(SkipExistingMethod::Audio));
    assert_eq!(SkipExistingMethod::parse("subtitle"), Ok(SkipExistingMethod::Subtitle));
    assert_eq!(
        SkipExistingMethod::parse("video"),
        Err("invalid skip existing method 'video'".to_string())
    );
    assert!(SkipExistingMethod::default().is_empty());
    assert_eq!(SkipExistingMethod::Subtitle.name(), "subtitle");
    assert_eq!(some_vec_or_none::<u8>(vec![]), None);
    assert_eq!(some_vec_or_none(vec![1]), Some(vec![1]));
}

#[test]
fn log_levels() {
    assert_eq!(log_level(None), Ok(LogLevel::Info));
    assert_eq!(log_level(Some((true, false))), Ok(LogLevel::Debug));
    assert_eq!(log_level(Some((false, true))), Ok(LogLevel::Error));
    assert_eq!(
        log_level(Some((true, true))),
        Err("Output cannot be verbose ('-v') and quiet ('-q') at the same time".to_string())
    );
    let mut p = ProgressHandler { stopped: false };
    assert_eq!(p.end_message(), Some(String::new()));
    assert_eq!(p.stop("done"), "done");
    assert!(p.stopped);
    assert_eq!(p.end_message(), None);
}

#[test]
fn stored_session_is_read_back() {
    let token = "abc:def".to_string();
    let content = match Login::session_file_content(&SessionToken::RefreshToken(token.clone())) {
        Ok(c) => c,
        Err(_) => panic!("a refresh token can be stored"),
    };
    match login_plan(&method(None, None, false), &None, &Some(content)) {
        Ok(LoginPlan::RefreshToken(t)) => assert_eq!(t, token),
        _ => panic!("the stored refresh token is the login"),
    }
}

#[test]
fn merge_plans() {
    let lengths = vec![1000, 1100, 5000, 1050, 4990];
    assert_eq!(merge_plan(MergeBehavior::Auto, &lengths, 200), vec![(0, vec![0, 1, 3]), (2, vec![2, 4])]);
    assert_eq!(merge_plan(MergeBehavior::Audio, &lengths, 200), vec![(0, vec![0, 1, 2, 3, 4])]);
    assert_eq!(
        merge_plan(MergeBehavior::Video, &lengths, 200),
        vec![(0, vec![0]), (1, vec![1]), (2, vec![2]), (3, vec![3]), (4, vec![4])]
    );
    assert!(merge_plan(MergeBehavior::Audio, &vec![], 200).is_empty());
    assert_eq!(merge_plan(MergeBehavior::Sync, &lengths, 200), merge_plan(MergeBehavior::Auto, &lengths, 200));
    assert_eq!(check_archive_options("a.mkv", false, &None, false, true, MergeBehavior::Sync), Ok(()));
}

#[test]
fn skip_method_names_parse_back() {
    for m in [SkipExistingMethod::Audio, SkipExistingMethod::Subtitle] {
        assert_eq!(SkipExistingMethod::parse(m.name()), Ok(m));
    }
}
