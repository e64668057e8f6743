use crunchy_cli_core::ffmpeg::{FFmpegCodec, FFmpegHwAccel, FFmpegPreset, FFmpegQuality};
use crunchy_cli_core::locale::{all_locale_in_locales, resolve_locales, LanguageTagging, Locale};

fn predefined(p: &FFmpegPreset) -> Option<(FFmpegCodec, Option<FFmpegHwAccel>, FFmpegQuality)> {
    match p {
        FFmpegPreset::Predefined(c, h, q) => Some((*c, *h, *q)),
        FFmpegPreset::Custom(_) => None,
    }
}

#[test]
fn preset_names_are_parsed() {
    let p = FFmpegPreset::parse("h265-nvidia-lossless").unwrap();
    assert_eq!(
        predefined(&p),
        Some((FFmpegCodec::H265, Some(FFmpegHwAccel::Nvidia), FFmpegQuality::Lossless))
    );
    let p = FFmpegPreset::parse("H264").unwrap();
    assert_eq!(predefined(&p), Some((FFmpegCodec::H264, None, FFmpegQuality::Normal)));
    let p = FFmpegPreset::parse("low-av1").unwrap();
    assert_eq!(predefined(&p), Some((FFmpegCodec::Av1, None, FFmpegQuality::Low)));
}

#[test]
fn custom_presets_keep_their_text() {
    match FFmpegPreset::parse("-c:v libx264 -crf 20").unwrap() {
        FFmpegPreset::Custom(Some(s)) => assert_eq!(s, "-c:v libx264 -crf 20"),
        _ => panic!("not a custom preset"),
    }
}

#[test]
fn preset_errors() {
    assert_eq!(
        FFmpegPreset::parse("h264-h265").err().unwrap(),
        "cannot use multiple codecs (found h264 and h265)"
    );
    assert_eq!(
        FFmpegPreset::parse("h264-nvidia-apple").err().unwrap(),
        "cannot use multiple hardware accelerations (found nvidia and apple)"
    );
    assert_eq!(
        FFmpegPreset::parse("h264-low-lossless").err().unwrap(),
        "cannot use multiple ffmpeg preset qualities (found low and lossless)"
    );
    assert_eq!(
        FFmpegPreset::parse("h264-fast").err().unwrap(),
        "'h264-fast' is not a valid ffmpeg preset (unknown token 'fast')"
    );
    assert_eq!(FFmpegPreset::parse("nvidia").err().unwrap(), "cannot use ffmpeg preset with without a codec");
    assert_eq!(FFmpegPreset::parse("av1-apple").err().unwrap(), "ffmpeg preset is not supported");
}

#[test]
fn every_listed_preset_parses() {
    let names = FFmpegPreset::available_matches_human_readable();
    assert_eq!(names.len(), 28);
    let matches = FFmpegPreset::available_matches();
    for (line, (c, h, q)) in names.iter().zip(matches) {
        let name = line.split(" (").next().unwrap();
        let expected = (c, h, q.unwrap_or(FFmpegQuality::Normal));
        assert_eq!(predefined(&FFmpegPreset::parse(name).unwrap()), Some(expected), "{}", name);
    }
}

#[test]
fn human_readable_descriptions() {
    let names = FFmpegPreset::available_matches_human_readable();
    assert_eq!(names[0], "h264 (h264 encoded with default video quality/compression)");
    assert_eq!(names[1], "h264-nvidia (h264 encoded with nvidia hardware acceleration)");
    assert_eq!(names[3], "h264-lossless (h264 encoded with lossless video quality/compression)");
    assert_eq!(
        names[6],
        "h264-nvidia-lossless (h264 encoded with nvidia hardware acceleration and lossless video quality/compression)"
    );
    assert_eq!(names[27], "av1-low (av1 encoded with low video quality/compression)");
}

#[test]
fn preset_arguments() {
    let (input, output) =
        FFmpegPreset::Predefined(FFmpegCodec::H265, Some(FFmpegHwAccel::Nvidia), FFmpegQuality::Lossless)
            .into_input_output_args();
    assert_eq!(input, vec!["-hwaccel", "cuda", "-hwaccel_output_format", "cuda", "-c:v", "h264_cuvid"]);
    assert_eq!(output, vec!["-crf", "20", "-c:v", "hevc_nvenc", "-c:a", "copy", "-tag:v", "hvc1"]);
    let (input, output) =
        FFmpegPreset::Predefined(FFmpegCodec::Av1, None, FFmpegQuality::Low).into_input_output_args();
    assert!(input.is_empty());
    assert_eq!(output, vec!["-c:v", "libsvtav1", "-c:a", "copy", "-crf", "35"]);
    let (_, output) =
        FFmpegPreset::Predefined(FFmpegCodec::H264, Some(FFmpegHwAccel::Apple), FFmpegQuality::Lossless)
            .into_input_output_args();
    assert_eq!(output, vec!["-q:v", "65", "-c:v", "h264_videotoolbox", "-c:a", "copy"]);
}

#[test]
fn default_preset_copies_streams() {
    let (input, output) = FFmpegPreset::default().into_input_output_args();
    assert!(input.is_empty());
    assert_eq!(output, vec!["-c:v", "copy", "-c:a", "copy"]);
    let (_, output) = FFmpegPreset::Custom(Some("-vf \"scale=1:2\" x".to_string())).into_input_output_args();
    assert_eq!(output, vec!["-vf", "scale=1:2", "x"]);
    let (_, output) = FFmpegPreset::Custom(Some("\"unclosed".to_string())).into_input_output_args();
    assert!(output.is_empty());
}

#[test]
fn locale_tags() {
    assert_eq!(Locale::ja_JP.to_tag(), "ja-JP");
    assert_eq!(Locale::ja_JP.to_human_readable(), "Japanese");
    assert!(Locale::from_tag("EN-us").same(&Locale::en_US));
    match Locale::from_tag("xx-YY") {
        Locale::Custom(s) => assert_eq!(s, "xx-YY"),
        _ => panic!("an unknown tag is kept as it is"),
    }
    assert_eq!(Locale::all().len(), 27);
}

#[test]
fn language_tagging() {
    assert_eq!(LanguageTagging::parse("IETF"), Ok(LanguageTagging::IETF));
    assert_eq!(LanguageTagging::parse("default"), Ok(LanguageTagging::Default));
    assert_eq!(
        LanguageTagging::parse("iso"),
        Err("'iso' is not a valid language tagging".to_string())
    );
    let tags = LanguageTagging::IETF.convert_locales(&vec![Locale::ja_JP, Locale::en_US, Locale::es_419]);
    assert_eq!(tags, vec!["ja", "en", "es"]);
    assert_eq!(LanguageTagging::Default.for_locale(&Locale::de_DE), "de-DE");
    let ls = vec![Locale::es_419, Locale::pt_BR, Locale::hi_IN, Locale::ja_JP];
    assert_eq!(LanguageTagging::Default.convert_locales(&ls), vec!["es-419", "pt-BR", "hi-IN", "ja-JP"]);
    assert_eq!(LanguageTagging::IETF.convert_locales(&ls), vec!["es", "pt", "hi", "ja"]);
}

#[test]
fn all_stands_for_every_locale() {
    let all = all_locale_in_locales(vec![Locale::de_DE, Locale::Custom(" All ".to_string())]);
    assert_eq!(all.len(), 27);
    let some = all_locale_in_locales(vec![Locale::de_DE]);
    assert_eq!(some.len(), 1);
    let resolved = resolve_locales(&vec![Locale::Custom("ja".to_string())]);
    assert!(resolved[0].same(&Locale::ja_JP));
}
