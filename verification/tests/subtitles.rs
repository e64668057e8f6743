use crunchy_cli_core::subtitle::{
    fix_subtitle_length, fix_subtitle_length_checked, fix_subtitle_look_and_feel, format_time, video_length,
};

#[test]
fn times_are_written_with_centiseconds() {
    assert_eq!(format_time((3725, 123_456_789)), "01:02:05.12");
    assert_eq!(format_time((0, 0)), "00:00:00.00");
    // a leap second shows as second 60
    assert_eq!(format_time((86_399, 1_500_000_000)), "23:59:60.50");
}

#[test]
fn video_length_from_report() {
    let report = "Input #0, matroska,webm, from 'x.mkv':\n  Duration: 00:23:40.50, start: 0.000000, bitrate: 1 kb/s\n";
    assert_eq!(video_length(report), Some((23 * 60 + 40, 500_000_000)));
    assert_eq!(video_length("no length here"), None);
    assert_eq!(video_length("Duration: N/A, Duration: 00:00:03.25,"), Some((3, 250_000_000)));
}

#[test]
fn subtitles_fitted_to_the_video() {
    let raw = "[Events]\nDialogue: 0,0:00:01.00,0:00:02.00,Default,,Hi\nDialogue: 0,0:00:05.00,0:00:09.00,x\nDialogue: 0,0:00:20.00,0:00:30.00,y";
    let fixed = fix_subtitle_length(raw.as_bytes().to_vec(), (7, 0));
    assert_eq!(
        String::from_utf8(fixed).unwrap(),
        "[Events]\nDialogue: 0,0:00:01.00,0:00:02.00,Default,,Hi\nDialogue: 0,0:00:05.00,00:00:07.00,x\n"
    );
    let same = fix_subtitle_length_checked(raw.as_bytes().to_vec(), (7, 0));
    assert_eq!(
        String::from_utf8(same.unwrap()).unwrap(),
        "[Events]\nDialogue: 0,0:00:01.00,0:00:02.00,Default,,Hi\nDialogue: 0,0:00:05.00,00:00:07.00,x\n"
    );
    // a time that cannot be read
    assert!(fix_subtitle_length_checked(b"Dialogue: 0,0:99:01.00,0:00:02.00,x".to_vec(), (7, 0)).is_none());
    // lines that are no dialogue stay as they are
    let other = fix_subtitle_length(b"Comment: 0,0:00:50.00,0:00:60.00,x".to_vec(), (7, 0));
    assert_eq!(String::from_utf8(other).unwrap(), "Comment: 0,0:00:50.00,0:00:60.00,x\n");
}

#[test]
fn look_and_feel_then_length() {
    let raw = "[Script Info]\nTitle: x\n[Events]\nDialogue: 0,0:00:08.00,0:00:09.00,late";
    let fixed = fix_subtitle_length(fix_subtitle_look_and_feel(raw.as_bytes().to_vec()), (7, 0));
    assert_eq!(
        String::from_utf8(fixed).unwrap(),
        "[Script Info]\nTitle: x\nScaledBorderAndShadows: yes\n[Events]\n\n"
    );
}

#[test]
fn cut_dialogue_keeps_its_layer_and_fields() {
    let raw = "Dialogue: 0,0:00:01.00,0:00:05.00,Default,,0,0,0,,Hi\nDialogue: 2,0:00:04.00,0:00:06.00,x";
    let fixed = fix_subtitle_length(raw.as_bytes().to_vec(), (3, 0));
    assert_eq!(String::from_utf8(fixed).unwrap(), "Dialogue: 0,0:00:01.00,00:00:03.00,Default,,0,0,0,,Hi\n");
}
