use audio_split::analyze::{
    detect_silence, extract_candidates, parse_secs_from_line, read_line, SilenceEvent,
};
use audio_split::debug_id::DebugId;
use audio_split::error::{Error, ErrorKind};
use audio_split::decimal::parse_decimal;
use audio_split::text::{find, find_byte, trim_bytes};
use audio_split::utils::{fmt_duration, span_name};

const SEC: i64 = 1_000_000_000;

#[test]
fn candidates_are_the_means_of_the_pairs() {
    let text = "\
Input #0, mp3, from 'a.mp3':
[silencedetect @ 0x55d0c8a0] silence_start: 1.5
[silencedetect @ 0x55d0c8a0] silence_end: 2.5 | silence_duration: 1
size=N/A time=00:00:10.00 bitrate=N/A speed= 500x
[silencedetect @ 0x55d0c8a0] silence_start: 10
[silencedetect @ 0x55d0c8a0] silence_end: 11.000001 | silence_duration: 1.000001
[silencedetect @ 0x55d0c8a0] silence_start: 20.25
[silencedetect @ 0x55d0c8a0] silence_end: 20.75 | silence_duration: 0.5
";
    let found = extract_candidates(text.as_bytes());
    assert_eq!(found, [2_000_000_000, 10_500_000_500, 20_500_000_000]);
}

#[test]
fn no_silence_gives_no_candidates() {
    assert!(extract_candidates(b"").is_empty());
    assert!(extract_candidates(b"\n\n").is_empty());
    assert!(extract_candidates(b"frame= 10 fps=0.0\nvideo:0kB audio:0kB\n").is_empty());
    assert_eq!(detect_silence(true, b"nothing here").unwrap(), []);
}

#[test]
fn end_without_start_is_passed_over() {
    let text = "[silencedetect @ 0x1] silence_end: 4 | silence_duration: 1\n\
                [silencedetect @ 0x1] silence_start: 6\n\
                [silencedetect @ 0x1] silence_end: 8 | silence_duration: 2\n\
                [silencedetect @ 0x1] silence_end: 10 | silence_duration: 2\n";
    assert_eq!(extract_candidates(text.as_bytes()), [7_000_000_000]);
}

#[test]
fn new_start_replaces_a_start_that_waits() {
    let text = "[silencedetect @ 0x1] silence_start: 1\n\
                [silencedetect @ 0x1] silence_start: 3\n\
                [silencedetect @ 0x1] silence_end: 5 | silence_duration: 2";
    assert_eq!(extract_candidates(text.as_bytes()), [4_000_000_000]);
}

#[test]
fn line_without_marker_reports_nothing() {
    let text = "silence_start: 1\nsilence_end: 3 | silence_duration: 2\n";
    assert!(extract_candidates(text.as_bytes()).is_empty());
    assert_eq!(read_line(b"silence_start: 1"), SilenceEvent::Other);
}

#[test]
fn malformed_field_skips_the_line() {
    let text = "[silencedetect @ 0x1] silence_start: 1\n\
                [silencedetect @ 0x1] silence_start: abc\n\
                [silencedetect @ 0x1] silence_end: 1x | silence_duration: 2\n\
                [silencedetect @ 0x1] silence_end: 3 | silence_duration: 2\n";
    assert_eq!(extract_candidates(text.as_bytes()), [2_000_000_000]);
}

#[test]
fn negative_start_is_read() {
    let text = "[silencedetect @ 0x1] silence_start: -0.5\n\
                [silencedetect @ 0x1] silence_end: 1.5 | silence_duration: 2\n";
    assert_eq!(extract_candidates(text.as_bytes()), [500_000_000]);
}

#[test]
fn negative_middle_gives_no_candidate() {
    let text = "[silencedetect @ 0x1] silence_start: -3\n\
                [silencedetect @ 0x1] silence_end: 1 | silence_duration: 4\n\
                [silencedetect @ 0x1] silence_end: 9 | silence_duration: 4\n";
    assert!(extract_candidates(text.as_bytes()).is_empty());
}

#[test]
fn middle_is_rounded_down() {
    let text = "[silencedetect @ 0x1] silence_start: 0.000000001\n\
                [silencedetect @ 0x1] silence_end: 0.000000002\n";
    assert_eq!(extract_candidates(text.as_bytes()), [1]);
}

#[test]
fn carriage_returns_do_not_matter() {
    let text = "[silencedetect @ 0x1] silence_start: 1\r\n[silencedetect @ 0x1] silence_end: 2\r\n";
    assert_eq!(extract_candidates(text.as_bytes()), [1_500_000_000]);
}

#[test]
fn events_of_single_lines() {
    assert_eq!(
        read_line(b"[silencedetect @ 0x1] silence_start: 12.5"),
        SilenceEvent::Start(12_500_000_000)
    );
    assert_eq!(
        read_line(b"[silencedetect @ 0x1] silence_end: 14 | silence_duration: 1.5"),
        SilenceEvent::End(14_000_000_000)
    );
    assert_eq!(read_line(b"[silencedetect @ 0x1] something else"), SilenceEvent::Other);
    assert_eq!(read_line(b""), SilenceEvent::Other);
}

#[test]
fn field_is_the_first_token_behind_the_key() {
    assert_eq!(
        parse_secs_from_line(b"x silence_end: 7.25| silence_duration: 3", b"silence_end:"),
        Some(7_250_000_000)
    );
    assert_eq!(parse_secs_from_line(b"silence_end:   7  ", b"silence_end:"), Some(7 * SEC));
    assert_eq!(parse_secs_from_line(b"silence_end: 7 8", b"silence_end:"), None);
    assert_eq!(parse_secs_from_line(b"silence_end: | 7", b"silence_end:"), None);
    assert_eq!(parse_secs_from_line(b"silence_start: 7", b"silence_end:"), None);
    assert_eq!(
        parse_secs_from_line(b"silence_end: 1 silence_end: 2", b"silence_end:"),
        None
    );
    assert_eq!(
        parse_secs_from_line(b"silence_end: 1 | silence_end: 2", b"silence_end:"),
        Some(SEC)
    );
}

#[test]
fn decimal_numbers() {
    assert_eq!(parse_decimal(b"0"), Some(0));
    assert_eq!(parse_decimal(b"12"), Some(12 * SEC));
    assert_eq!(parse_decimal(b"12.5"), Some(12_500_000_000));
    assert_eq!(parse_decimal(b"+12.5"), Some(12_500_000_000));
    assert_eq!(parse_decimal(b"-12.5"), Some(-12_500_000_000));
    assert_eq!(parse_decimal(b"12."), Some(12 * SEC));
    assert_eq!(parse_decimal(b".5"), Some(500_000_000));
    assert_eq!(parse_decimal(b"-.5"), Some(-500_000_000));
    assert_eq!(parse_decimal(b"-0"), Some(0));
    assert_eq!(parse_decimal(b"007.000000001"), Some(7_000_000_001));
    assert_eq!(parse_decimal(b"0.1234567899"), Some(123_456_789));
    assert_eq!(parse_decimal(b"5.31819"), Some(5_318_190_000));
}

#[test]
fn decimal_numbers_with_exponent() {
    assert_eq!(parse_decimal(b"1e2"), Some(100 * SEC));
    assert_eq!(parse_decimal(b"1E2"), Some(100 * SEC));
    assert_eq!(parse_decimal(b"1e+2"), Some(100 * SEC));
    assert_eq!(parse_decimal(b"1.5e-3"), Some(1_500_000));
    assert_eq!(parse_decimal(b"2.08333e-05"), Some(20_833));
    assert_eq!(parse_decimal(b"-2.08333e-05"), Some(-20_833));
    assert_eq!(parse_decimal(b"1.23457e+06"), Some(1_234_570 * SEC));
    assert_eq!(parse_decimal(b"1.e2"), Some(100 * SEC));
    assert_eq!(parse_decimal(b".5e1"), Some(5 * SEC));
    assert_eq!(parse_decimal(b"0.000000001e9"), Some(SEC));
    assert_eq!(parse_decimal(b"123456789012e-3"), Some(123_456_789_012_000_000));
    assert_eq!(parse_decimal(b"1e-9"), Some(1));
    assert_eq!(parse_decimal(b"1e-10"), Some(0));
    assert_eq!(parse_decimal(b"19e-10"), Some(1));
    assert_eq!(parse_decimal(b"1e9"), Some(1_000_000_000 * SEC));
    assert_eq!(parse_decimal(b"1e10"), None);
    assert_eq!(parse_decimal(b"9.223372036854775807e9"), Some(i64::MAX));
    assert_eq!(parse_decimal(b"9.223372036854775808e9"), None);
    assert_eq!(parse_decimal(b"0.0000000009223372036854775807e19"), Some(i64::MAX));
    assert_eq!(parse_decimal(b"0e99999999999999999999999999999999999999999999"), Some(0));
    assert_eq!(parse_decimal(b"0.000e+99999999999999999999999999999999999999999"), Some(0));
    assert_eq!(parse_decimal(b"1e99999999999999999999999999999999999999999999"), None);
    assert_eq!(parse_decimal(b"7e-9999999999999999999999999999999999999999999"), Some(0));
    assert_eq!(parse_decimal(b"1e0000000000000000000000000000000000000000002"), Some(100 * SEC));
}

#[test]
fn exponent_in_the_diagnostics() {
    let text = "[silencedetect @ 0x1] silence_start: 2.5e-05\n\
                [silencedetect @ 0x1] silence_end: 1.00003 | silence_duration: 1\n";
    assert_eq!(extract_candidates(text.as_bytes()), [500_027_500]);
}

#[test]
fn not_decimal_numbers() {
    assert_eq!(parse_decimal(b"1e"), None);
    assert_eq!(parse_decimal(b"1e+"), None);
    assert_eq!(parse_decimal(b"1e-"), None);
    assert_eq!(parse_decimal(b"e5"), None);
    assert_eq!(parse_decimal(b".e5"), None);
    assert_eq!(parse_decimal(b"1e2.5"), None);
    assert_eq!(parse_decimal(b"1e 2"), None);
    assert_eq!(parse_decimal(b"1e2e3"), None);
    assert_eq!(parse_decimal(b"1e+-2"), None);
    assert_eq!(parse_decimal(b"inf"), None);
    assert_eq!(parse_decimal(b"nan"), None);
    assert_eq!(parse_decimal(b"0x10"), None);
    assert_eq!(parse_decimal(b""), None);
    assert_eq!(parse_decimal(b"."), None);
    assert_eq!(parse_decimal(b"-"), None);
    assert_eq!(parse_decimal(b"+"), None);
    assert_eq!(parse_decimal(b"+-1"), None);
    assert_eq!(parse_decimal(b"1.2.3"), None);
    assert_eq!(parse_decimal(b"1,5"), None);
    assert_eq!(parse_decimal(b" 1"), None);
    assert_eq!(parse_decimal(b"1 "), None);
    assert_eq!(parse_decimal(b"abc"), None);
    assert_eq!(parse_decimal(b"12a"), None);
}

#[test]
fn decimal_numbers_at_the_limit() {
    assert_eq!(parse_decimal(b"9223372036.854775807"), Some(i64::MAX));
    assert_eq!(parse_decimal(b"-9223372036.854775807"), Some(-i64::MAX));
    assert_eq!(parse_decimal(b"9223372036.854775808"), None);
    assert_eq!(parse_decimal(b"9223372037"), None);
    assert_eq!(parse_decimal(b"99999999999999999999999999999999"), None);
    assert_eq!(parse_decimal(b"0000000000000000000000000000001"), Some(SEC));
}

#[test]
fn searching_bytes() {
    assert_eq!(find(b"abcabc", b"bc"), Some(1));
    assert_eq!(find(b"abcabc", b"abcabc"), Some(0));
    assert_eq!(find(b"abcabc", b"cb"), None);
    assert_eq!(find(b"ab", b"abc"), None);
    assert_eq!(find(b"ab", b""), Some(0));
    assert_eq!(find(b"", b""), Some(0));
    assert_eq!(find_byte(b"a|b|c", b'|'), 1);
    assert_eq!(find_byte(b"abc", b'|'), 3);
    assert_eq!(find_byte(b"", b'|'), 0);
}

#[test]
fn trimming_bytes() {
    assert_eq!(trim_bytes(b"  a b \t\r\n"), b"a b");
    assert_eq!(trim_bytes(b"a"), b"a");
    assert_eq!(trim_bytes(b" \t "), b"");
    assert_eq!(trim_bytes(b""), b"");
}

#[test]
fn failed_analysis_fails_as_a_whole() {
    let text = b"[silencedetect @ 0x1] silence_start: 1\n[silencedetect @ 0x1] silence_end: 2\n";
    let error = detect_silence(false, text).unwrap_err();
    assert!(matches!(error.kind(), ErrorKind::Analysis));
    assert_eq!(error.id(), DebugId::ErrorAnalysis);
    assert_eq!(detect_silence(true, text).unwrap(), [1_500_000_000]);
}

#[test]
fn durations_are_written_with_six_decimal_places() {
    assert_eq!(fmt_duration(0), "0.000000");
    assert_eq!(fmt_duration(12_500_000_000), "12.500000");
    assert_eq!(fmt_duration(1_000), "0.000001");
    assert_eq!(fmt_duration(499), "0.000000");
    assert_eq!(fmt_duration(500), "0.000001");
    assert_eq!(fmt_duration(1_234_567_499), "1.234567");
    assert_eq!(fmt_duration(1_234_567_500), "1.234568");
    assert_eq!(fmt_duration(1_999_999_500), "2.000000");
    assert_eq!(fmt_duration(3_600_000_000_000), "3600.000000");
    assert_eq!(fmt_duration(u64::MAX), "18446744073.709552");
}

#[test]
fn span_names() {
    assert_eq!(span_name("track", 0), "track_0");
    assert_eq!(span_name("track", 10), "track_10");
    assert_eq!(span_name("", 4294967295), "_4294967295");
}

#[test]
fn debug_ids() {
    assert_eq!(DebugId::ButtonDelete(12).id_string(), "ButtonDelete:12");
    assert_eq!(DebugId::InfoSplitPointsSelected(39).id_string(), "InfoSplitPointsSelected:39");
    assert_eq!(DebugId::InfoSplitPointsSelected(0).id_string(), "InfoSplitPointsSelected:0");
    assert_eq!(DebugId::ButtonAnalyze.id_string(), "ButtonAnalyze");
    assert_eq!(DebugId::WarningNoSplitPointFound.id_string(), "WarningNoSplitPointFound");
    assert_eq!(DebugId::ButtonDelete(12).name(), "ButtonDelete");
    assert_eq!(DebugId::ErrorIO.name(), "ErrorIO");
}

#[test]
fn widget_ids() {
    assert_eq!(DebugId::ButtonDelete(12).id(), iced::widget::Id::from(String::from("ButtonDelete:12")));
    assert_eq!(DebugId::ButtonAnalyze.id(), iced::widget::Id::new("ButtonAnalyze"));
    assert_eq!(DebugId::InfoSplitPointsSelected(39).id(), iced::widget::Id::new("InfoSplitPointsSelected:39"));
    assert_ne!(DebugId::ButtonDelete(1).id(), DebugId::ButtonDelete(2).id());
    assert_ne!(DebugId::ButtonPlay.id(), DebugId::ButtonPause.id());
    assert_ne!(DebugId::ButtonPlay.id(), iced::widget::Id::new(""));
}

#[test]
fn errors_say_what_went_wrong() {
    assert_eq!(Error::from_kind(ErrorKind::AudioDecoder).message(), "failed to decode audio file");
    assert_eq!(Error::from_kind(ErrorKind::AudioDecoder).id(), DebugId::ErrorAudioDecoder);
    assert_eq!(Error::from_kind(ErrorKind::IO(String::from("no such file"))).message(), "no such file");
    assert_eq!(Error::from_kind(ErrorKind::IO(String::new())).id(), DebugId::ErrorIO);
    assert_eq!(
        Error::from_kind(ErrorKind::Parsing).message(),
        "failed to parse float; please check duration and threshold"
    );
    assert_eq!(Error::from_kind(ErrorKind::Parsing).id(), DebugId::ErrorParseFloat);
    assert_eq!(
        Error::from_kind(ErrorKind::NegativeDuration).message(),
        "a negative duration value is not allowed"
    );
    assert_eq!(Error::from_kind(ErrorKind::NegativeDuration).id(), DebugId::ErrorNegativeDuration);
    assert_eq!(Error::from_kind(ErrorKind::Analysis).message(), "the silence analysis failed");
    let error = Error::new(ErrorKind::Parsing, DebugId::TextInputDuration);
    assert_eq!(error.id(), DebugId::TextInputDuration);
}
