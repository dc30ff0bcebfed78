use audio_split::analyze::{analysis_arguments, silence_filter};
use audio_split::canvas::MouseInteraction;
use audio_split::error::{Error, ErrorKind};
use audio_split::user_info::{info, warning};
use audio_split::utils::{fmt_fixed, trim_arguments};
use audio_split::{Action, Audio, AudioSpan, AudioSplit, DebugId, Message, UserInfo};

const SEC: u64 = 1_000_000_000;

fn track() -> Audio {
    Audio::new(AudioSpan::new(0, 0, 30 * SEC, String::from("LibriVox_00_0")), String::from("LibriVox_00"))
}

/// The application with an audio file of 30 seconds loaded.
fn loaded() -> AudioSplit {
    let mut app = AudioSplit::init();
    let action = app.update(Message::AudioFilePathLoaded(Some(String::from("media/LibriVox_00.mp3"))));
    assert!(matches!(action, Action::LoadAudio(path) if path == "media/LibriVox_00.mp3"));
    let action = app.update(Message::AudioLoaded(Ok(track())));
    assert!(matches!(action, Action::Nothing));
    app
}

fn shown(app: &AudioSplit) -> Option<DebugId> {
    app.user_info().id()
}

fn ranges(app: &AudioSplit) -> Vec<(u64, u64)> {
    app.audio().unwrap().spans().iter().map(|s| (s.start(), s.end())).collect()
}

#[test]
fn starts_with_default_settings() {
    let app = AudioSplit::init();
    assert!(app.audio().is_none());
    assert!(!app.is_playing());
    assert_eq!(app.threshold(), "-50.0");
    assert_eq!(app.duration(), "0.3");
    assert!(matches!(app.user_info(), UserInfo::Empty));
    assert_eq!(shown(&app), None);
}

#[test]
fn open_file_success() {
    let app = loaded();
    assert_eq!(shown(&app), Some(DebugId::InfoAudioLoaded));
    assert!(matches!(app.user_info(), UserInfo::Info(text, _) if text == info::AUDIO_LOADED));
    assert_eq!(ranges(&app), [(0, 30 * SEC)]);
}

#[test]
fn open_file_failed_wrong_media_type() {
    let mut app = AudioSplit::init();
    app.update(Message::AudioFilePathLoaded(Some(String::from("media/audio_split.gif"))));
    app.update(Message::AudioLoaded(Err(Error::from_kind(ErrorKind::AudioDecoder))));
    assert_eq!(shown(&app), Some(DebugId::ErrorAudioDecoder));
    assert!(app.audio().is_none());
    assert!(!app.is_playing());
}

#[test]
fn open_file_failed_wrong_media_path() {
    let mut app = AudioSplit::init();
    app.update(Message::AudioFilePathLoaded(Some(String::from("media/no_a_file.mp3"))));
    app.update(Message::AudioLoaded(Err(Error::from_kind(ErrorKind::IO(String::from("not found"))))));
    assert_eq!(shown(&app), Some(DebugId::ErrorIO));
    assert!(app.audio().is_none());
}

#[test]
fn test_drop_file() {
    let mut app = AudioSplit::init();
    let action = app.update(Message::FileDropped(String::from("media/LibriVox_00.mp3")));
    assert!(matches!(action, Action::LoadAudio(path) if path == "media/LibriVox_00.mp3"));
    app.update(Message::AudioLoaded(Ok(track())));
    assert_eq!(shown(&app), Some(DebugId::InfoAudioLoaded));
}

#[test]
fn no_file_chosen_does_nothing() {
    let mut app = AudioSplit::init();
    assert!(matches!(app.update(Message::AudioFilePathLoaded(None)), Action::Nothing));
    assert!(matches!(app.update(Message::ExportPathLoaded(None)), Action::Nothing));
    assert_eq!(shown(&app), None);
}

#[test]
fn no_audio_file_loaded_play_btn() {
    let mut app = AudioSplit::init();
    assert!(matches!(app.update(Message::Play), Action::Nothing));
    assert_eq!(shown(&app), Some(DebugId::WarningNoAudioLoaded));
    assert!(matches!(app.user_info(), UserInfo::Waring(text, _) if text == warning::NO_AUDIO_LOADED));
    assert!(!app.is_playing());
}

#[test]
fn no_audio_file_loaded_analyze_btn() {
    let mut app = AudioSplit::init();
    assert!(matches!(app.update(Message::Analyze), Action::Nothing));
    assert_eq!(shown(&app), Some(DebugId::WarningNoAudioLoaded));
}

#[test]
fn no_audio_file_loaded_split_btn() {
    let mut app = AudioSplit::init();
    assert!(matches!(app.update(Message::Split), Action::Nothing));
    assert_eq!(shown(&app), Some(DebugId::WarningNoAudioLoaded));
}

#[test]
fn no_audio_file_loaded_export_btn() {
    let mut app = AudioSplit::init();
    assert!(matches!(app.update(Message::OpenExportDialog), Action::Nothing));
    assert_eq!(shown(&app), Some(DebugId::WarningNoAudioLoaded));
}

#[test]
fn playing_on_clean_load() {
    let app = loaded();
    assert!(app.is_playing());
}

#[test]
fn press_pause_while_playing() {
    let mut app = loaded();
    assert!(matches!(app.update(Message::Pause), Action::Pause));
    assert!(!app.is_playing());
}

#[test]
fn press_play_while_paused() {
    let mut app = loaded();
    app.update(Message::Pause);
    assert!(matches!(app.update(Message::Play), Action::Play));
    assert!(app.is_playing());
}

#[test]
fn auto_playing_when_new_media_loaded() {
    let mut app = loaded();
    app.update(Message::Pause);
    assert!(!app.is_playing());
    app.update(Message::AudioFilePathLoaded(Some(String::from("media/LibriVox_00.mp3"))));
    app.update(Message::AudioLoaded(Ok(track())));
    assert!(app.is_playing());
}

#[test]
fn warn_when_no_splice_is_selected() {
    let mut app = loaded();
    assert!(matches!(app.update(Message::Split), Action::Nothing));
    assert_eq!(shown(&app), Some(DebugId::WarningNoSplitPointSelected));
    assert!(
        matches!(app.user_info(), UserInfo::Waring(text, _) if text == warning::NO_SPLIT_POINT_SELECTED)
    );
    assert_eq!(ranges(&app), [(0, 30 * SEC)]);
}

#[test]
fn duration_not_a_number() {
    let mut app = loaded();
    app.update(Message::UpdateDuration(String::from("0.3b")));
    assert!(matches!(app.update(Message::Analyze), Action::Nothing));
    assert_eq!(shown(&app), Some(DebugId::ErrorParseFloat));
}

#[test]
fn threshold_not_a_number() {
    let mut app = loaded();
    app.update(Message::UpdateThreshold(String::from("-50.0b")));
    assert!(matches!(app.update(Message::Analyze), Action::Nothing));
    assert_eq!(shown(&app), Some(DebugId::ErrorParseFloat));
}

#[test]
fn duration_not_negative() {
    let mut app = loaded();
    app.update(Message::UpdateDuration(String::from("-3")));
    assert!(matches!(app.update(Message::Analyze), Action::Nothing));
    assert_eq!(shown(&app), Some(DebugId::ErrorNegativeDuration));
    assert!(matches!(app.user_info(), UserInfo::Error(e) if matches!(e.kind(), ErrorKind::NegativeDuration)));
}

#[test]
fn analyze_hands_on_what_the_user_typed() {
    let mut app = loaded();
    let action = app.update(Message::Analyze);
    match action {
        Action::Analyze { path, threshold, min_silence } => {
            assert_eq!(path, "media/LibriVox_00.mp3");
            assert_eq!(threshold, -50_000_000_000);
            assert_eq!(min_silence, 300_000_000);
        }
        _ => panic!("no analysis asked for"),
    }
    app.update(Message::UpdateDuration(String::from("10.")));
    app.update(Message::UpdateThreshold(String::from("-30")));
    assert!(matches!(
        app.update(Message::Analyze),
        Action::Analyze { threshold: -30_000_000_000, min_silence: 10_000_000_000, .. }
    ));
    app.update(Message::UpdateDuration(String::from("-0")));
    assert!(matches!(app.update(Message::Analyze), Action::Analyze { min_silence: 0, .. }));
}

#[test]
fn splits_detected() {
    let mut app = loaded();
    let found: Vec<u64> = (1..=39).map(|i| i * SEC / 2).collect();
    assert!(matches!(app.update(Message::Analyzed(Ok(found.clone()))), Action::Nothing));
    assert_eq!(shown(&app), Some(DebugId::InfoSplitPointsSelected(39)));
    assert!(matches!(
        app.user_info(),
        UserInfo::Info(text, _) if text == "Detected 39 potential split points."
    ));
    assert_eq!(app.audio().unwrap().spans()[0].split_points(), found);
}

#[test]
fn no_splits_detected() {
    let mut app = loaded();
    app.update(Message::Analyzed(Ok(vec![5 * SEC])));
    app.update(Message::Analyzed(Ok(Vec::new())));
    assert_eq!(shown(&app), Some(DebugId::WarningNoSplitPointFound));
    assert!(
        matches!(app.user_info(), UserInfo::Waring(text, _) if text == warning::NO_SPLIT_POINTS_FOUND)
    );
    assert!(app.audio().unwrap().spans()[0].split_points().is_empty());
}

#[test]
fn candidates_are_put_in_order_before_they_are_handed_out() {
    let mut app = loaded();
    app.update(Message::Analyzed(Ok(vec![20 * SEC, 5 * SEC, 10 * SEC, 5 * SEC])));
    assert_eq!(shown(&app), Some(DebugId::InfoSplitPointsSelected(4)));
    assert_eq!(app.audio().unwrap().spans()[0].split_points(), [5 * SEC, 10 * SEC, 20 * SEC]);
}

#[test]
fn failed_analysis_is_shown() {
    let mut app = loaded();
    app.update(Message::Analyzed(Err(Error::from_kind(ErrorKind::Analysis))));
    assert_eq!(shown(&app), Some(DebugId::ErrorAnalysis));
}

#[test]
fn failed_export_is_shown() {
    let mut app = loaded();
    assert!(matches!(app.update(Message::AudioSaved(Ok(()))), Action::Nothing));
    assert_eq!(shown(&app), Some(DebugId::InfoAudioLoaded));
    app.update(Message::AudioSaved(Err(Error::from_kind(ErrorKind::IO(String::from("disk full"))))));
    assert_eq!(shown(&app), Some(DebugId::ErrorIO));
    assert!(matches!(app.user_info(), UserInfo::Error(e) if e.message() == "disk full"));
}

#[test]
fn click_split_delete_and_rename() {
    let mut app = loaded();
    app.update(Message::Analyzed(Ok(vec![10 * SEC, 20 * SEC])));
    app.update(Message::ClickSplice(10 * SEC));
    app.update(Message::ClickSplice(20 * SEC));
    app.update(Message::ClickSplice(20 * SEC));
    assert!(matches!(app.update(Message::Split), Action::Nothing));
    assert_eq!(ranges(&app), [(0, 10 * SEC), (10 * SEC, 30 * SEC)]);
    assert_eq!(app.audio().unwrap().spans()[1].split_points(), [20 * SEC]);
    assert_eq!(app.audio().unwrap().spans()[1].name(), "LibriVox_00_1");
    app.update(Message::SpanTextUpdate(1, String::from("second half")));
    assert_eq!(app.audio().unwrap().spans()[1].name(), "second half");
    app.update(Message::DeleteAudioSpan(0));
    assert_eq!(ranges(&app), [(10 * SEC, 30 * SEC)]);
}

#[test]
fn messages_about_the_timeline_without_audio_do_nothing() {
    let mut app = AudioSplit::init();
    assert!(matches!(app.update(Message::Tick(SEC)), Action::Nothing));
    assert!(matches!(app.update(Message::CheckEnd(SEC)), Action::Nothing));
    assert!(matches!(app.update(Message::ClickSplice(SEC)), Action::Nothing));
    assert!(matches!(app.update(Message::DeleteAudioSpan(0)), Action::Nothing));
    assert!(matches!(app.update(Message::SpanTextUpdate(0, String::new())), Action::Nothing));
    assert!(matches!(app.update(Message::AudioSpanPositionUpdate(0, SEC)), Action::Nothing));
    assert!(matches!(app.update(Message::Analyzed(Ok(vec![SEC]))), Action::Nothing));
    assert!(app.audio().is_none());
    assert_eq!(shown(&app), None);
}

#[test]
fn tick_in_a_gap_seeks_to_the_next_span() {
    let mut app = loaded();
    app.update(Message::ClickSplice(15 * SEC));
    app.update(Message::ClickSplice(20 * SEC));
    app.update(Message::Split);
    assert_eq!(ranges(&app), [(0, 15 * SEC), (15 * SEC, 20 * SEC), (20 * SEC, 30 * SEC)]);
    assert!(matches!(app.update(Message::Tick(17 * SEC)), Action::Nothing));
    app.update(Message::DeleteAudioSpan(1));
    assert!(matches!(app.update(Message::Tick(17 * SEC)), Action::Seek(to) if to == 20 * SEC));
    assert!(matches!(app.update(Message::Tick(21 * SEC)), Action::Nothing));
    assert_eq!(app.audio().unwrap().spans()[1].position(), 21 * SEC);
}

#[test]
fn end_of_track_starts_over() {
    let mut app = loaded();
    app.update(Message::Tick(29 * SEC));
    assert!(matches!(app.update(Message::CheckEnd(29 * SEC)), Action::Nothing));
    app.update(Message::Tick(30 * SEC - 1));
    assert_eq!(app.audio().unwrap().spans()[0].position(), 30 * SEC - 1);
    assert!(matches!(app.update(Message::CheckEnd(30 * SEC - 1)), Action::Seek(0)));
    assert_eq!(app.audio().unwrap().spans()[0].position(), 0);
}

#[test]
fn moving_a_cursor_seeks() {
    let mut app = loaded();
    assert!(matches!(
        app.update(Message::AudioSpanPositionUpdate(0, 12 * SEC)),
        Action::Seek(to) if to == 12 * SEC
    ));
    assert_eq!(app.audio().unwrap().spans()[0].position(), 12 * SEC);
}

#[test]
fn dialogs_start_where_the_last_one_ended() {
    let mut app = AudioSplit::init();
    assert!(matches!(app.update(Message::OpenAudioFileDialog), Action::OpenAudioFileDialog(None)));
    let mut app = loaded();
    assert!(matches!(
        app.update(Message::OpenAudioFileDialog),
        Action::OpenAudioFileDialog(Some(path)) if path == "media/LibriVox_00.mp3"
    ));
    assert!(matches!(app.update(Message::OpenExportDialog), Action::OpenExportDialog(None)));
    let action = app.update(Message::ExportPathLoaded(Some(String::from("out"))));
    assert!(matches!(
        action,
        Action::SaveAudio { source, folder } if source == "media/LibriVox_00.mp3" && folder == "out"
    ));
    assert!(matches!(
        app.update(Message::OpenExportDialog),
        Action::OpenExportDialog(Some(path)) if path == "out"
    ));
}

#[test]
fn export_without_audio_does_nothing() {
    let mut app = AudioSplit::init();
    assert!(matches!(
        app.update(Message::ExportPathLoaded(Some(String::from("out")))),
        Action::Nothing
    ));
}

#[test]
fn arguments_for_trimming() {
    assert_eq!(
        trim_arguments("in.mp3", "out/part.mp3", 12_500_000_000, 34_600_000_400),
        [
            "-hide_banner", "-nostats", "-y", "-i", "in.mp3", "-ss", "12.500000", "-to",
            "34.600000", "out/part.mp3"
        ]
    );
}

#[test]
fn arguments_for_the_analysis() {
    assert_eq!(silence_filter(-50_000_000_000, 300_000_000), "silencedetect=n=-50.000000000dB:d=0.300000000");
    assert_eq!(
        analysis_arguments("in.mp3", -50_000_000_000, 300_000_000),
        [
            "-hide_banner", "-nostats", "-i", "in.mp3", "-af",
            "silencedetect=n=-50.000000000dB:d=0.300000000", "-f", "null", "-"
        ]
    );
    assert_eq!(silence_filter(0, u64::MAX), "silencedetect=n=0.000000000dB:d=18446744073.709551615");
}

#[test]
fn fixed_point_numbers() {
    assert_eq!(fmt_fixed(0), "0.000000000");
    assert_eq!(fmt_fixed(1), "0.000000001");
    assert_eq!(fmt_fixed(-1), "-0.000000001");
    assert_eq!(fmt_fixed(-50_500_000_000), "-50.500000000");
    assert_eq!(fmt_fixed(i64::MAX), "9223372036.854775807");
    assert_eq!(fmt_fixed(i64::MIN), "-9223372036.854775808");
}

#[test]
fn messages_for_the_user() {
    assert_eq!(info::split_points_detected(0), "Detected 0 potential split points.");
    assert_eq!(info::split_points_detected(39), "Detected 39 potential split points.");
    assert!(matches!(UserInfo::default(), UserInfo::Empty));
    assert_eq!(UserInfo::Info(String::new(), DebugId::ButtonOpen).id(), Some(DebugId::ButtonOpen));
    assert_eq!(MouseInteraction::default().hovered, None);
}
