use std::time::Duration;

use audio_split::audio::Audio;
use audio_split::audio_span::{AudioSpan, CursorState};

fn ns(secs: f32) -> u64 {
    Duration::from_secs_f32(secs).as_nanos() as u64
}

const SEC: u64 = 1_000_000_000;

fn ranges(audio: &Audio) -> Vec<(u64, u64)> {
    audio.spans().iter().map(|s| (s.start(), s.end())).collect()
}

fn ids(audio: &Audio) -> Vec<u32> {
    audio.spans().iter().map(|s| s.id()).collect()
}

fn tiles(audio: &Audio) -> bool {
    audio.spans().windows(2).all(|w| w[0].end() == w[1].start())
}

fn track(length: u64) -> Audio {
    Audio::new(AudioSpan::new(0, 0, length, String::from("track_0")), String::from("track"))
}

/// A timeline `[0,15) [15,30)`.
fn two_spans() -> Audio {
    let mut audio = track(30 * SEC);
    assert!(audio.toggle_selected_split_points(15 * SEC));
    audio.split();
    audio
}

/// A timeline `[0,15) [15,20) [20,30)`.
fn three_spans() -> Audio {
    let mut audio = two_spans();
    assert!(audio.toggle_selected_split_points(20 * SEC));
    audio.split();
    audio
}

#[test]
fn contains_position() {
    let span = AudioSpan::new(0, ns(12.5), ns(34.6), String::new());
    assert!(span.contains(ns(12.6)))
}

#[test]
fn set_splices_1() {
    let splices = vec![ns(12.5), ns(15.5), ns(17.5), ns(28.5)];
    let control = splices.clone();
    let mut spans = vec![AudioSpan::new(0, ns(0.0), ns(30.0), String::new())];
    Audio::set_split_points(&mut spans, splices);
    assert_eq!(spans[0].split_points(), control);
}

#[test]
fn span_does_not_contain_its_end_points() {
    let span = AudioSpan::new(0, ns(12.5), ns(34.6), String::new());
    assert!(span.contains(ns(12.6)));
    assert!(!span.contains(ns(12.5)));
    assert!(!span.contains(ns(34.6)));
    assert!(!span.contains(0));
    assert!(!span.contains(ns(40.0)));
}

#[test]
fn new_span_starts_with_cursor_at_start_and_no_points() {
    let span = AudioSpan::new(7, 5 * SEC, 9 * SEC, String::from("intro"));
    assert_eq!(span.id(), 7);
    assert_eq!(span.start(), 5 * SEC);
    assert_eq!(span.end(), 9 * SEC);
    assert_eq!(span.name(), "intro");
    assert_eq!(span.position(), 5 * SEC);
    assert!(span.split_points().is_empty());
    assert!(span.selected_split_points().is_empty());
    assert!(!span.split_points_selected());
}

#[test]
fn cursor_is_classified_and_clamped() {
    let mut span = AudioSpan::new(0, 10 * SEC, 20 * SEC, String::new());
    assert_eq!(span.set_pos_and_get_info(5 * SEC), (CursorState::Below, 10 * SEC));
    assert_eq!(span.position(), 10 * SEC);
    assert_eq!(span.set_pos_and_get_info(10 * SEC), (CursorState::Below, 10 * SEC));
    assert_eq!(span.position(), 10 * SEC);
    assert_eq!(span.set_pos_and_get_info(10 * SEC + 1), (CursorState::Inside, 10 * SEC));
    assert_eq!(span.position(), 10 * SEC + 1);
    assert_eq!(span.set_pos_and_get_info(20 * SEC - 1), (CursorState::Inside, 10 * SEC));
    assert_eq!(span.position(), 20 * SEC - 1);
    assert_eq!(span.set_pos_and_get_info(20 * SEC), (CursorState::Above, 10 * SEC));
    assert_eq!(span.position(), 20 * SEC);
    assert_eq!(span.set_pos_and_get_info(99 * SEC), (CursorState::Above, 10 * SEC));
    assert_eq!(span.position(), 20 * SEC);
}

#[test]
fn insert_keeps_cut_points_ascending_and_unique() {
    let mut span = AudioSpan::new(0, 0, 10 * SEC, String::new());
    assert!(span.insert_split_point(5 * SEC));
    assert!(span.insert_split_point(2 * SEC));
    assert!(span.insert_split_point(8 * SEC));
    assert!(span.insert_split_point(5 * SEC));
    assert!(!span.insert_split_point(0));
    assert!(!span.insert_split_point(10 * SEC));
    assert!(!span.insert_split_point(11 * SEC));
    assert_eq!(span.split_points(), [2 * SEC, 5 * SEC, 8 * SEC]);
}

#[test]
fn toggle_selects_and_deselects() {
    let mut span = AudioSpan::new(0, 0, 10 * SEC, String::new());
    assert!(span.toggle_split_point_selection(5 * SEC));
    assert!(span.toggle_split_point_selection(3 * SEC));
    assert_eq!(span.selected_split_points(), [3 * SEC, 5 * SEC]);
    assert!(span.split_points_selected());
    assert!(span.toggle_split_point_selection(5 * SEC));
    assert_eq!(span.selected_split_points(), [3 * SEC]);
    assert!(!span.toggle_split_point_selection(10 * SEC));
    assert_eq!(span.selected_split_points(), [3 * SEC]);
    assert!(span.toggle_split_point_selection(3 * SEC));
    assert!(!span.split_points_selected());
}

#[test]
fn clear_forgets_cut_points_and_selection() {
    let mut span = AudioSpan::new(0, 0, 10 * SEC, String::new());
    span.insert_split_point(4 * SEC);
    span.toggle_split_point_selection(4 * SEC);
    span.clear_split_points();
    assert!(span.split_points().is_empty());
    assert!(span.selected_split_points().is_empty());
}

#[test]
fn set_name_changes_only_the_name() {
    let mut span = AudioSpan::new(3, SEC, 2 * SEC, String::from("a"));
    span.set_name(String::from("b"));
    assert_eq!(span.name(), "b");
    assert_eq!(span.id(), 3);
    assert_eq!((span.start(), span.end()), (SEC, 2 * SEC));
}

#[test]
fn new_timeline_has_one_span() {
    let audio = track(30 * SEC);
    assert_eq!(ranges(&audio), [(0, 30 * SEC)]);
    assert_eq!(audio.index_counter(), 0);
    assert_eq!(audio.file_name(), "track");
    assert!(tiles(&audio));
}

#[test]
fn distribute_gives_single_span_all_candidates() {
    let mut audio = track(ns(30.0));
    let candidates = vec![ns(12.5), ns(15.5), ns(17.5), ns(28.5)];
    Audio::set_split_points(audio.spans_mut(), candidates.clone());
    assert_eq!(audio.spans()[0].split_points(), candidates);
}

#[test]
fn distribute_hands_each_candidate_to_the_span_that_contains_it() {
    let mut audio = three_spans();
    let candidates = vec![SEC, 14 * SEC, 16 * SEC, 21 * SEC, 29 * SEC];
    Audio::set_split_points(audio.spans_mut(), candidates);
    assert_eq!(audio.spans()[0].split_points(), [SEC, 14 * SEC]);
    assert_eq!(audio.spans()[1].split_points(), [16 * SEC]);
    assert_eq!(audio.spans()[2].split_points(), [21 * SEC, 29 * SEC]);
    for span in audio.spans() {
        for t in span.split_points() {
            assert!(span.start() < *t && *t < span.end());
        }
    }
    assert!(tiles(&audio));
}

#[test]
fn distribute_twice_gives_the_same() {
    let mut audio = three_spans();
    let candidates = vec![SEC, 14 * SEC, 16 * SEC, 21 * SEC, 29 * SEC];
    Audio::set_split_points(audio.spans_mut(), candidates.clone());
    let first: Vec<Vec<u64>> = audio.spans().iter().map(|s| s.split_points().to_vec()).collect();
    Audio::set_split_points(audio.spans_mut(), candidates);
    let second: Vec<Vec<u64>> = audio.spans().iter().map(|s| s.split_points().to_vec()).collect();
    assert_eq!(first, second);
}

#[test]
fn distribute_clears_what_was_there() {
    let mut audio = two_spans();
    Audio::set_split_points(audio.spans_mut(), vec![5 * SEC, 20 * SEC]);
    assert!(audio.toggle_selected_split_points(5 * SEC));
    assert!(audio.split_points_selected());
    Audio::set_split_points(audio.spans_mut(), vec![6 * SEC]);
    assert_eq!(audio.spans()[0].split_points(), [6 * SEC]);
    assert!(audio.spans()[1].split_points().is_empty());
    assert!(!audio.split_points_selected());
}

#[test]
fn distribute_stops_at_a_candidate_on_a_boundary() {
    let mut audio = two_spans();
    Audio::set_split_points(audio.spans_mut(), vec![5 * SEC, 15 * SEC, 20 * SEC]);
    assert!(audio.spans()[0].split_points().is_empty());
    assert_eq!(audio.spans()[1].split_points(), [20 * SEC]);
}

#[test]
fn distribute_stops_at_a_candidate_behind_the_track() {
    let mut audio = two_spans();
    Audio::set_split_points(audio.spans_mut(), vec![5 * SEC, 20 * SEC, 30 * SEC]);
    assert!(audio.spans()[0].split_points().is_empty());
    assert!(audio.spans()[1].split_points().is_empty());
}

#[test]
fn distribute_with_no_candidates() {
    let mut audio = two_spans();
    Audio::set_split_points(audio.spans_mut(), vec![5 * SEC]);
    Audio::set_split_points(audio.spans_mut(), Vec::new());
    assert!(audio.spans()[0].split_points().is_empty());
}

#[test]
fn distribute_takes_a_repeated_candidate_once() {
    let mut audio = track(30 * SEC);
    Audio::set_split_points(audio.spans_mut(), vec![5 * SEC, 5 * SEC, 7 * SEC]);
    assert_eq!(audio.spans()[0].split_points(), [5 * SEC, 7 * SEC]);
}

#[test]
fn split_selected_point_in_second_span() {
    let mut audio = two_spans();
    assert_eq!(ranges(&audio), [(0, 15 * SEC), (15 * SEC, 30 * SEC)]);
    let before = ids(&audio);
    Audio::set_split_points(audio.spans_mut(), vec![20 * SEC]);
    assert!(audio.toggle_selected_split_points(20 * SEC));
    audio.split();
    assert_eq!(ranges(&audio), [(0, 15 * SEC), (15 * SEC, 20 * SEC), (20 * SEC, 30 * SEC)]);
    let after = ids(&audio);
    assert_eq!(after[0], before[0]);
    assert_eq!(after[1], before[1]);
    assert!(!before.contains(&after[2]));
    assert_eq!(after[2], audio.index_counter());
    assert!(tiles(&audio));
    assert!(!audio.split_points_selected());
}

#[test]
fn split_names_the_new_span_after_the_track() {
    let mut audio = track(30 * SEC);
    audio.toggle_selected_split_points(10 * SEC);
    audio.toggle_selected_split_points(20 * SEC);
    audio.split();
    let names: Vec<&str> = audio.spans().iter().map(|s| s.name()).collect();
    assert_eq!(names, ["track_0", "track_1", "track_2"]);
    assert_eq!(ids(&audio), [0, 1, 2]);
    assert_eq!(audio.index_counter(), 2);
    assert_eq!(ranges(&audio), [(0, 10 * SEC), (10 * SEC, 20 * SEC), (20 * SEC, 30 * SEC)]);
}

#[test]
fn split_at_shares_out_the_cut_points() {
    let mut audio = track(30 * SEC);
    let parent = vec![5 * SEC, 10 * SEC, 15 * SEC, 25 * SEC];
    Audio::set_split_points(audio.spans_mut(), parent.clone());
    audio.split_at(12 * SEC);
    assert_eq!(audio.spans()[0].split_points(), [5 * SEC, 10 * SEC]);
    assert_eq!(audio.spans()[1].split_points(), [15 * SEC, 25 * SEC]);
    let mut both = audio.spans()[0].split_points().to_vec();
    both.extend_from_slice(audio.spans()[1].split_points());
    assert_eq!(both, parent);
}

#[test]
fn split_at_a_cut_point_uses_it_up() {
    let mut audio = track(30 * SEC);
    Audio::set_split_points(audio.spans_mut(), vec![5 * SEC, 10 * SEC, 15 * SEC]);
    audio.split_at(10 * SEC);
    assert_eq!(audio.spans()[0].split_points(), [5 * SEC]);
    assert_eq!(audio.spans()[1].split_points(), [15 * SEC]);
    assert_eq!(audio.spans()[0].position(), 0);
    assert_eq!(audio.spans()[1].position(), 10 * SEC);
}

#[test]
fn split_without_selection_changes_nothing() {
    let mut audio = two_spans();
    audio.split();
    assert_eq!(ranges(&audio), [(0, 15 * SEC), (15 * SEC, 30 * SEC)]);
    assert_eq!(audio.index_counter(), 1);
}

#[test]
fn toggle_reports_whether_a_span_claimed_the_point() {
    let mut audio = two_spans();
    assert!(audio.toggle_selected_split_points(20 * SEC));
    assert_eq!(audio.spans()[1].selected_split_points(), [20 * SEC]);
    assert!(audio.spans()[0].selected_split_points().is_empty());
    assert!(!audio.toggle_selected_split_points(15 * SEC));
    assert!(!audio.toggle_selected_split_points(30 * SEC));
    assert!(audio.toggle_selected_split_points(20 * SEC));
    assert!(!audio.split_points_selected());
}

#[test]
fn spans_are_found_by_time_and_by_id() {
    let audio = three_spans();
    assert_eq!(audio.span_at(SEC), Some(0));
    assert_eq!(audio.span_at(16 * SEC), Some(1));
    assert_eq!(audio.span_at(29 * SEC), Some(2));
    assert_eq!(audio.span_at(15 * SEC), None);
    assert_eq!(audio.span_at(0), None);
    assert_eq!(audio.span_at(30 * SEC), None);
    let ids = ids(&audio);
    assert_eq!(audio.span_with_id(ids[2]), Some(2));
    assert_eq!(audio.span_with_id(ids[0]), Some(0));
    assert_eq!(audio.span_with_id(99), None);
}

#[test]
fn delete_leaves_a_gap() {
    let mut audio = three_spans();
    let id = audio.spans()[1].id();
    audio.delete_span(id);
    assert_eq!(ranges(&audio), [(0, 15 * SEC), (20 * SEC, 30 * SEC)]);
    assert!(!tiles(&audio));
    audio.delete_span(id);
    assert_eq!(ranges(&audio), [(0, 15 * SEC), (20 * SEC, 30 * SEC)]);
    audio.delete_span(77);
    assert_eq!(ranges(&audio).len(), 2);
}

#[test]
fn deleted_id_is_not_used_again() {
    let mut audio = three_spans();
    let gone = audio.spans()[2].id();
    audio.delete_span(gone);
    audio.toggle_selected_split_points(5 * SEC);
    audio.split();
    assert!(!ids(&audio).contains(&gone));
}

#[test]
fn cursor_in_gap_seeks_to_next_span() {
    let mut audio = three_spans();
    let id = audio.spans()[1].id();
    audio.delete_span(id);
    assert_eq!(audio.update_position_info(17 * SEC), Some(20 * SEC));
    assert_eq!(audio.spans()[0].position(), 15 * SEC);
    assert_eq!(audio.spans()[1].position(), 20 * SEC);
}

#[test]
fn cursor_inside_a_span_does_not_seek() {
    let mut audio = three_spans();
    assert_eq!(audio.update_position_info(17 * SEC), None);
    assert_eq!(audio.spans()[0].position(), 15 * SEC);
    assert_eq!(audio.spans()[1].position(), 17 * SEC);
    assert_eq!(audio.spans()[2].position(), 20 * SEC);
}

#[test]
fn cursor_behind_all_spans_does_not_seek() {
    let mut audio = two_spans();
    assert_eq!(audio.update_position_info(40 * SEC), None);
    assert_eq!(audio.spans()[1].position(), 30 * SEC);
}

#[test]
fn cursor_at_the_start_of_a_span_seeks_there() {
    let mut audio = two_spans();
    assert_eq!(audio.update_position_info(0), Some(0));
    assert_eq!(audio.update_position_info(15 * SEC), Some(15 * SEC));
}

#[test]
fn cursor_on_an_empty_timeline() {
    let mut audio = track(30 * SEC);
    audio.delete_span(0);
    assert!(audio.spans().is_empty());
    assert_eq!(audio.update_position_info(SEC), None);
    assert!(!audio.end_of_track(SEC));
}

#[test]
fn end_of_track_is_within_300_milliseconds_of_the_end() {
    let audio = two_spans();
    assert!(audio.end_of_track(30 * SEC));
    assert!(audio.end_of_track(30 * SEC - 299_999_999));
    assert!(!audio.end_of_track(30 * SEC - 300_000_000));
    assert!(!audio.end_of_track(30 * SEC + 1));
    assert!(!audio.end_of_track(0));
}

#[test]
fn set_pos_moves_the_span_with_that_id() {
    let mut audio = two_spans();
    audio.set_pos(1, 20 * SEC);
    assert_eq!(audio.spans()[1].position(), 20 * SEC);
    assert_eq!(audio.spans()[0].position(), 0);
    audio.set_pos(0, 20 * SEC);
    assert_eq!(audio.spans()[0].position(), 15 * SEC);
    audio.set_pos(9, SEC);
    assert_eq!(audio.spans()[0].position(), 15 * SEC);
    assert_eq!(audio.spans()[1].position(), 20 * SEC);
}

#[test]
fn rename_changes_the_name_of_the_span_with_that_id() {
    let mut audio = two_spans();
    audio.update_span_text(1, String::from("chorus"));
    assert_eq!(audio.spans()[1].name(), "chorus");
    assert_eq!(audio.spans()[0].name(), "track_0");
    audio.update_span_text(0, String::from("chorus"));
    assert_eq!(audio.spans()[0].name(), "chorus");
    audio.update_span_text(5, String::from("x"));
    assert_eq!(ids(&audio), [0, 1]);
}

#[test]
fn tiling_survives_every_operation_but_delete() {
    let mut audio = track(60 * SEC);
    assert!(tiles(&audio));
    Audio::set_split_points(audio.spans_mut(), vec![10 * SEC, 20 * SEC, 30 * SEC, 40 * SEC]);
    assert!(tiles(&audio));
    audio.toggle_selected_split_points(20 * SEC);
    audio.toggle_selected_split_points(40 * SEC);
    assert!(tiles(&audio));
    audio.split();
    assert!(tiles(&audio));
    audio.update_span_text(1, String::from("b"));
    audio.set_pos(2, 45 * SEC);
    audio.update_position_info(25 * SEC);
    audio.split_at(50 * SEC);
    assert!(tiles(&audio));
    assert_eq!(
        ranges(&audio),
        [(0, 20 * SEC), (20 * SEC, 40 * SEC), (40 * SEC, 50 * SEC), (50 * SEC, 60 * SEC)]
    );
}
