use csf_reader::assets::{get_data_names, AssetStore};
use csf_reader::index::{DisplayItem, IndexedScore};
use csf_reader::playback::{max_measure_count, playback_tick, select_item_index, sort_items_by_z, TickOutcome};
use csf_reader::score::Score;

fn track(text: &str) -> IndexedScore {
    let s = AssetStore::new();
    let score = Score::from_str(text, &get_data_names(&s)).unwrap();
    IndexedScore::from_score(&s, &score)
}

#[test]
fn sub_beat_selection_formula() {
    // Four items at fractional position 1/2: floor(4 * 0.5) = 2, the third.
    assert_eq!(select_item_index(4, 1, 2), 2);
    assert_eq!(select_item_index(4, 0, 2), 0);
    assert_eq!(select_item_index(4, 3, 4), 3);
    assert_eq!(select_item_index(3, 1, 2), 1);
    assert_eq!(select_item_index(1, 9, 10), 0);
}

#[test]
fn third_of_four_items_is_shown_at_half_measure() {
    let scores = vec![track("\"f0\"\n\"f1\"\n\"f2\"\n\"f3\"\n")];
    // One measure in, position 0.5: elapsed of 1 over a denominator of 2
    // puts the index at 0 and the fraction at 1/2.
    let r = playback_tick(&scores, 1, 1, 2);
    assert_eq!(r, TickOutcome::Frame("f2".to_string()));
}

#[test]
fn termination_after_the_last_measure() {
    let scores = vec![track("\"a\"\n---\n\"b\"\n")];
    let count = max_measure_count(&scores).unwrap();
    assert_eq!(count, 2);
    // Index equal to the count is still within the run (it selects nothing),
    // one past it finishes playback.
    assert_eq!(playback_tick(&scores, count, 2, 1), TickOutcome::Skip);
    assert_eq!(playback_tick(&scores, count, 3, 1), TickOutcome::Finished);
}

#[test]
fn empty_measure_skips_the_frame() {
    let scores = vec![track("\"a\"\n---\n\n---\n\"b\"\n")];
    assert_eq!(playback_tick(&scores, 3, 1, 1), TickOutcome::Skip);
}

#[test]
fn tracks_composite_in_stacking_order() {
    let base = track("#ZINDEX 1\n\"AAAA\"\n");
    let over = track("#ZINDEX 2\n\" B  \"\n");
    // Listed overlay first: the z sort still paints it on top of the base.
    let scores = vec![over, base];
    let r = playback_tick(&scores, 1, 0, 1);
    assert_eq!(r, TickOutcome::Frame("ABAA".to_string()));
}

#[test]
fn tracks_without_a_measure_at_the_index_are_skipped() {
    let long = track("\"one\"\n---\n\"two\"\n");
    let short = track("\"X\"\n");
    let scores = vec![short, long];
    assert_eq!(playback_tick(&scores, 2, 1, 1), TickOutcome::Frame("two".to_string()));
}

#[test]
fn max_measure_count_over_tracks() {
    assert_eq!(max_measure_count(&Vec::new()), None);
    let scores = vec![track("\"a\"\n"), track("\"a\"\n---\n\"b\"\n---\n\"c\"\n")];
    assert_eq!(max_measure_count(&scores), Some(3));
}

#[test]
fn sort_by_z_is_stable() {
    let a = DisplayItem { x: 0, y: 0, z: 1, content: "a".to_string() };
    let b = DisplayItem { x: 0, y: 0, z: 0, content: "b".to_string() };
    let c = DisplayItem { x: 0, y: 0, z: 1, content: "c".to_string() };
    let sorted = sort_items_by_z(vec![&a, &b, &c]);
    let contents: Vec<&str> = sorted.iter().map(|it| it.content.as_str()).collect();
    // Equal stacking orders keep their original relative order.
    assert_eq!(contents, vec!["b", "a", "c"]);
}
