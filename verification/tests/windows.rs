use rosu_pp::evaluators::reading::{
    angle_relevancy_window, retrieve_current_visible_objects, retrieve_past_visible_objects,
};
use rosu_pp::evaluators::SnapAimEvaluator;
use rosu_pp::object::ObjectTiming;

fn obj(start_ms: i64, preempt_ms: i64) -> ObjectTiming {
    ObjectTiming::new(start_ms * 1000, preempt_ms * 1000, 100_000)
}

fn with_delta(delta_ms: i64) -> ObjectTiming {
    ObjectTiming::new(0, 0, delta_ms * 1000)
}

#[test]
fn past_visible_stops_at_object_shown_before_current_appears() {
    let objects = vec![obj(0, 0), obj(1000, 0), obj(2000, 0), obj(3500, 2000)];
    assert_eq!(retrieve_past_visible_objects(3, &objects), vec![2]);
}

#[test]
fn past_visible_stops_at_reading_window() {
    let objects = vec![obj(0, 0), obj(1000, 0), obj(2000, 0), obj(3500, 10_000)];
    assert_eq!(retrieve_past_visible_objects(3, &objects), vec![2, 1]);
}

#[test]
fn past_visible_none_when_preempt_is_short() {
    let objects = vec![obj(0, 0), obj(1000, 0), obj(2000, 0), obj(3500, 1200)];
    assert!(retrieve_past_visible_objects(3, &objects).is_empty());
}

#[test]
fn past_visible_of_first_object_is_empty() {
    let objects = vec![obj(0, 10_000), obj(10, 10_000)];
    assert!(retrieve_past_visible_objects(0, &objects).is_empty());
}

#[test]
fn past_visible_window_edge_is_inclusive() {
    let objects = vec![obj(0, 0), obj(3000, 5000)];
    assert_eq!(retrieve_past_visible_objects(1, &objects), vec![0]);
    let objects = vec![ObjectTiming::new(0, 0, 0), ObjectTiming::new(3_000_001, 5_000_000, 0)];
    assert!(retrieve_past_visible_objects(1, &objects).is_empty());
}

#[test]
fn current_visible_stops_at_object_not_yet_shown() {
    let objects = vec![obj(0, 0), obj(1000, 1200), obj(2000, 1200), obj(2100, 5000)];
    assert_eq!(retrieve_current_visible_objects(0, &objects), vec![1]);
}

#[test]
fn current_visible_runs_to_end_of_map() {
    let objects = vec![obj(0, 0), obj(1000, 5000), obj(2000, 5000)];
    assert_eq!(retrieve_current_visible_objects(0, &objects), vec![1, 2]);
    assert!(retrieve_current_visible_objects(2, &objects).is_empty());
}

#[test]
fn current_visible_stops_at_reading_window() {
    let objects = vec![obj(0, 0), obj(2999, 5000), obj(3001, 5000)];
    assert_eq!(retrieve_current_visible_objects(0, &objects), vec![1]);
}

#[test]
fn angle_window_includes_first_object_past_two_seconds() {
    let objects = vec![obj(0, 0), obj(2900, 0), obj(3500, 0), obj(4500, 0), obj(5000, 0)];
    assert_eq!(angle_relevancy_window(4, &objects), 3);
}

#[test]
fn angle_window_runs_out_of_objects() {
    let objects = vec![obj(4000, 0), obj(4500, 0), obj(5000, 0)];
    assert_eq!(angle_relevancy_window(2, &objects), 2);
    assert_eq!(angle_relevancy_window(0, &objects), 0);
}

#[test]
fn repetition_window_stops_at_rhythm_change() {
    let objects = vec![with_delta(111), with_delta(110), with_delta(105), with_delta(100)];
    assert_eq!(SnapAimEvaluator::repetition_window(3, &objects), 2);
}

#[test]
fn repetition_window_is_capped() {
    let objects: Vec<ObjectTiming> = (0..10).map(|_| with_delta(100)).collect();
    assert_eq!(SnapAimEvaluator::repetition_window(9, &objects), 6);
    assert_eq!(SnapAimEvaluator::repetition_window(3, &objects), 3);
}
