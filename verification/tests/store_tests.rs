use nt4_logging::log_store::{effective_query_time, LogStore, TopicValue};

fn bits(x: f64) -> u64 {
    x.to_bits()
}

#[test]
fn coalescing_and_step_lookup() {
    // An unchanged double is not stored again; the series holds one
    // entry per change and lookups follow the step function.
    let mut s = LogStore::new();
    s.update_double("t".to_string(), 100, bits(1.0));
    s.update_double("t".to_string(), 200, bits(1.0));
    s.update_double("t".to_string(), 300, bits(2.0));
    match s.data.iter().find(|e| e.0 == "t") {
        Some(e) => match &e.1 {
            nt4_logging::log_store::TopicData::Double { timestamps, values } => {
                assert_eq!(timestamps, &vec![100, 300]);
                assert_eq!(values, &vec![bits(1.0), bits(2.0)]);
            },
            _ => panic!("wrong kind"),
        },
        None => panic!("topic missing"),
    }
    assert_eq!(s.get_double("t", 250, bits(0.0)), bits(1.0));
    assert_eq!(s.get_double("t", 300, bits(0.0)), bits(2.0));
    assert_eq!(s.get_double("t", u64::MAX, bits(0.0)), bits(2.0));
    assert_eq!(s.get_double("t", 50, bits(0.0)), bits(0.0));
}

#[test]
fn default_before_first_sample() {
    let mut s = LogStore::new();
    s.update_boolean("b".to_string(), 10, true);
    s.update_string("s".to_string(), 10, "hi".to_string());
    assert_eq!(s.get_boolean("b", 9, false), false);
    assert_eq!(s.get_string("s", 9, "dflt".to_string()), "dflt");
    assert_eq!(s.get_boolean("b", 10, false), true);
    assert_eq!(s.get_string("s", 10, "dflt".to_string()), "hi");
}

#[test]
fn absent_topic_and_kind_mismatch_return_default() {
    let mut s = LogStore::new();
    s.update_double("t".to_string(), 1, bits(5.0));
    // Absent topic.
    assert_eq!(s.get_double("missing", 10, bits(7.5)), bits(7.5));
    // A write of another kind onto an existing topic is dropped.
    s.update_boolean("t".to_string(), 2, true);
    assert_eq!(s.get_boolean("t", 10, false), false);
    assert_eq!(s.get_double("t", 10, bits(0.0)), bits(5.0));
}

#[test]
fn clear_is_idempotent_and_invalidates_generations() {
    let mut s = LogStore::new();
    let g0 = s.generation;
    assert!(s.check_generation(g0));
    s.update_double("t".to_string(), 1, bits(1.0));
    s.set_type("t".to_string(), "double".to_string());
    s.clear();
    assert!(!s.check_generation(g0));
    assert!(!s.has_topic("t"));
    assert_eq!(s.get_topics_info().len(), 0);
    let g1 = s.generation;
    s.clear();
    // Observable state equals one clear: empty either way.
    assert!(!s.has_topic("t"));
    assert_eq!(s.get_topics_info().len(), 0);
    assert!(!s.check_generation(g0));
    assert!(!s.check_generation(g1));
    assert_eq!(s.generation, g0 + 2);
}

#[test]
fn array_and_raw_series() {
    let mut s = LogStore::new();
    s.update_double_array("a".to_string(), 1, vec![bits(1.0), bits(2.0)]);
    s.update_double_array("a".to_string(), 2, vec![bits(1.0), bits(2.0)]);
    s.update_double_array("a".to_string(), 3, vec![bits(3.0)]);
    assert_eq!(s.get_double_array("a", 2, vec![]), vec![bits(1.0), bits(2.0)]);
    assert_eq!(s.get_double_array("a", 3, vec![]), vec![bits(3.0)]);
    assert_eq!(s.get_double_array("a", 0, vec![bits(9.0)]), vec![bits(9.0)]);

    s.update_boolean_array("b".to_string(), 1, vec![true, false]);
    s.update_boolean_array("b".to_string(), 2, vec![true, false]);
    assert_eq!(s.get_boolean_array("b", 5, vec![]), vec![true, false]);

    s.update_string_array("c".to_string(), 1, vec!["x".to_string()]);
    s.update_string_array("c".to_string(), 2, vec!["x".to_string(), "y".to_string()]);
    assert_eq!(
        s.get_string_array("c", 2, vec![]),
        vec!["x".to_string(), "y".to_string()]
    );

    s.update_raw("r".to_string(), 1, vec![1, 2, 3]);
    s.update_raw("r".to_string(), 2, vec![1, 2, 3]);
    s.update_raw("r".to_string(), 3, vec![4]);
    assert_eq!(s.get_raw("r", 2), Some(vec![1, 2, 3]));
    assert_eq!(s.get_raw("r", 0), None);
    assert_eq!(s.get_raw("missing", 0), None);
}

#[test]
fn boolean_series_is_returned_whole() {
    let mut s = LogStore::new();
    s.update_boolean("b".to_string(), 5, true);
    s.update_boolean("b".to_string(), 9, false);
    assert_eq!(s.get_boolean_series("b"), Some((vec![5, 9], vec![true, false])));
    assert_eq!(s.get_boolean_series("missing"), None);
    s.update_double("d".to_string(), 1, bits(1.0));
    assert_eq!(s.get_boolean_series("d"), None);
}

#[test]
fn topics_info_uses_explicit_label_or_kind() {
    let mut s = LogStore::new();
    s.update_double("d".to_string(), 1, bits(1.0));
    s.update_string("s".to_string(), 1, "x".to_string());
    s.update_raw("r".to_string(), 1, vec![0]);
    s.set_type("s".to_string(), "struct:Pose2d".to_string());
    let info = s.get_topics_info();
    assert_eq!(info.len(), 3);
    assert!(info.contains(&("d".to_string(), "double".to_string())));
    assert!(info.contains(&("s".to_string(), "struct:Pose2d".to_string())));
    assert!(info.contains(&("r".to_string(), "raw".to_string())));
}

#[test]
fn start_and_last_timestamps() {
    let mut s = LogStore::new();
    assert_eq!(s.get_start_timestamp(), 0);
    assert_eq!(s.get_last_timestamp(), 0);
    s.update_double("a".to_string(), 50, bits(1.0));
    s.update_double("a".to_string(), 90, bits(2.0));
    s.update_boolean("b".to_string(), 20, true);
    s.update_boolean("b".to_string(), 70, false);
    assert_eq!(s.get_start_timestamp(), 20);
    assert_eq!(s.get_last_timestamp(), 90);
}

#[test]
fn get_value_dispatches_on_kind() {
    let mut s = LogStore::new();
    s.update_double("d".to_string(), 10, bits(2.5));
    s.update_boolean("b".to_string(), 10, true);
    s.update_string("t".to_string(), 10, "hey".to_string());
    s.update_raw("r".to_string(), 10, vec![7]);
    match s.get_value("d", 10) {
        Some(TopicValue::Double(x)) => assert_eq!(x, bits(2.5)),
        _ => panic!("expected a double"),
    }
    match s.get_value("b", 10) {
        Some(TopicValue::Boolean(x)) => assert!(x),
        _ => panic!("expected a boolean"),
    }
    match s.get_value("t", 10) {
        Some(TopicValue::Text(x)) => assert_eq!(x, "hey"),
        _ => panic!("expected a string"),
    }
    match s.get_value("r", 10) {
        Some(TopicValue::Raw(x)) => assert_eq!(x, vec![7]),
        _ => panic!("expected raw bytes"),
    }
    // Empty-at-query-time double topic yields its zero default, an
    // absent topic yields nothing, a raw topic before its first sample
    // yields nothing.
    match s.get_value("d", 5) {
        Some(TopicValue::Double(x)) => assert_eq!(x, bits(0.0)),
        _ => panic!("expected the zero default"),
    }
    assert!(s.get_value("missing", 10).is_none());
    assert!(s.get_value("r", 5).is_none());
}

#[test]
fn apply_update_routes_by_kind() {
    let mut s = LogStore::new();
    s.apply_update("d".to_string(), 1, TopicValue::Double(bits(4.0)));
    s.apply_update("ta".to_string(), 1, TopicValue::TextArray(vec!["a".to_string()]));
    assert_eq!(s.get_double("d", 1, bits(0.0)), bits(4.0));
    assert_eq!(s.get_string_array("ta", 1, vec![]), vec!["a".to_string()]);
}

#[test]
fn query_cursor_sentinel() {
    assert_eq!(effective_query_time(0), u64::MAX);
    assert_eq!(effective_query_time(123), 123);
}

#[test]
fn equal_timestamps_keep_the_later_sample() {
    // Two different values at the same timestamp: the series keeps
    // both, and a query at that time sees the later one.
    let mut s = LogStore::new();
    s.update_double("t".to_string(), 100, bits(1.0));
    s.update_double("t".to_string(), 100, bits(2.0));
    assert_eq!(s.get_double("t", 100, bits(0.0)), bits(2.0));
    assert_eq!(s.get_double("t", 101, bits(0.0)), bits(2.0));
}

#[test]
fn topics_written_after_clear_start_fresh() {
    let mut s = LogStore::new();
    s.update_double("t".to_string(), 100, bits(1.0));
    s.clear();
    s.update_boolean("t".to_string(), 5, true);
    // The topic's kind was re-fixed by the first write of the new
    // session.
    assert_eq!(s.get_boolean("t", 5, false), true);
    assert_eq!(s.get_double("t", 100, bits(9.0)), bits(9.0));
    assert_eq!(s.get_start_timestamp(), 5);
}
