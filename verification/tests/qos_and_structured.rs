use mqtt_typed_client::cache_strategy::CacheStrategy;
use mqtt_typed_client::qos::QoS;
use mqtt_typed_client::structured::topic_parameter_text;
use mqtt_typed_client::topic_match::TopicPath;
use mqtt_typed_client::topic_pattern_path::TopicPatternPath;

#[test]
fn qos_levels_and_names() {
    assert_eq!(QoS::AtMostOnce.level(), 0);
    assert_eq!(QoS::ExactlyOnce.level(), 2);
    assert_eq!(QoS::from_level(1), Some(QoS::AtLeastOnce));
    assert_eq!(QoS::from_level(3), None);
    assert!(QoS::ExactlyOnce.is_higher_than(QoS::AtLeastOnce));
    assert!(!QoS::AtMostOnce.is_higher_than(QoS::AtMostOnce));
    assert_eq!(QoS::AtLeastOnce.to_display_string(), "QoS1");
}

#[test]
fn topic_parameters_are_found_by_position() {
    let mut p = TopicPatternPath::new_from_string("dev/{id}/+/x", CacheStrategy::NoCache).unwrap();
    let m = p.try_match(&TopicPath::new("dev/42/kitchen/x")).unwrap();
    assert_eq!(topic_parameter_text(&m, 0, "id").unwrap(), "42");
    assert_eq!(topic_parameter_text(&m, 1, "room").unwrap(), "kitchen");
    let missing = topic_parameter_text(&m, 2, "other").unwrap_err();
    assert_eq!(missing.param, "other");
    assert_eq!(missing.position, 2);
    assert_eq!(missing.message(), "Missing required parameter 'other' at position 2");
}
