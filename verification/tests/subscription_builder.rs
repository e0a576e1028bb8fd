use mqtt_typed_client::cache_strategy::CacheStrategy;
use mqtt_typed_client::subscription_builder::{add_parameter_filter, apply_parameter_filters};
use mqtt_typed_client::topic_pattern_item::TopicPatternError;
use mqtt_typed_client::topic_pattern_path::TopicPatternPath;

#[test]
fn a_repeated_filter_replaces_the_value() {
    let mut filters: Vec<(String, String)> = Vec::new();
    add_parameter_filter(&mut filters, "room", "kitchen");
    add_parameter_filter(&mut filters, "id", "7");
    add_parameter_filter(&mut filters, "room", "hall");
    assert_eq!(
        filters,
        vec![("room".to_string(), "hall".to_string()), ("id".to_string(), "7".to_string())]
    );
}

#[test]
fn filters_are_bound_into_the_broker_pattern() {
    let p = TopicPatternPath::new_from_string("home/{room}/sensors/{id}", CacheStrategy::NoCache).unwrap();
    let mut filters: Vec<(String, String)> = Vec::new();
    add_parameter_filter(&mut filters, "id", "42");
    let bound = apply_parameter_filters(p, &filters).unwrap();
    assert_eq!(bound.mqtt_pattern(), "home/+/sensors/42");
}

#[test]
fn an_unknown_filter_is_refused() {
    let p = TopicPatternPath::new_from_string("home/{room}", CacheStrategy::NoCache).unwrap();
    let filters = vec![("floor".to_string(), "1".to_string())];
    assert_eq!(
        apply_parameter_filters(p, &filters).unwrap_err(),
        TopicPatternError::WildcardUsage {
            usage: "Parameter 'floor' not found in pattern 'home/{room}'".to_string()
        }
    );
}
