use mqtt_typed_client::topic_error::{validate_mqtt_topic, TopicError};
use mqtt_typed_client::topic_router::TopicRouterError;

#[test]
fn plain_topics_are_valid() {
    assert!(validate_mqtt_topic("sensors/kitchen/temp").is_ok());
    assert!(validate_mqtt_topic("/").is_ok());
}

#[test]
fn empty_and_oversized_topics_are_refused() {
    assert_eq!(
        validate_mqtt_topic("").unwrap_err(),
        TopicError::Router(TopicRouterError::InvalidRoutingTopic {
            topic: "".to_string(),
            reason: "Topic is empty or too long".to_string()
        })
    );
    let long = "a".repeat(65536);
    assert!(validate_mqtt_topic(&long).is_err());
    let edge = "a".repeat(65535);
    assert!(validate_mqtt_topic(&edge).is_ok());
}

#[test]
fn wildcards_and_null_are_refused() {
    for t in ["a/+", "a/#", "a\0b"] {
        assert_eq!(
            validate_mqtt_topic(t).unwrap_err(),
            TopicError::Router(TopicRouterError::InvalidRoutingTopic {
                topic: t.to_string(),
                reason: "Topic contains illegal characters ('#', '+', or null byte)".to_string()
            })
        );
    }
}
