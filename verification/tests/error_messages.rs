use mqtt_typed_client::subscription_table::SubscriptionId;
use mqtt_typed_client::topic_matcher::TopicMatcherError;
use mqtt_typed_client::topic_pattern_item::TopicPatternError;
use mqtt_typed_client::topic_pattern_path::TopicFormatError;
use mqtt_typed_client::topic_router::TopicRouterError;

#[test]
fn router_error_messages() {
    assert_eq!(
        TopicRouterError::subscription_not_found(SubscriptionId::from_value(5)).message(),
        "Subscription SubscriptionId(5) not found"
    );
    assert_eq!(
        TopicRouterError::invalid_routing_topic("a/#", "bad").message(),
        "Topic 'a/#' is invalid for routing: bad"
    );
    assert_eq!(
        TopicRouterError::internal_state_corrupted("x").message(),
        "Internal routing state corrupted: x"
    );
    assert_eq!(
        TopicRouterError::InvalidPattern(TopicPatternError::EmptyTopic).message(),
        "Invalid topic pattern: Topic pattern cannot be empty"
    );
    assert_eq!(
        TopicRouterError::MatchingFailed(TopicMatcherError::EmptyTopicPath).message(),
        "Topic matching failed: Topic path cannot be empty for matching"
    );
}

#[test]
fn matcher_error_messages() {
    assert_eq!(
        TopicMatcherError::invalid_segment("+", 0).message(),
        "Invalid topic segment '+' at position 0"
    );
    assert_eq!(
        TopicMatcherError::invalid_segment("x", 12).message(),
        "Invalid topic segment 'x' at position 12"
    );
    assert_eq!(
        TopicMatcherError::invalid_utf8("bytes").message(),
        "Topic path contains invalid UTF-8: bytes"
    );
}

#[test]
fn pattern_error_messages() {
    assert_eq!(
        TopicPatternError::hash_position("a/#/b").message(),
        "Invalid topic pattern 'a/#/b': # wildcard can only be the last segment"
    );
    assert_eq!(TopicPatternError::wildcard_usage("a+b").message(), "Invalid wildcard usage: a+b");
    assert!(TopicPatternError::pattern_mismatch("a/{x}", "b/+")
        .message()
        .starts_with("Topic pattern structure mismatch.\nOriginal: 'a/{x}'\nCustom:   'b/+'"));
    assert_eq!(
        TopicPatternError::pattern_mismatch("a/{x}", "b/+").message(),
        "Topic pattern structure mismatch.\nOriginal: 'a/{x}'\nCustom:   'b/+'\nHint: Both patterns must have the same parameter structure (same wildcards in same positions)"
    );
}

#[test]
fn format_error_messages() {
    assert_eq!(
        TopicFormatError::HashWildcardNotSupported.message(),
        "Cannot format topic with # wildcard for publishing"
    );
    assert_eq!(
        TopicFormatError::ParameterCountMismatch { expected: 2, provided: 10 }.message(),
        "Parameter count mismatch: expected 2, provided 10"
    );
    assert_eq!(TopicFormatError::FormatError.message(), "Error formatting topic");
}
