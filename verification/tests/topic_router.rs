use mqtt_typed_client::cache_strategy::CacheStrategy;
use mqtt_typed_client::qos::QoS;
use mqtt_typed_client::subscription_table::SubscriptionId;
use mqtt_typed_client::topic_match::TopicPath;
use mqtt_typed_client::subscription_table::SubscriptionTable;
use mqtt_typed_client::topic_matcher::{TopicMatcherError, TopicMatcherNode, table_without};
use mqtt_typed_client::topic_pattern_item::{TopicPatternError, TopicPatternItem};
use mqtt_typed_client::topic_pattern_path::TopicPatternPath;
use mqtt_typed_client::topic_router::{TopicRouter, TopicRouterError};

fn pat(p: &str) -> TopicPatternPath {
    TopicPatternPath::new_from_string(p, CacheStrategy::NoCache).unwrap()
}

fn routed_values(router: &TopicRouter<&'static str>, topic: &str) -> Vec<&'static str> {
    let mut v: Vec<&'static str> = router
        .get_subscribers(&TopicPath::new(topic))
        .into_iter()
        .map(|(_, _, value)| *value)
        .collect();
    v.sort();
    v
}

#[test]
fn messages_reach_exactly_the_matching_subscriptions() {
    let mut router: TopicRouter<&'static str> = TopicRouter::new();
    router.add_subscription(pat("sensors/+/temp"), QoS::AtLeastOnce, "plus");
    router.add_subscription(pat("sensors/#"), QoS::AtMostOnce, "hash");
    router.add_subscription(pat("sensors/kitchen/temp"), QoS::AtMostOnce, "exact");
    router.add_subscription(pat("other/+"), QoS::AtMostOnce, "other");

    assert_eq!(routed_values(&router, "sensors/kitchen/temp"), vec!["exact", "hash", "plus"]);
    assert_eq!(routed_values(&router, "sensors/hall/temp"), vec!["hash", "plus"]);
    assert_eq!(routed_values(&router, "sensors"), vec!["hash"]);
    assert_eq!(routed_values(&router, "other/x"), vec!["other"]);
    assert!(routed_values(&router, "other/x/y").is_empty());
}

#[test]
fn named_and_anonymous_wildcards_share_a_route() {
    let mut router: TopicRouter<&'static str> = TopicRouter::new();
    let (first, _) = router.add_subscription(pat("dev/{id}/status"), QoS::AtLeastOnce, "named");
    let (second, _) = router.add_subscription(pat("dev/+/status"), QoS::AtLeastOnce, "anon");
    assert!(first);
    assert!(!second);
    assert_eq!(routed_values(&router, "dev/7/status"), vec!["anon", "named"]);
}

#[test]
fn a_higher_qos_must_be_sent_to_the_broker_again() {
    let mut router: TopicRouter<u32> = TopicRouter::new();
    let (a, id_a) = router.add_subscription(pat("t/+"), QoS::AtMostOnce, 1);
    let (b, id_b) = router.add_subscription(pat("t/+"), QoS::AtMostOnce, 2);
    let (c, _) = router.add_subscription(pat("t/+"), QoS::ExactlyOnce, 3);
    let (d, _) = router.add_subscription(pat("t/+"), QoS::AtLeastOnce, 4);
    assert!(a);
    assert!(!b);
    assert!(c);
    assert!(!d);
    assert_eq!(id_a.value(), 0);
    assert_eq!(id_b.value(), 1);
}

#[test]
fn unsubscribe_reports_when_nothing_is_left() {
    let mut router: TopicRouter<u32> = TopicRouter::new();
    let (_, a) = router.add_subscription(pat("a"), QoS::AtMostOnce, 1);
    let (_, b) = router.add_subscription(pat("b"), QoS::AtMostOnce, 2);
    let (empty_a, pattern_a) = router.unsubscribe(&a).unwrap();
    assert!(!empty_a);
    assert_eq!(pattern_a.to_string(), "a");
    assert!(router.get_subscribers(&TopicPath::new("a")).is_empty());
    assert_eq!(router.get_subscribers(&TopicPath::new("b")).len(), 1);
    let (empty_b, _) = router.unsubscribe(&b).unwrap();
    assert!(empty_b);
    assert_eq!(
        router.unsubscribe(&a).unwrap_err(),
        TopicRouterError::SubscriptionNotFound { id: a }
    );
}

#[test]
fn subscribe_reports_a_fresh_pattern_shape() {
    let mut router: TopicRouter<u32> = TopicRouter::new();
    let (fresh, id) = router.subscribe(pat("x/+"), 1);
    assert!(fresh);
    let (again, _) = router.subscribe(pat("x/{name}"), 2);
    assert!(!again);
    let (sub_pattern, qos) = router.get_topic_by_id(&id).unwrap();
    assert_eq!(sub_pattern.to_string(), "x/+");
    assert_eq!(*qos, QoS::AtLeastOnce);
}

#[test]
fn topics_for_resubscribe_have_the_highest_qos() {
    let mut router: TopicRouter<u32> = TopicRouter::new();
    router.add_subscription(pat("a/{x}"), QoS::AtMostOnce, 1);
    router.add_subscription(pat("a/+"), QoS::ExactlyOnce, 2);
    router.add_subscription(pat("b"), QoS::AtLeastOnce, 3);
    let mut topics = router.get_topics_for_resubscribe();
    topics.sort();
    assert_eq!(
        topics,
        vec![("a/+".to_string(), QoS::ExactlyOnce), ("b".to_string(), QoS::AtLeastOnce)]
    );
    let mut unsub = router.get_topics_for_unsubscribe();
    unsub.sort();
    assert_eq!(unsub, vec!["a/+".to_string(), "b".to_string()]);
    assert_eq!(router.get_active_subscriptions().len(), 3);
}

#[test]
fn cleanup_forgets_everything() {
    let mut router: TopicRouter<u32> = TopicRouter::new();
    let (_, id) = router.add_subscription(pat("a"), QoS::AtMostOnce, 1);
    router.cleanup();
    assert!(router.get_subscribers(&TopicPath::new("a")).is_empty());
    assert!(router.get_topic_by_id(&id).is_err());
    let (_, again) = router.add_subscription(pat("a"), QoS::AtMostOnce, 1);
    assert_eq!(again.value(), 0);
}

#[test]
fn router_error_categories() {
    let not_found = TopicRouterError::subscription_not_found(SubscriptionId::from_value(3));
    assert!(not_found.is_client_error());
    assert!(!not_found.is_retryable());
    assert_eq!(not_found.error_type(), "subscription_not_found");

    let corrupted = TopicRouterError::internal_state_corrupted("bad");
    assert!(!corrupted.is_client_error());
    assert_eq!(corrupted.error_type(), "internal_state_corrupted");

    let retry = TopicRouterError::MatchingFailed(TopicMatcherError::invalid_segment("s", 0));
    assert!(retry.is_retryable());
    assert_eq!(retry.error_type(), "matching_failed");

    let no_retry = TopicRouterError::MatchingFailed(TopicMatcherError::invalid_utf8("x"));
    assert!(!no_retry.is_retryable());

    let pattern = TopicRouterError::InvalidPattern(TopicPatternError::EmptyTopic);
    assert_eq!(pattern.error_type(), "invalid_pattern");
    assert_eq!(
        TopicRouterError::invalid_routing_topic("t", "why"),
        TopicRouterError::InvalidRoutingTopic { topic: "t".to_string(), reason: "why".to_string() }
    );
}

#[test]
fn subscription_ids_display() {
    assert_eq!(SubscriptionId::from_value(42).to_display_string(), "SubscriptionId(42)");
}

#[test]
fn the_matcher_lists_every_stored_pattern() {
    let mut node: TopicMatcherNode<u8> = TopicMatcherNode::new();
    node.subscribe_to_pattern(&pat("a/{x}/b"), SubscriptionId::from_value(1), 10);
    node.subscribe_to_pattern(&pat("a/#"), SubscriptionId::from_value(2), 20);
    node.subscribe_to_pattern(&pat("c"), SubscriptionId::from_value(3), 30);
    let mut listed: Vec<String> = node
        .active_subscriptions()
        .into_iter()
        .map(|(p, _)| p.to_string())
        .collect();
    listed.sort();
    assert_eq!(listed, vec!["a/#".to_string(), "a/+/b".to_string(), "c".to_string()]);
    let found = node.find_by_path(&TopicPath::new("a/q/b"));
    assert_eq!(found.len(), 2);
    assert_eq!(
        node.update_node(pat("c").slice(), |t| table_without(t, SubscriptionId::from_value(3))),
        Ok(false)
    );
    assert!(node
        .update_node(pat("c").slice(), |t| table_without(t, SubscriptionId::from_value(3)))
        .is_err());
}

#[test]
fn an_update_stops_at_the_first_hash() {
    let mut node: TopicMatcherNode<u8> = TopicMatcherNode::new();
    node.subscribe_to_pattern(&pat("a/#"), SubscriptionId::from_value(2), 20);
    let path = vec![
        TopicPatternItem::Str("a".to_string()),
        TopicPatternItem::Hash(None),
        TopicPatternItem::Str("b".to_string()),
    ];
    assert_eq!(node.update_node(&path, |t| table_without(t, SubscriptionId::from_value(2))), Ok(true));
    assert!(node.is_empty());
    assert_eq!(
        node.update_node(&path, |t| table_without(t, SubscriptionId::from_value(2))),
        Err(TopicMatcherError::invalid_segment("a", 0))
    );
}

#[test]
fn an_update_stores_what_the_closure_gives_back() {
    let mut node: TopicMatcherNode<u8> = TopicMatcherNode::new();
    node.subscribe_to_pattern(&pat("x/+"), SubscriptionId::from_value(1), 10);
    node.subscribe_to_pattern(&pat("y"), SubscriptionId::from_value(2), 20);
    // Giving the table back unchanged keeps it.
    assert_eq!(node.update_node(pat("x/+").slice(), |t| t), Ok(false));
    assert_eq!(node.find_by_path(&TopicPath::new("x/1")).len(), 1);
    // Giving back an empty table drops it and the nodes left empty.
    assert_eq!(node.update_node(pat("x/{n}").slice(), |_t| SubscriptionTable::new()), Ok(false));
    assert_eq!(node.find_by_path(&TopicPath::new("x/1")).len(), 0);
    assert_eq!(node.find_by_path(&TopicPath::new("y")).len(), 1);
    assert_eq!(node.update_node(pat("y").slice(), |_t| SubscriptionTable::new()), Ok(true));
    assert!(node.is_empty());
}
