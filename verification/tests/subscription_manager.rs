use mqtt_typed_client::cache_strategy::CacheStrategy;
use mqtt_typed_client::qos::QoS;
use mqtt_typed_client::subscription_manager::{
    decide_try_send, plan_deliveries, register_subscriber, slow_send_unsubscribes,
    unsubscribe_topic, SendDecision, SlowSendOutcome, SubscriptionConfig, TrySendOutcome,
};
use mqtt_typed_client::topic_match::TopicPath;
use mqtt_typed_client::topic_pattern_path::TopicPatternPath;
use mqtt_typed_client::topic_router::TopicRouter;

fn pat(p: &str) -> TopicPatternPath {
    TopicPatternPath::new_from_string(p, CacheStrategy::NoCache).unwrap()
}

#[test]
fn full_channels_get_a_slow_send_until_the_queue_is_full() {
    assert_eq!(decide_try_send(TrySendOutcome::Sent, 0), SendDecision::Delivered);
    assert_eq!(decide_try_send(TrySendOutcome::Closed, 0), SendDecision::Unsubscribe);
    assert_eq!(decide_try_send(TrySendOutcome::Full, 99), SendDecision::SlowSend);
    assert_eq!(decide_try_send(TrySendOutcome::Full, 100), SendDecision::DropMessage);
}

#[test]
fn only_a_closed_slow_send_unsubscribes() {
    assert!(slow_send_unsubscribes(SlowSendOutcome::Closed));
    assert!(!slow_send_unsubscribes(SlowSendOutcome::Sent));
    assert!(!slow_send_unsubscribes(SlowSendOutcome::TimedOut));
    assert!(!slow_send_unsubscribes(SlowSendOutcome::TaskFailed));
}

#[test]
fn default_subscription_config_is_at_least_once() {
    assert_eq!(SubscriptionConfig::default().qos, QoS::AtLeastOnce);
}

#[test]
fn deliveries_carry_the_match_of_each_pattern() {
    let mut router: TopicRouter<u8> = TopicRouter::new();
    let (need, id, broker) = register_subscriber(
        &mut router,
        pat("rooms/{room}/temp"),
        SubscriptionConfig::default(),
        7,
    );
    assert!(need);
    assert_eq!(broker, "rooms/+/temp");
    let (need2, _, _) = register_subscriber(
        &mut router,
        pat("rooms/#"),
        SubscriptionConfig { qos: QoS::AtMostOnce },
        9,
    );
    assert!(need2);
    let deliveries = plan_deliveries(&router, &TopicPath::new("rooms/kitchen/temp"));
    assert_eq!(deliveries.len(), 2);
    let mine = deliveries.iter().find(|d| d.0 == id).unwrap();
    assert_eq!(*mine.2, 7);
    assert_eq!(mine.1.get_named_param("room"), Some("kitchen".to_string()));
}

#[test]
fn the_broker_topic_is_released_with_the_last_subscription() {
    let mut router: TopicRouter<u8> = TopicRouter::new();
    let (_, a, _) = register_subscriber(&mut router, pat("a/+"), SubscriptionConfig::default(), 1);
    let (_, b, _) = register_subscriber(&mut router, pat("b/{x}"), SubscriptionConfig::default(), 2);
    assert_eq!(unsubscribe_topic(&mut router, a), None);
    assert_eq!(unsubscribe_topic(&mut router, a), None);
    assert_eq!(unsubscribe_topic(&mut router, b), Some("b/{x}".to_string()));
}
