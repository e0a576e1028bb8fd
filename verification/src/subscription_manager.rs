//! The decisions of the subscription manager: which subscribers a message
//! goes to and with which match, what to do when a subscriber's channel is
//! full or closed, and which broker topics to subscribe and unsubscribe. The
//! channels, the broker calls and the task that runs the manager are the
//! caller's; it performs what these functions decide.
use vstd::prelude::*;

use crate::qos::QoS;
use crate::subscription_table::SubscriptionId;
use crate::topic_match::{LevelRange, MatchErrorView, TopicMatch, TopicPath};
use crate::topic_pattern_path::{
    TopicPatternPath, law_match_is_mqtt_matching, match_from, topic_matches,
};
use crate::topic_router::TopicRouter;

verus! {

/// The number of slow sends that may be in flight at once; beyond it a
/// message for a full subscriber is dropped.
pub const MAX_SLOW_SENDS: usize = 100;

/// The capacity of each subscriber's channel.
pub const SUBSCRIBER_CHANNEL_CAPACITY: usize = 500;

/// How long a slow send waits for room in a full channel, in milliseconds.
pub const SLOW_SEND_TIMEOUT_MILLIS: u64 = 2000;

/// How long the shutdown waits for the remaining slow sends, in milliseconds.
pub const CLEANUP_TIMEOUT_MILLIS: u64 = 500;

/// Errors when sending messages through channels
#[derive(Debug, Clone, Copy, PartialEq, Eq, Structural)]
pub enum SendError {
    /// Channel has been closed
    ChannelClosed,
}

/// Errors during subscription operations
#[derive(Debug, Clone, Copy, PartialEq, Eq, Structural)]
pub enum SubscriptionError {
    /// Communication channel closed
    ChannelClosed,
    /// Response from subscription manager was lost
    ResponseLost,
    /// Failed to subscribe to MQTT broker
    SubscribeFailed,
}

/// The settings of one subscription.
#[derive(Debug, Clone, Copy, PartialEq, Eq, Structural)]
pub struct SubscriptionConfig {
    /// The QoS asked of the broker.
    pub qos: QoS,
}

impl Default for SubscriptionConfig {
    fn default() -> (r: Self)
        ensures
            r.qos == QoS::AtLeastOnce,
    {
        SubscriptionConfig { qos: QoS::AtLeastOnce }
    }
}

/// What a non-blocking send to a subscriber's channel reported.
#[derive(Debug, Clone, Copy, PartialEq, Eq, Structural)]
pub enum TrySendOutcome {
    /// The message is in the channel.
    Sent,
    /// The subscriber is gone.
    Closed,
    /// The channel is full.
    Full,
}

/// What to do about one subscriber after a non-blocking send.
#[derive(Debug, Clone, Copy, PartialEq, Eq, Structural)]
pub enum SendDecision {
    /// Nothing more to do.
    Delivered,
    /// The subscriber is gone: remove its subscription.
    Unsubscribe,
    /// Too many slow sends are in flight: the message is dropped.
    DropMessage,
    /// Start a slow send that waits for room in the channel.
    SlowSend,
}

/// Decides what to do after a non-blocking send, with `slow_sends_in_flight`
/// slow sends running.
pub fn decide_try_send(outcome: TrySendOutcome, slow_sends_in_flight: usize) -> (r: SendDecision)
    ensures
        r == match outcome {
            TrySendOutcome::Sent => SendDecision::Delivered,
            TrySendOutcome::Closed => SendDecision::Unsubscribe,
            TrySendOutcome::Full => if slow_sends_in_flight >= MAX_SLOW_SENDS {
                SendDecision::DropMessage
            } else {
                SendDecision::SlowSend
            },
        },
{
    match outcome {
        TrySendOutcome::Sent => SendDecision::Delivered,
        TrySendOutcome::Closed => SendDecision::Unsubscribe,
        TrySendOutcome::Full => {
            if slow_sends_in_flight >= MAX_SLOW_SENDS {
                SendDecision::DropMessage
            } else {
                SendDecision::SlowSend
            }
        },
    }
}

/// How a slow send ended.
#[derive(Debug, Clone, Copy, PartialEq, Eq, Structural)]
pub enum SlowSendOutcome {
    /// The message was delivered.
    Sent,
    /// The subscriber is gone.
    Closed,
    /// The channel stayed full: the message was dropped.
    TimedOut,
    /// The task running the send failed.
    TaskFailed,
}

/// Whether the subscription must be removed after a slow send: only when
/// its subscriber is gone.
pub fn slow_send_unsubscribes(outcome: SlowSendOutcome) -> (r: bool)
    ensures
        r == (outcome == SlowSendOutcome::Closed),
{
    match outcome {
        SlowSendOutcome::Closed => true,
        _ => false,
    }
}

/// One delivery: the subscription, how its pattern matched the topic, and
/// the subscriber's value.
pub type Delivery<'a, T> = (SubscriptionId, TopicMatch, &'a T);

/// The deliveries of a message on `topic`: every subscription whose pattern
/// matches the topic, once, with the match of its pattern and its value.
pub fn plan_deliveries<'a, T>(router: &'a TopicRouter<T>, topic: &TopicPath) -> (r: Vec<Delivery<'a, T>>)
    requires
        router.inv(),
    ensures
        forall|j: int|
            0 <= j < r@.len() ==> {
                &&& (#[trigger] r@[j]).1.spec_levels() == topic.levels()
                &&& router.sub_of(r@[j].0) matches Some(sub) && {
                    &&& topic_matches(sub.0.spec_items(), topic.levels())
                    &&& match_from(sub.0.spec_items(), topic.levels(), 0) == Ok::<
                        (Seq<LevelRange>, Seq<(Seq<char>, LevelRange)>),
                        MatchErrorView,
                    >((r@[j].1.spec_params(), r@[j].1.spec_named()))
                }
                &&& router.value_of(r@[j].0) == Some(*r@[j].2)
            },
        forall|i: int|
            0 <= i < router.spec_subs().len() && topic_matches(
                (#[trigger] router.spec_subs()[i]).1.0.spec_items(),
                topic.levels(),
            ) ==> exists|j: int| 0 <= j < r@.len() && (#[trigger] r@[j]).0 == router.spec_subs()[i].0,
        forall|a: int, b: int| 0 <= a < b < r@.len() ==> (#[trigger] r@[a]).0 != (#[trigger] r@[b]).0,
{
    let subscribers = router.get_subscribers(topic);
    let mut r: Vec<Delivery<'a, T>> = Vec::new();
    let mut k: usize = 0;
    while k < subscribers.len()
        invariant
            0 <= k <= subscribers@.len(),
            r@.len() == k,
            forall|j: int| 0 <= j < k ==> (#[trigger] r@[j]).0 == *subscribers@[j].0 && r@[j].2 == subscribers@[j].2,
            forall|j: int|
                0 <= j < k ==> {
                    &&& (#[trigger] r@[j]).1.spec_levels() == topic.levels()
                    &&& match_from(subscribers@[j].1.0.spec_items(), topic.levels(), 0) == Ok::<
                        (Seq<LevelRange>, Seq<(Seq<char>, LevelRange)>),
                        MatchErrorView,
                    >((r@[j].1.spec_params(), r@[j].1.spec_named()))
                },
            forall|j: int|
                0 <= j < subscribers@.len() ==> router.routes_to(
                    topic.levels(),
                    *(#[trigger] subscribers@[j]).0,
                    *subscribers@[j].1,
                    *subscribers@[j].2,
                ),
        decreases subscribers@.len() - k,
    {
        let (id, sub, value) = subscribers[k];
        let pattern: &TopicPatternPath = &sub.0;
        proof {
            assert(router.routes_to(topic.levels(), *subscribers@[k as int].0, *subscribers@[k as int].1, *subscribers@[k as int].2));
            use_type_invariant(pattern);
            pattern.lemma_hash_only_last();
            law_match_is_mqtt_matching(pattern.spec_items(), topic.levels());
        }
        match pattern.try_match_internal(topic) {
            Ok(m) => {
                r.push((*id, m, value));
            },
            Err(_) => {
                proof {
                    assert(false);
                }
            },
        }
        k = k + 1;
    }
    proof {
        assert forall|i: int|
            0 <= i < router.spec_subs().len() && topic_matches(
                (#[trigger] router.spec_subs()[i]).1.0.spec_items(),
                topic.levels(),
            ) implies exists|j: int| 0 <= j < r@.len() && (#[trigger] r@[j]).0 == router.spec_subs()[i].0 by {
            let j = choose|j: int| 0 <= j < subscribers@.len() && *(#[trigger] subscribers@[j]).0 == router.spec_subs()[i].0;
            assert(r@[j].0 == *subscribers@[j].0);
        }
        assert forall|a: int, b: int| 0 <= a < b < r@.len() implies (#[trigger] r@[a]).0 != (#[trigger] r@[b]).0 by {
            assert(r@[a].0 == *subscribers@[a].0);
            assert(r@[b].0 == *subscribers@[b].0);
        }
    }
    r
}

/// Registers a new subscriber: returns whether the broker must be asked for
/// the pattern (no subscription of its shape had this QoS or higher), the
/// new identifier, and the broker pattern.
pub fn register_subscriber<T>(
    router: &mut TopicRouter<T>,
    topic: TopicPatternPath,
    config: SubscriptionConfig,
    value: T,
) -> (r: (bool, SubscriptionId, String))
    requires
        old(router).inv(),
        old(router).spec_next_id() < usize::MAX,
    ensures
        final(router).inv(),
        r.0 == old(router).raises_qos(topic.spec_items(), config.qos),
        r.1.spec_value() == old(router).spec_next_id(),
        r.2@ == topic.spec_mqtt(),
        final(router).spec_subs() == old(router).spec_subs().push((r.1, (topic, config.qos))),
        final(router).value_of(r.1) == Some(value),
        forall|id: SubscriptionId|
            old(router).has_sub(id) ==> #[trigger] final(router).value_of(id) == old(router).value_of(id),
{
    let pattern = topic.mqtt_pattern();
    let (needs_subscribe, id) = router.add_subscription(topic, config.qos, value);
    (needs_subscribe, id, pattern)
}

/// Removes a subscription; returns the broker topic to unsubscribe from
/// when no subscription is left (the pattern text of the removed one).
pub fn unsubscribe_topic<T>(router: &mut TopicRouter<T>, id: SubscriptionId) -> (r: Option<String>)
    requires
        old(router).inv(),
    ensures
        final(router).inv(),
        !final(router).has_sub(id),
        old(router).has_sub(id) ==> final(router).spec_subs() == old(router).spec_subs().remove(
            old(router).sub_index(id),
        ),
        !old(router).has_sub(id) ==> final(router).spec_subs() == old(router).spec_subs(),
        match r {
            Some(t) => old(router).has_sub(id) && final(router).spec_subs().len() == 0 && t@ == old(
                router,
            ).sub_of(id)->Some_0.0.spec_template(),
            None => !old(router).has_sub(id) || final(router).spec_subs().len() > 0,
        },
        forall|x: SubscriptionId| x != id ==> #[trigger] final(router).value_of(x) == old(router).value_of(x),
{
    let ghost before = *router;
    match router.unsubscribe(&id) {
        Ok((now_empty, pattern)) => {
            if now_empty {
                Some(pattern.to_string())
            } else {
                None
            }
        },
        Err(_) => {
            proof {
                assert(router.spec_subs() == before.spec_subs());
            }
            None
        },
    }
}

} // verus!
