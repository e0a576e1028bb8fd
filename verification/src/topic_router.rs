//! Routing of messages to subscriptions: every subscription is registered
//! under its topic pattern in the matching tree and found again for the
//! topics that its pattern matches.
use vstd::prelude::*;

use crate::qos::{QoS, qos_level};
use crate::subscription_table::{SubscriptionId, SubscriptionTable, lemma_value_of};
use crate::text::{append_str, same_text};
use crate::topic_match::{TopicPath, decimal};
use crate::topic_matcher::{
    MatcherErrorView, TopicMatcherError, TopicMatcherNode, erase, inserted_entries, is_erased,
    lemma_erase_facts, lemma_removed_entries, lemma_upto_whole, matcher_error_text, removed_entries,
    table_without, updated_slot,
};
use crate::topic_pattern_item::{ItemView, PatternErrorView, TopicPatternError, pattern_error_text};
use crate::topic_pattern_path::{TopicPatternPath, hash_only_last, topic_matches};

verus! {

/// Abstract value of a [`TopicRouterError`].
pub enum RouterErrorView {
    InvalidPattern(PatternErrorView),
    MatchingFailed(MatcherErrorView),
    SubscriptionNotFound(SubscriptionId),
    InvalidRoutingTopic(Seq<char>, Seq<char>),
    InternalStateCorrupted(Seq<char>),
}

/// Errors that can occur during topic routing operations
#[derive(Debug, Clone, PartialEq, Eq)]
pub enum TopicRouterError {
    /// Topic pattern validation failed
    InvalidPattern(TopicPatternError),
    /// Topic matching operation failed
    MatchingFailed(TopicMatcherError),
    /// Subscription with given ID was not found
    SubscriptionNotFound { id: SubscriptionId },
    /// Topic is invalid for routing operations
    InvalidRoutingTopic { topic: String, reason: String },
    /// Internal state corruption detected
    InternalStateCorrupted { details: String },
}

impl View for TopicRouterError {
    type V = RouterErrorView;

    open spec fn view(&self) -> RouterErrorView {
        match self {
            TopicRouterError::InvalidPattern(e) => RouterErrorView::InvalidPattern(e@),
            TopicRouterError::MatchingFailed(e) => RouterErrorView::MatchingFailed(e@),
            TopicRouterError::SubscriptionNotFound { id } => RouterErrorView::SubscriptionNotFound(
                *id,
            ),
            TopicRouterError::InvalidRoutingTopic { topic, reason } =>
                RouterErrorView::InvalidRoutingTopic(topic@, reason@),
            TopicRouterError::InternalStateCorrupted { details } =>
                RouterErrorView::InternalStateCorrupted(details@),
        }
    }
}

/// The message shown for a routing error.
pub open spec fn router_error_text(e: RouterErrorView) -> Seq<char> {
    match e {
        RouterErrorView::InvalidPattern(p) => "Invalid topic pattern: "@ + pattern_error_text(p),
        RouterErrorView::MatchingFailed(m) => "Topic matching failed: "@ + matcher_error_text(m),
        RouterErrorView::SubscriptionNotFound(id) => "Subscription "@ + ("SubscriptionId("@ + decimal(
            id.spec_value() as nat,
        ) + ")"@) + " not found"@,
        RouterErrorView::InvalidRoutingTopic(t, reason) => "Topic '"@ + t
            + "' is invalid for routing: "@ + reason,
        RouterErrorView::InternalStateCorrupted(d) => "Internal routing state corrupted: "@ + d,
    }
}

impl TopicRouterError {
    /// The message shown for the error.
    pub fn message(&self) -> (r: String)
        ensures
            r@ == router_error_text(self@),
    {
        let mut r = String::new();
        match self {
            TopicRouterError::InvalidPattern(e) => {
                append_str(&mut r, "Invalid topic pattern: ");
                let inner = e.message();
                append_str(&mut r, inner.as_str());
            },
            TopicRouterError::MatchingFailed(e) => {
                append_str(&mut r, "Topic matching failed: ");
                let inner = e.message();
                append_str(&mut r, inner.as_str());
            },
            TopicRouterError::SubscriptionNotFound { id } => {
                append_str(&mut r, "Subscription ");
                let shown = id.to_display_string();
                append_str(&mut r, shown.as_str());
                append_str(&mut r, " not found");
            },
            TopicRouterError::InvalidRoutingTopic { topic, reason } => {
                append_str(&mut r, "Topic '");
                append_str(&mut r, topic.as_str());
                append_str(&mut r, "' is invalid for routing: ");
                append_str(&mut r, reason.as_str());
            },
            TopicRouterError::InternalStateCorrupted { details } => {
                append_str(&mut r, "Internal routing state corrupted: ");
                append_str(&mut r, details.as_str());
            },
        }
        proof {
            assert(r@ =~= router_error_text(self@));
        }
        r
    }

    /// Creates a new SubscriptionNotFound error
    pub fn subscription_not_found(id: SubscriptionId) -> (r: Self)
        ensures
            r@ == RouterErrorView::SubscriptionNotFound(id),
    {
        TopicRouterError::SubscriptionNotFound { id }
    }

    /// Creates a new InvalidRoutingTopic error
    pub fn invalid_routing_topic(topic: &str, reason: &str) -> (r: Self)
        ensures
            r@ == RouterErrorView::InvalidRoutingTopic(topic@, reason@),
    {
        TopicRouterError::InvalidRoutingTopic { topic: topic.to_owned(), reason: reason.to_owned() }
    }

    /// Creates a new InternalStateCorrupted error
    pub fn internal_state_corrupted(details: &str) -> (r: Self)
        ensures
            r@ == RouterErrorView::InternalStateCorrupted(details@),
    {
        TopicRouterError::InternalStateCorrupted { details: details.to_owned() }
    }

    /// Returns true if this error indicates a client-side problem: all but
    /// internal state corruption.
    pub fn is_client_error(&self) -> (r: bool)
        ensures
            r == !(self@ is InternalStateCorrupted),
    {
        match self {
            TopicRouterError::InvalidPattern(_) => true,
            TopicRouterError::MatchingFailed(_) => true,
            TopicRouterError::SubscriptionNotFound { .. } => true,
            TopicRouterError::InvalidRoutingTopic { .. } => true,
            TopicRouterError::InternalStateCorrupted { .. } => false,
        }
    }

    /// Returns true if this error is recoverable through retry: only a
    /// matching failure that is itself recoverable.
    pub fn is_retryable(&self) -> (r: bool)
        ensures
            r == (self@ matches RouterErrorView::MatchingFailed(m) && m is InvalidSegment),
    {
        match self {
            TopicRouterError::InvalidPattern(_) => false,
            TopicRouterError::MatchingFailed(matcher_err) => matcher_err.is_recoverable(),
            TopicRouterError::SubscriptionNotFound { .. } => false,
            TopicRouterError::InvalidRoutingTopic { .. } => false,
            TopicRouterError::InternalStateCorrupted { .. } => false,
        }
    }

    /// Returns the error type for categorization
    pub fn error_type(&self) -> (r: &'static str)
        ensures
            r@ == (match self@ {
                RouterErrorView::InvalidPattern(_) => "invalid_pattern"@,
                RouterErrorView::MatchingFailed(_) => "matching_failed"@,
                RouterErrorView::SubscriptionNotFound(_) => "subscription_not_found"@,
                RouterErrorView::InvalidRoutingTopic(_, _) => "invalid_routing_topic"@,
                RouterErrorView::InternalStateCorrupted(_) => "internal_state_corrupted"@,
            }),
    {
        match self {
            TopicRouterError::InvalidPattern(_) => "invalid_pattern",
            TopicRouterError::MatchingFailed(_) => "matching_failed",
            TopicRouterError::SubscriptionNotFound { .. } => "subscription_not_found",
            TopicRouterError::InvalidRoutingTopic { .. } => "invalid_routing_topic",
            TopicRouterError::InternalStateCorrupted { .. } => "internal_state_corrupted",
        }
    }
}

/// A subscription: its topic pattern and the QoS it asked for.
pub type Subscription = (TopicPatternPath, QoS);

/// Whether a pattern matches the levels does not depend on wildcard names.
pub proof fn lemma_topic_matches_erase(items: Seq<ItemView>, levels: Seq<Seq<char>>)
    ensures
        topic_matches(erase(items), levels) == topic_matches(items, levels),
    decreases items.len(),
{
    if items.len() > 0 {
        assert(erase(items).drop_first() =~= erase(items.drop_first()));
        if levels.len() > 0 {
            lemma_topic_matches_erase(items.drop_first(), levels.drop_first());
        }
    }
}

/// Routes topics to the subscriptions whose patterns match them.
pub struct TopicRouter<T> {
    topic_matcher: TopicMatcherNode<T>,
    subscriptions: SubscriptionTable<Subscription>,
    next_id: usize,
}

impl<T> TopicRouter<T> {
    /// The subscriptions, in the order they were added.
    pub closed spec fn spec_subs(&self) -> Seq<(SubscriptionId, Subscription)> {
        self.subscriptions.spec_entries()
    }

    /// The number the next subscription identifier gets.
    pub closed spec fn spec_next_id(&self) -> usize {
        self.next_id
    }

    /// There is a subscription with identifier `id`.
    pub open spec fn has_sub(&self, id: SubscriptionId) -> bool {
        exists|i: int| 0 <= i < self.spec_subs().len() && (#[trigger] self.spec_subs()[i]).0 == id
    }

    /// The position of subscription `id`.
    pub open spec fn sub_index(&self, id: SubscriptionId) -> int {
        choose|i: int| 0 <= i < self.spec_subs().len() && (#[trigger] self.spec_subs()[i]).0 == id
    }

    /// The subscription with identifier `id`, if any.
    pub open spec fn sub_of(&self, id: SubscriptionId) -> Option<Subscription> {
        if self.has_sub(id) {
            Some(self.spec_subs()[self.sub_index(id)].1)
        } else {
            None
        }
    }

    /// The pattern items of subscription `id`.
    pub open spec fn pattern_of(&self, id: SubscriptionId) -> Seq<ItemView> {
        self.sub_of(id)->Some_0.0.spec_items()
    }

    /// The value registered with subscription `id`, if any.
    pub closed spec fn value_of(&self, id: SubscriptionId) -> Option<T> {
        if self.has_sub(id) {
            match self.topic_matcher.lookup(self.pattern_of(id)) {
                Some(t) => t.value_of(id),
                None => None,
            }
        } else {
            None
        }
    }

    /// Every entry of the table stored under `k` belongs to a subscription
    /// whose pattern has the shape of `k`.
    closed spec fn table_entries_known(&self, k: Seq<ItemView>) -> bool {
        match self.topic_matcher.lookup(k) {
            Some(t) => forall|j: int|
                0 <= j < t.spec_entries().len() ==> self.has_sub(#[trigger] t.spec_entries()[j].0)
                    && erase(self.pattern_of(t.spec_entries()[j].0)) == erase(k),
            None => true,
        }
    }

    /// Subscription `i` is stored in the tree under its pattern, and its
    /// identifier was handed out.
    closed spec fn sub_stored(&self, i: int) -> bool {
        let (id, sub) = self.spec_subs()[i];
        &&& hash_only_last(sub.0.spec_items())
        &&& self.topic_matcher.lookup(sub.0.spec_items()) matches Some(t) && t.has(id)
        &&& id.spec_value() < self.next_id
    }

    /// The router's invariant: identifiers are unique, the tree is well
    /// formed, every subscription is stored under its pattern and every
    /// stored entry belongs to a subscription.
    pub closed spec fn inv(&self) -> bool {
        &&& self.subscriptions.wf()
        &&& self.topic_matcher.wf()
        &&& forall|i: int| 0 <= i < self.spec_subs().len() ==> #[trigger] self.sub_stored(i)
        &&& forall|k: Seq<ItemView>|
            #![trigger self.topic_matcher.lookup(k)]
            self.table_entries_known(k)
    }

    /// Creates an empty router.
    pub fn new() -> (r: Self)
        ensures
            r.inv(),
            r.spec_subs().len() == 0,
            r.spec_next_id() == 0,
    {
        let r = TopicRouter {
            topic_matcher: TopicMatcherNode::new(),
            subscriptions: SubscriptionTable::new(),
            next_id: 0,
        };
        proof {
            assert forall|k: Seq<ItemView>| #![trigger r.topic_matcher.lookup(k)] r.table_entries_known(k) by {
            }
        }
        r
    }

    /// The subscription with an identifier is the entry found at its index.
    proof fn lemma_sub_of(&self, i: int)
        requires
            self.subscriptions.wf(),
            0 <= i < self.spec_subs().len(),
        ensures
            self.has_sub(self.spec_subs()[i].0),
            self.sub_index(self.spec_subs()[i].0) == i,
            self.sub_of(self.spec_subs()[i].0) == Some(self.spec_subs()[i].1),
    {
        lemma_value_of(self.subscriptions, i);
    }
}


impl<T> TopicRouter<T> {
    /// No subscription whose pattern has the shape of `items` asked for a
    /// QoS of `qos` or higher: a new subscription with `qos` must be sent to
    /// the broker.
    pub open spec fn raises_qos(&self, items: Seq<ItemView>, qos: QoS) -> bool {
        forall|i: int|
            0 <= i < self.spec_subs().len() && erase((#[trigger] self.spec_subs()[i]).1.0.spec_items())
                == erase(items) ==> qos_level(self.spec_subs()[i].1.1) < qos_level(qos)
    }

    /// The subscription of an identifier stored in the tree.
    proof fn lemma_stored_id(&self, k: Seq<ItemView>, j: int)
        requires
            self.inv(),
            self.topic_matcher.lookup(k) is Some,
            0 <= j < self.topic_matcher.lookup(k)->Some_0.spec_entries().len(),
        ensures
            self.has_sub(self.topic_matcher.lookup(k)->Some_0.spec_entries()[j].0),
            erase(self.pattern_of(self.topic_matcher.lookup(k)->Some_0.spec_entries()[j].0)) == erase(k),
            self.sub_of(self.topic_matcher.lookup(k)->Some_0.spec_entries()[j].0)
                == Some(self.spec_subs()[self.sub_index(self.topic_matcher.lookup(k)->Some_0.spec_entries()[j].0)].1),
    {
        assert(self.table_entries_known(k));
        let t = self.topic_matcher.lookup(k)->Some_0;
        assert(self.has_sub(t.spec_entries()[j].0));
    }

    /// Subscription `i` is found in the table stored under any pattern of
    /// its shape.
    proof fn lemma_sub_in_table(&self, i: int, k: Seq<ItemView>)
        requires
            self.inv(),
            0 <= i < self.spec_subs().len(),
            erase(self.spec_subs()[i].1.0.spec_items()) == erase(k),
        ensures
            self.topic_matcher.lookup(k) matches Some(t) && t.has(self.spec_subs()[i].0),
    {
        assert(self.sub_stored(i));
        self.topic_matcher.lemma_lookup_erase(k);
        self.topic_matcher.lemma_lookup_erase(self.spec_subs()[i].1.0.spec_items());
    }

    /// Whether a new subscription to `topic` with `qos` raises the QoS of
    /// its pattern.
    fn check_raises_qos(&self, topic: &TopicPatternPath, qos: QoS) -> (r: bool)
        requires
            self.inv(),
        ensures
            r == self.raises_qos(topic.spec_items(), qos),
    {
        let items = topic.slice();
        let table = self.topic_matcher.find_table(items);
        let ghost key = topic.spec_items();
        match table {
            None => {
                proof {
                    assert forall|i: int|
                        0 <= i < self.spec_subs().len() && erase((#[trigger] self.spec_subs()[i]).1.0.spec_items())
                            == erase(key) implies qos_level(self.spec_subs()[i].1.1) < qos_level(qos) by {
                        self.lemma_sub_in_table(i, key);
                    }
                }
                true
            },
            Some(t) => {
                let mut raises = true;
                let mut j: usize = 0;
                while j < t.entry_count()
                    invariant
                        self.inv(),
                        self.topic_matcher.lookup(key) == Some(*t),
                        0 <= j <= t.spec_entries().len(),
                        raises == forall|jj: int|
                            0 <= jj < j ==> qos_level(
                                (#[trigger] self.sub_of(t.spec_entries()[jj].0))->Some_0.1,
                            ) < qos_level(qos),
                    decreases t.spec_entries().len() - j,
                {
                    let e = t.entry(j);
                    proof {
                        self.lemma_stored_id(key, j as int);
                    }
                    match self.subscriptions.get(e.0) {
                        Some(s) => {
                            if !qos.is_higher_than(s.1) {
                                raises = false;
                            }
                        },
                        None => {
                            proof {
                                assert(false);
                            }
                        },
                    }
                    j = j + 1;
                }
                proof {
                    if raises {
                        assert forall|i: int|
                            0 <= i < self.spec_subs().len() && erase((#[trigger] self.spec_subs()[i]).1.0.spec_items())
                                == erase(key) implies qos_level(self.spec_subs()[i].1.1) < qos_level(qos) by {
                            self.lemma_sub_in_table(i, key);
                            let id = self.spec_subs()[i].0;
                            let jj = choose|jj: int| 0 <= jj < t.spec_entries().len() && (#[trigger] t.spec_entries()[jj]).0 == id;
                            self.lemma_sub_of(i);
                            assert(qos_level(self.sub_of(t.spec_entries()[jj].0)->Some_0.1) < qos_level(qos));
                        }
                    } else {
                        let jj = choose|jj: int|
                            0 <= jj < j && !(qos_level((#[trigger] self.sub_of(t.spec_entries()[jj].0))->Some_0.1) < qos_level(qos));
                        self.lemma_stored_id(key, jj);
                        let id = t.spec_entries()[jj].0;
                        let i = self.sub_index(id);
                        assert(self.spec_subs()[i].0 == id);
                        assert(!self.raises_qos(key, qos)) by {
                            assert(erase(self.spec_subs()[i].1.0.spec_items()) == erase(key));
                        }
                    }
                }
                raises
            },
        }
    }
}


impl<T> TopicRouter<T> {
    /// Whether an identifier is left for a new subscription.
    pub fn has_free_id(&self) -> (r: bool)
        ensures
            r == (self.spec_next_id() < usize::MAX),
    {
        self.next_id < usize::MAX
    }

    /// Registers a subscription to `topic` with `qos`. Returns whether it
    /// raises the QoS of its pattern (so that the broker must be told) and
    /// its new identifier.
    pub fn add_subscription(&mut self, topic: TopicPatternPath, qos: QoS, subscription: T) -> (r: (
        bool,
        SubscriptionId,
    ))
        requires
            old(self).inv(),
            old(self).spec_next_id() < usize::MAX,
        ensures
            final(self).inv(),
            r.0 == old(self).raises_qos(topic.spec_items(), qos),
            r.1.spec_value() == old(self).spec_next_id(),
            !old(self).has_sub(r.1),
            final(self).spec_next_id() == old(self).spec_next_id() + 1,
            final(self).spec_subs() == old(self).spec_subs().push((r.1, (topic, qos))),
            final(self).value_of(r.1) == Some(subscription),
            forall|id: SubscriptionId|
                old(self).has_sub(id) ==> #[trigger] final(self).value_of(id) == old(self).value_of(id),
    {
        let ghost old_r = *self;
        let ghost key = topic.spec_items();
        proof {
            use_type_invariant(&topic);
            topic.lemma_hash_only_last();
        }
        let needs_subscribe = self.check_raises_qos(&topic, qos);
        let id = SubscriptionId::from_value(self.next_id);
        proof {
            // The new identifier is in no table and no subscription.
            if old_r.has_sub(id) {
                let i = choose|i: int| 0 <= i < old_r.spec_subs().len() && (#[trigger] old_r.spec_subs()[i]).0 == id;
                assert(old_r.sub_stored(i));
            }
            if old_r.topic_matcher.lookup(key) is Some {
                let t = old_r.topic_matcher.lookup(key)->Some_0;
                if t.has(id) {
                    let jj = choose|jj: int| 0 <= jj < t.spec_entries().len() && (#[trigger] t.spec_entries()[jj]).0 == id;
                    old_r.lemma_stored_id(key, jj);
                }
            }
        }
        self.next_id = self.next_id + 1;
        self.topic_matcher.subscribe_to_pattern(&topic, id, subscription);
        self.subscriptions.insert(id, (topic, qos));
        proof {
            let n = old_r.spec_subs().len();
            let new_t = self.topic_matcher.lookup(key)->Some_0;
            self.topic_matcher.lemma_lookup_wf(key);
            // Old subscriptions keep their index and their entry.
            assert forall|x: SubscriptionId| old_r.has_sub(x) implies self.has_sub(x) && self.sub_index(x) == old_r.sub_index(x)
                && #[trigger] self.sub_of(x) == old_r.sub_of(x) by {
                let i0 = old_r.sub_index(x);
                assert(self.spec_subs()[i0] == old_r.spec_subs()[i0]);
                self.lemma_sub_of(i0);
            }
            self.lemma_sub_of(n as int);
            assert(self.spec_subs()[n as int] == (id, (topic, qos)));
            // Tables under the same shape as `key` are the table under `key`.
            assert forall|k: Seq<ItemView>| erase(k) == erase(key) implies #[trigger] self.topic_matcher.lookup(k)
                == self.topic_matcher.lookup(key) && old_r.topic_matcher.lookup(k) == old_r.topic_matcher.lookup(key) by {
                self.topic_matcher.lemma_lookup_erase(k);
                self.topic_matcher.lemma_lookup_erase(key);
                old_r.topic_matcher.lemma_lookup_erase(k);
                old_r.topic_matcher.lemma_lookup_erase(key);
            }
            assert(new_t.spec_entries()[new_t.spec_entries().len() - 1] == (id, subscription));
            lemma_value_of(new_t, new_t.spec_entries().len() - 1);
            // Every subscription is stored.
            assert forall|i: int| 0 <= i < self.spec_subs().len() implies #[trigger] self.sub_stored(i) by {
                if i < n {
                    assert(old_r.sub_stored(i));
                    assert(self.spec_subs()[i] == old_r.spec_subs()[i]);
                    let p = old_r.spec_subs()[i].1.0.spec_items();
                    if erase(p) == erase(key) {
                        let t0 = old_r.topic_matcher.lookup(p)->Some_0;
                        assert(self.topic_matcher.lookup(p) == self.topic_matcher.lookup(key));
                        assert(old_r.topic_matcher.lookup(key) == Some(t0));
                        assert(new_t.spec_entries() == t0.spec_entries().push((id, subscription)));
                        let jj = choose|jj: int| 0 <= jj < t0.spec_entries().len() && (#[trigger] t0.spec_entries()[jj]).0 == old_r.spec_subs()[i].0;
                        assert(new_t.spec_entries()[jj] == t0.spec_entries()[jj]);
                    }
                } else {
                    assert(new_t.has(id));
                }
            }
            // Every stored entry belongs to a subscription.
            assert forall|k: Seq<ItemView>| #![trigger self.topic_matcher.lookup(k)] self.table_entries_known(k) by {
                assert(old_r.table_entries_known(k));
                if erase(k) == erase(key) {
                    assert(self.topic_matcher.lookup(k) == Some(new_t));
                    assert(old_r.topic_matcher.lookup(k) == old_r.topic_matcher.lookup(key));
                    assert forall|j: int| 0 <= j < new_t.spec_entries().len() implies self.has_sub(
                        #[trigger] new_t.spec_entries()[j].0) && erase(self.pattern_of(new_t.spec_entries()[j].0)) == erase(k) by {
                        if j < new_t.spec_entries().len() - 1 {
                            let t0 = old_r.topic_matcher.lookup(key)->Some_0;
                            assert(new_t.spec_entries() == t0.spec_entries().push((id, subscription)));
                            assert(new_t.spec_entries()[j] == t0.spec_entries()[j]);
                            let x = t0.spec_entries()[j].0;
                            assert(old_r.table_entries_known(key));
                            assert(old_r.has_sub(x));
                            assert(self.sub_of(x) == old_r.sub_of(x));
                            assert(self.pattern_of(x) == old_r.pattern_of(x));
                        } else {
                            assert(new_t.spec_entries()[j].0 == id);
                            assert(self.pattern_of(id) == key);
                        }
                    }
                } else {
                    assert(self.topic_matcher.lookup(k) == old_r.topic_matcher.lookup(k));
                    if self.topic_matcher.lookup(k) is Some {
                        let t = self.topic_matcher.lookup(k)->Some_0;
                        assert forall|j: int| 0 <= j < t.spec_entries().len() implies self.has_sub(
                            #[trigger] t.spec_entries()[j].0) && erase(self.pattern_of(t.spec_entries()[j].0)) == erase(k) by {
                            let x = t.spec_entries()[j].0;
                            assert(old_r.has_sub(x));
                            assert(self.sub_of(x) == old_r.sub_of(x));
                            assert(self.pattern_of(x) == old_r.pattern_of(x));
                        }
                    }
                }
            }
            // Values of earlier subscriptions are unchanged.
            assert forall|x: SubscriptionId| old_r.has_sub(x) implies #[trigger] self.value_of(x) == old_r.value_of(x) by {
                let i0 = old_r.sub_index(x);
                assert(old_r.sub_stored(i0));
                let p = old_r.pattern_of(x);
                if erase(p) == erase(key) {
                    let t0 = old_r.topic_matcher.lookup(p)->Some_0;
                    old_r.topic_matcher.lemma_lookup_wf(p);
                    let jj = t0.index_of(x);
                    assert(self.topic_matcher.lookup(p) == self.topic_matcher.lookup(key));
                    assert(old_r.topic_matcher.lookup(key) == Some(t0));
                    assert(new_t.spec_entries() == t0.spec_entries().push((id, subscription)));
                    assert(new_t.spec_entries()[jj] == t0.spec_entries()[jj]);
                    lemma_value_of(t0, jj);
                    lemma_value_of(new_t, jj);
                }
            }
        }
        (needs_subscribe, id)
    }
}


impl<T> TopicRouter<T> {
    /// After the subscription at `i0` is taken out of `old`, giving `self`,
    /// every other subscription keeps its entry.
    proof fn lemma_subs_after_remove(&self, old_r: Self, i0: int)
        requires
            old_r.subscriptions.wf(),
            self.subscriptions.wf(),
            0 <= i0 < old_r.spec_subs().len(),
            self.spec_subs() == old_r.spec_subs().remove(i0),
        ensures
            forall|x: SubscriptionId|
                #![trigger self.sub_of(x)]
                #![trigger self.has_sub(x)]
                self.has_sub(x) <==> (old_r.has_sub(x) && x != old_r.spec_subs()[i0].0),
            forall|x: SubscriptionId|
                x != old_r.spec_subs()[i0].0 ==> #[trigger] self.sub_of(x) == old_r.sub_of(x),
    {
        let id = old_r.spec_subs()[i0].0;
        assert forall|x: SubscriptionId|
            #![trigger self.sub_of(x)]
            #![trigger self.has_sub(x)]
            x != id && old_r.has_sub(x) implies self.has_sub(x) && self.sub_of(x) == old_r.sub_of(x) by {
            let i = old_r.sub_index(x);
            old_r.lemma_sub_of(i);
            let i2 = if i < i0 { i } else { i - 1 };
            assert(i != i0);
            assert(self.spec_subs()[i2] == old_r.spec_subs()[i]);
            self.lemma_sub_of(i2);
        }
        assert forall|x: SubscriptionId| #[trigger] self.has_sub(x) implies old_r.has_sub(x) && x != id by {
            let i2 = choose|i2: int| 0 <= i2 < self.spec_subs().len() && (#[trigger] self.spec_subs()[i2]).0 == x;
            let i = if i2 < i0 { i2 } else { i2 + 1 };
            assert(self.spec_subs()[i2] == old_r.spec_subs()[i]);
            if x == id {
                assert(old_r.spec_subs()[i].0 == old_r.spec_subs()[i0].0);
            }
        }
    }

    /// Removes a subscription. Returns whether the router holds no
    /// subscription any more, and the pattern the subscription had; fails
    /// when there is no subscription with this identifier.
    pub fn unsubscribe(&mut self, id: &SubscriptionId) -> (r: Result<(bool, TopicPatternPath), TopicRouterError>)
        requires
            old(self).inv(),
        ensures
            final(self).inv(),
            final(self).spec_next_id() == old(self).spec_next_id(),
            match r {
                Ok((now_empty, topic)) => {
                    &&& old(self).has_sub(*id)
                    &&& old(self).sub_of(*id)->Some_0.0 == topic
                    &&& final(self).spec_subs() == old(self).spec_subs().remove(old(self).sub_index(*id))
                    &&& now_empty == (final(self).spec_subs().len() == 0)
                },
                Err(e) => {
                    &&& !old(self).has_sub(*id)
                    &&& e@ == RouterErrorView::SubscriptionNotFound(*id)
                    &&& final(self).spec_subs() == old(self).spec_subs()
                },
            },
            !final(self).has_sub(*id),
            forall|x: SubscriptionId|
                x != *id ==> #[trigger] final(self).has_sub(x) == old(self).has_sub(x),
            forall|x: SubscriptionId| x != *id ==> #[trigger] final(self).sub_of(x) == old(self).sub_of(x),
            forall|x: SubscriptionId| x != *id ==> #[trigger] final(self).value_of(x) == old(self).value_of(x),
    {
        let ghost old_r = *self;
        let removed = self.subscriptions.remove(*id);
        match removed {
            None => {
                proof {
                    assert(self.spec_subs() == old_r.spec_subs());
                    assert forall|x: SubscriptionId|
                        #![trigger self.has_sub(x)]
                        #![trigger self.sub_of(x)]
                        self.has_sub(x) == old_r.has_sub(x) && self.sub_of(x) == old_r.sub_of(x) by {
                        if old_r.has_sub(x) {
                            let i = old_r.sub_index(x);
                            old_r.lemma_sub_of(i);
                            self.lemma_sub_of(i);
                        }
                        if self.has_sub(x) {
                            let i = choose|i: int| 0 <= i < self.spec_subs().len() && (#[trigger] self.spec_subs()[i]).0 == x;
                            assert(old_r.spec_subs()[i].0 == x);
                        }
                    }
                    assert forall|i: int| 0 <= i < self.spec_subs().len() implies #[trigger] self.sub_stored(i) by {
                        assert(old_r.sub_stored(i));
                    }
                    assert forall|k: Seq<ItemView>| #![trigger self.topic_matcher.lookup(k)] self.table_entries_known(k) by {
                        assert(old_r.table_entries_known(k));
                    }
                }
                Err(TopicRouterError::subscription_not_found(*id))
            },
            Some((topic, qos)) => {
                let ghost i0 = old_r.sub_index(*id);
                proof {
                    let iw = choose|iw: int| 0 <= iw < old_r.spec_subs().len() && old_r.spec_subs()[iw] == (*id, (topic, qos))
                        && self.spec_subs() == old_r.spec_subs().remove(iw);
                    old_r.lemma_sub_of(iw);
                    assert(iw == i0);
                    assert(old_r.sub_stored(i0));
                    self.lemma_subs_after_remove(old_r, i0);
                }
                let ghost key = topic.spec_items();
                proof {
                    lemma_upto_whole(topic.spec_items());
                }
                let gone = *id;
                let remove_id = |t: SubscriptionTable<T>| -> (r: SubscriptionTable<T>)
                    requires
                        t.wf(),
                    ensures
                        r.wf(),
                        r.spec_entries() == removed_entries(t, gone),
                    { table_without(t, gone) };
                let res = self.topic_matcher.update_node(topic.slice(), remove_id);
                match res {
                    Ok(now_empty) => {
                        proof {
                            let t = old_r.topic_matcher.lookup(key)->Some_0;
                            let t2 = choose|t2: SubscriptionTable<T>|
                                call_ensures(remove_id, (t,), t2) && self.topic_matcher.lookup(key) == updated_slot(t2);
                            assert(t2.spec_entries() == removed_entries(t, gone));
                            self.lemma_after_unsubscribe(old_r, i0, now_empty);
                        }
                        Ok((now_empty, topic))
                    },
                    Err(e) => {
                        proof {
                            assert(false);
                        }
                        Err(TopicRouterError::MatchingFailed(e))
                    },
                }
            },
        }
    }

    /// The invariant and the values after the subscription at `i0` was
    /// removed from the subscriptions and from the tree.
    proof fn lemma_after_unsubscribe(&self, old_r: Self, i0: int, now_empty: bool)
        requires
            old_r.inv(),
            0 <= i0 < old_r.spec_subs().len(),
            self.subscriptions.wf(),
            self.spec_subs() == old_r.spec_subs().remove(i0),
            self.next_id == old_r.next_id,
            self.topic_matcher.wf(),
            ({
                let id = old_r.spec_subs()[i0].0;
                let key = old_r.spec_subs()[i0].1.0.spec_items();
                old_r.topic_matcher.lookup(key) matches Some(t) && {
                    &&& now_empty == self.topic_matcher.structurally_empty()
                    &&& if removed_entries(t, id).len() == 0 {
                        self.topic_matcher.lookup(key) is None
                    } else {
                        self.topic_matcher.lookup(key) matches Some(t2) && t2.spec_entries()
                            == removed_entries(t, id)
                    }
                    &&& forall|k: Seq<ItemView>|
                        erase(k) != erase(key) ==> #[trigger] self.topic_matcher.lookup(k)
                            == old_r.topic_matcher.lookup(k)
                }
            }),
        ensures
            self.inv(),
            now_empty == (self.spec_subs().len() == 0),
            !self.has_sub(old_r.spec_subs()[i0].0),
            forall|x: SubscriptionId|
                x != old_r.spec_subs()[i0].0 ==> #[trigger] self.has_sub(x) == old_r.has_sub(x),
            forall|x: SubscriptionId|
                x != old_r.spec_subs()[i0].0 ==> #[trigger] self.sub_of(x) == old_r.sub_of(x),
            forall|x: SubscriptionId|
                x != old_r.spec_subs()[i0].0 ==> #[trigger] self.value_of(x) == old_r.value_of(x),
    {
        let id = old_r.spec_subs()[i0].0;
        let key = old_r.spec_subs()[i0].1.0.spec_items();
        let t = old_r.topic_matcher.lookup(key)->Some_0;
        self.lemma_subs_after_remove(old_r, i0);
        old_r.lemma_sub_of(i0);
        old_r.topic_matcher.lemma_lookup_wf(key);
        lemma_removed_entries(t, id);
        assert(old_r.table_entries_known(key));
        assert forall|k: Seq<ItemView>| erase(k) == erase(key) implies #[trigger] self.topic_matcher.lookup(k)
            == self.topic_matcher.lookup(key) && old_r.topic_matcher.lookup(k) == old_r.topic_matcher.lookup(key) by {
            self.topic_matcher.lemma_lookup_erase(k);
            self.topic_matcher.lemma_lookup_erase(key);
            old_r.topic_matcher.lemma_lookup_erase(k);
            old_r.topic_matcher.lemma_lookup_erase(key);
        }
        // Every remaining subscription is still stored.
        assert forall|i: int| 0 <= i < self.spec_subs().len() implies #[trigger] self.sub_stored(i) by {
            let io = if i < i0 { i } else { i + 1 };
            assert(self.spec_subs()[i] == old_r.spec_subs()[io]);
            assert(old_r.sub_stored(io));
            let x = old_r.spec_subs()[io].0;
            assert(x != id) by {
                assert(old_r.spec_subs()[io].0 != old_r.spec_subs()[i0].0);
            }
            let p = old_r.spec_subs()[io].1.0.spec_items();
            if erase(p) == erase(key) {
                assert(old_r.topic_matcher.lookup(p) == old_r.topic_matcher.lookup(key));
                let jj = choose|jj: int| 0 <= jj < t.spec_entries().len() && (#[trigger] t.spec_entries()[jj]).0 == x;
                assert(t.spec_entries().contains(t.spec_entries()[jj]));
                assert(removed_entries(t, id).contains(t.spec_entries()[jj]));
                assert(self.topic_matcher.lookup(p) == self.topic_matcher.lookup(key));
                let t2 = self.topic_matcher.lookup(key)->Some_0;
                let j2 = choose|j2: int| 0 <= j2 < t2.spec_entries().len() && t2.spec_entries()[j2] == t.spec_entries()[jj];
                assert(t2.spec_entries()[j2].0 == x);
            } else {
                assert(self.topic_matcher.lookup(p) == old_r.topic_matcher.lookup(p));
            }
        }
        // Every stored entry belongs to a remaining subscription.
        assert forall|k: Seq<ItemView>| #![trigger self.topic_matcher.lookup(k)] self.table_entries_known(k) by {
            assert(old_r.table_entries_known(k));
            if self.topic_matcher.lookup(k) is Some {
                let tk = self.topic_matcher.lookup(k)->Some_0;
                assert forall|j: int| 0 <= j < tk.spec_entries().len() implies self.has_sub(
                    #[trigger] tk.spec_entries()[j].0) && erase(self.pattern_of(tk.spec_entries()[j].0)) == erase(k) by {
                    let e = tk.spec_entries()[j];
                    if erase(k) == erase(key) {
                        assert(tk.spec_entries() == removed_entries(t, id));
                        assert(tk.spec_entries().contains(e));
                        assert(e.0 != id);
                        assert(t.spec_entries().contains(e));
                        let jo = choose|jo: int| 0 <= jo < t.spec_entries().len() && t.spec_entries()[jo] == e;
                        assert(old_r.has_sub(t.spec_entries()[jo].0));
                    } else {
                        assert(tk == old_r.topic_matcher.lookup(k)->Some_0);
                        assert(old_r.has_sub(e.0));
                        assert(e.0 != id);
                    }
                    assert(self.sub_of(e.0) == old_r.sub_of(e.0));
                }
            }
        }
        // The tree is empty exactly when no subscription is left.
        self.topic_matcher.lemma_empty_iff_no_key();
        if self.spec_subs().len() > 0 {
            assert(self.sub_stored(0));
        } else {
            if !self.topic_matcher.structurally_empty() {
                let k = choose|k: Seq<ItemView>| #[trigger] self.topic_matcher.lookup(k) is Some;
                self.topic_matcher.lemma_lookup_wf(k);
                assert(self.table_entries_known(k));
                let tk = self.topic_matcher.lookup(k)->Some_0;
                assert(self.has_sub(tk.spec_entries()[0].0));
            }
        }
        // The values of the other subscriptions are unchanged.
        assert forall|x: SubscriptionId| x != id implies #[trigger] self.value_of(x) == old_r.value_of(x) by {
            if old_r.has_sub(x) {
                let io = old_r.sub_index(x);
                assert(old_r.sub_stored(io));
                assert(self.sub_of(x) == old_r.sub_of(x));
                let p = old_r.pattern_of(x);
                if erase(p) == erase(key) {
                    assert(old_r.topic_matcher.lookup(p) == old_r.topic_matcher.lookup(key));
                    assert(self.topic_matcher.lookup(p) == self.topic_matcher.lookup(key));
                    let jj = t.index_of(x);
                    lemma_value_of(t, jj);
                    assert(t.spec_entries().contains(t.spec_entries()[jj]));
                    assert(removed_entries(t, id).contains(t.spec_entries()[jj]));
                    let t2 = self.topic_matcher.lookup(key)->Some_0;
                    self.topic_matcher.lemma_lookup_wf(key);
                    let j2 = choose|j2: int| 0 <= j2 < t2.spec_entries().len() && t2.spec_entries()[j2] == t.spec_entries()[jj];
                    lemma_value_of(t2, j2);
                } else {
                    assert(self.topic_matcher.lookup(p) == old_r.topic_matcher.lookup(p));
                }
            } else {
                assert(!self.has_sub(x));
            }
        }
    }
}


/// Some entry of `pos` is `(a, b)`.
spec fn pos_covered(pos: Seq<(int, int)>, a: int, b: int) -> bool {
    exists|j: int| 0 <= j < pos.len() && #[trigger] pos[j] == (a, b)
}

impl<T> TopicRouter<T> {
    /// `(id, sub, v)` is a subscription whose pattern matches the levels,
    /// with the value registered for it.
    pub open spec fn routes_to(&self, levels: Seq<Seq<char>>, id: SubscriptionId, sub: Subscription, v: T) -> bool {
        &&& self.sub_of(id) == Some(sub)
        &&& self.value_of(id) == Some(v)
        &&& topic_matches(sub.0.spec_items(), levels)
    }

    /// The entry `b` of the table stored under `k` is routed to when `k`
    /// matches the levels.
    proof fn lemma_entry_routed(&self, levels: Seq<Seq<char>>, k: Seq<ItemView>, t: SubscriptionTable<T>, b: int)
        requires
            self.inv(),
            is_erased(k),
            topic_matches(k, levels),
            self.topic_matcher.lookup(k) == Some(t),
            0 <= b < t.spec_entries().len(),
        ensures
            self.has_sub(t.spec_entries()[b].0),
            erase(self.pattern_of(t.spec_entries()[b].0)) == k,
            self.routes_to(
                levels,
                t.spec_entries()[b].0,
                self.sub_of(t.spec_entries()[b].0)->Some_0,
                t.spec_entries()[b].1,
            ),
    {
        let id = t.spec_entries()[b].0;
        self.lemma_stored_id(k, b);
        let p = self.pattern_of(id);
        self.topic_matcher.lemma_lookup_erase(p);
        self.topic_matcher.lemma_lookup_wf(k);
        lemma_value_of(t, b);
        lemma_topic_matches_erase(p, levels);
    }

    /// An identifier stored under two keys of this shape-erased form is
    /// stored under one key only.
    proof fn lemma_entry_unique_key(
        &self,
        k1: Seq<ItemView>,
        t1: SubscriptionTable<T>,
        b1: int,
        k2: Seq<ItemView>,
        t2: SubscriptionTable<T>,
        b2: int,
    )
        requires
            self.inv(),
            is_erased(k1),
            is_erased(k2),
            self.topic_matcher.lookup(k1) == Some(t1),
            self.topic_matcher.lookup(k2) == Some(t2),
            0 <= b1 < t1.spec_entries().len(),
            0 <= b2 < t2.spec_entries().len(),
            t1.spec_entries()[b1].0 == t2.spec_entries()[b2].0,
        ensures
            k1 == k2,
    {
        self.lemma_stored_id(k1, b1);
        self.lemma_stored_id(k2, b2);
    }

    /// Finds the subscriptions whose patterns match the topic: each once,
    /// with its subscription and its value.
    pub fn get_subscribers<'a>(&'a self, topic: &TopicPath) -> (r: Vec<(&'a SubscriptionId, &'a Subscription, &'a T)>)
        requires
            self.inv(),
        ensures
            forall|j: int|
                0 <= j < r@.len() ==> self.routes_to(
                    topic.levels(),
                    *(#[trigger] r@[j]).0,
                    *r@[j].1,
                    *r@[j].2,
                ),
            forall|i: int|
                0 <= i < self.spec_subs().len() && topic_matches(
                    (#[trigger] self.spec_subs()[i]).1.0.spec_items(),
                    topic.levels(),
                ) ==> exists|j: int| 0 <= j < r@.len() && *(#[trigger] r@[j]).0 == self.spec_subs()[i].0,
            forall|a: int, b: int| 0 <= a < b < r@.len() ==> *(#[trigger] r@[a]).0 != *(#[trigger] r@[b]).0,
    {
        let ghost levels = topic.levels();
        let tables = self.topic_matcher.find_by_path(topic);
        let ghost keys = choose|keys: Seq<Seq<ItemView>>| self.topic_matcher.found_with_keys(levels, tables@, keys);
        let mut r: Vec<(&'a SubscriptionId, &'a Subscription, &'a T)> = Vec::new();
        let ghost mut pos: Seq<(int, int)> = Seq::empty();
        let mut a: usize = 0;
        while a < tables.len()
            invariant
                self.inv(),
                self.topic_matcher.found_with_keys(levels, tables@, keys),
                0 <= a <= tables@.len(),
                r@.len() == pos.len(),
                forall|j: int|
                    0 <= j < r@.len() ==> {
                        &&& 0 <= (#[trigger] pos[j]).0 < a
                        &&& 0 <= pos[j].1 < tables@[pos[j].0].spec_entries().len()
                        &&& *r@[j].0 == tables@[pos[j].0].spec_entries()[pos[j].1].0
                        &&& self.routes_to(levels, *r@[j].0, *r@[j].1, *r@[j].2)
                    },
                forall|x: int, y: int| 0 <= x < y < r@.len() ==> *(#[trigger] r@[x]).0 != *(#[trigger] r@[y]).0,
                forall|a2: int, b2: int|
                    0 <= a2 < a && 0 <= b2 < tables@[a2].spec_entries().len() ==> #[trigger] pos_covered(pos, a2, b2),
            decreases tables@.len() - a,
        {
            let t: &'a SubscriptionTable<T> = tables[a];
            let mut b: usize = 0;
            while b < t.entry_count()
                invariant
                    self.inv(),
                    self.topic_matcher.found_with_keys(levels, tables@, keys),
                    0 <= a < tables@.len(),
                    *t == *tables@[a as int],
                    0 <= b <= t.spec_entries().len(),
                    r@.len() == pos.len(),
                    forall|j: int|
                        0 <= j < r@.len() ==> {
                            &&& 0 <= (#[trigger] pos[j]).0 <= a
                            &&& pos[j].0 == a ==> pos[j].1 < b
                            &&& 0 <= pos[j].1 < tables@[pos[j].0].spec_entries().len()
                            &&& *r@[j].0 == tables@[pos[j].0].spec_entries()[pos[j].1].0
                            &&& self.routes_to(levels, *r@[j].0, *r@[j].1, *r@[j].2)
                        },
                    forall|x: int, y: int| 0 <= x < y < r@.len() ==> *(#[trigger] r@[x]).0 != *(#[trigger] r@[y]).0,
                    forall|a2: int, b2: int|
                        ((0 <= a2 < a && 0 <= b2 < tables@[a2].spec_entries().len()) || (a2 == a && 0 <= b2 < b))
                            ==> #[trigger] pos_covered(pos, a2, b2),
                decreases t.spec_entries().len() - b,
            {
                let e: &'a (SubscriptionId, T) = t.entry(b);
                proof {
                    assert(self.topic_matcher.lookup(keys[a as int]) == Some(*tables@[a as int]));
                    self.lemma_entry_routed(levels, keys[a as int], *t, b as int);
                }
                match self.subscriptions.get(e.0) {
                    Some(s) => {
                        let ghost old_r = r@;
                        let ghost old_pos = pos;
                        proof {
                            // The new identifier differs from those found so far.
                            assert forall|j: int| 0 <= j < old_r.len() implies *old_r[j].0 != e.0 by {
                                let (a1, b1) = old_pos[j];
                                assert(self.topic_matcher.lookup(keys[a1]) == Some(*tables@[a1]));
                                if *old_r[j].0 == e.0 {
                                    if a1 == a {
                                        self.topic_matcher.lemma_lookup_wf(keys[a as int]);
                                        assert(t.spec_entries()[b1].0 == t.spec_entries()[b as int].0);
                                    } else {
                                        self.lemma_entry_unique_key(keys[a1], *tables@[a1], b1, keys[a as int], *t, b as int);
                                    }
                                }
                            }
                        }
                        r.push((&e.0, s, &e.1));
                        proof {
                            pos = pos.push((a as int, b as int));
                            assert(r@[r@.len() - 1] == (&e.0, s, &e.1));
                            assert forall|j: int| 0 <= j < r@.len() - 1 implies #[trigger] r@[j] == old_r[j] && pos[j] == old_pos[j] by {
                            }
                            assert forall|a2: int, b2: int|
                                ((0 <= a2 < a && 0 <= b2 < tables@[a2].spec_entries().len()) || (a2 == a && 0 <= b2 < b + 1))
                                implies #[trigger] pos_covered(pos, a2, b2) by {
                                if a2 == a && b2 == b {
                                    assert(pos[pos.len() - 1] == (a2, b2));
                                } else {
                                    assert(pos_covered(old_pos, a2, b2));
                                    let j = choose|j: int| 0 <= j < old_pos.len() && #[trigger] old_pos[j] == (a2, b2);
                                    assert(pos[j] == (a2, b2));
                                }
                            }
                        }
                    },
                    None => {
                        proof {
                            assert(false);
                        }
                    },
                }
                b = b + 1;
            }
            a = a + 1;
        }
        proof {
            assert forall|j: int| 0 <= j < r@.len() implies self.routes_to(
                levels,
                *(#[trigger] r@[j]).0,
                *r@[j].1,
                *r@[j].2,
            ) by {
                assert(0 <= pos[j].0);
            }
            assert forall|i: int|
                0 <= i < self.spec_subs().len() && topic_matches(
                    (#[trigger] self.spec_subs()[i]).1.0.spec_items(),
                    levels,
                ) implies exists|j: int| 0 <= j < r@.len() && *(#[trigger] r@[j]).0 == self.spec_subs()[i].0 by {
                let p = self.spec_subs()[i].1.0.spec_items();
                let id = self.spec_subs()[i].0;
                assert(self.sub_stored(i));
                self.topic_matcher.lemma_lookup_erase(p);
                lemma_erase_facts(p);
                lemma_topic_matches_erase(p, levels);
                let ek = erase(p);
                assert(self.topic_matcher.lookup(ek) is Some);
                assert(keys.contains(ek));
                let a2 = choose|a2: int| 0 <= a2 < keys.len() && keys[a2] == ek;
                let t2 = *tables@[a2];
                assert(self.topic_matcher.lookup(keys[a2]) == Some(t2));
                let b2 = choose|b2: int| 0 <= b2 < t2.spec_entries().len() && (#[trigger] t2.spec_entries()[b2]).0 == id;
                assert(pos_covered(pos, a2, b2));
                let j = choose|j: int| 0 <= j < pos.len() && #[trigger] pos[j] == (a2, b2);
                assert(*r@[j].0 == id);
            }
        }
        r
    }
}


impl<T> TopicRouter<T> {
    /// No subscription has a pattern of the shape of `items`.
    pub open spec fn shape_unused(&self, items: Seq<ItemView>) -> bool {
        forall|i: int|
            0 <= i < self.spec_subs().len() ==> erase((#[trigger] self.spec_subs()[i]).1.0.spec_items())
                != erase(items)
    }

    /// Registers a subscription to `topic` with the default QoS (at least
    /// once). Returns whether no subscription had a pattern of this shape
    /// before, and the new identifier.
    pub fn subscribe(&mut self, topic: TopicPatternPath, subscription: T) -> (r: (bool, SubscriptionId))
        requires
            old(self).inv(),
            old(self).spec_next_id() < usize::MAX,
        ensures
            final(self).inv(),
            r.0 == old(self).shape_unused(topic.spec_items()),
            r.1.spec_value() == old(self).spec_next_id(),
            !old(self).has_sub(r.1),
            final(self).spec_next_id() == old(self).spec_next_id() + 1,
            final(self).spec_subs() == old(self).spec_subs().push((r.1, (topic, QoS::AtLeastOnce))),
            final(self).value_of(r.1) == Some(subscription),
            forall|id: SubscriptionId|
                old(self).has_sub(id) ==> #[trigger] final(self).value_of(id) == old(self).value_of(id),
    {
        let ghost key = topic.spec_items();
        let was_absent = self.topic_matcher.find_table(topic.slice()).is_none();
        proof {
            if was_absent {
                assert forall|i: int| 0 <= i < self.spec_subs().len() implies erase(
                    (#[trigger] self.spec_subs()[i]).1.0.spec_items()) != erase(key) by {
                    if erase(self.spec_subs()[i].1.0.spec_items()) == erase(key) {
                        self.lemma_sub_in_table(i, key);
                    }
                }
            } else {
                self.topic_matcher.lemma_lookup_wf(key);
                self.lemma_stored_id(key, 0);
                let id0 = self.topic_matcher.lookup(key)->Some_0.spec_entries()[0].0;
                let i = self.sub_index(id0);
                assert(self.spec_subs()[i].0 == id0);
                assert(erase(self.spec_subs()[i].1.0.spec_items()) == erase(key));
            }
        }
        let (_, id) = self.add_subscription(topic, QoS::AtLeastOnce, subscription);
        (was_absent, id)
    }

    /// The subscriptions, in the order they were added.
    pub fn get_active_subscriptions(&self) -> (r: Vec<&Subscription>)
        ensures
            r@.len() == self.spec_subs().len(),
            forall|j: int| 0 <= j < r@.len() ==> *(#[trigger] r@[j]) == self.spec_subs()[j].1,
    {
        let mut r: Vec<&Subscription> = Vec::new();
        let mut i: usize = 0;
        while i < self.subscriptions.entry_count()
            invariant
                0 <= i <= self.spec_subs().len(),
                r@.len() == i,
                forall|j: int| 0 <= j < i ==> *(#[trigger] r@[j]) == self.spec_subs()[j].1,
            decreases self.spec_subs().len() - i,
        {
            let e = self.subscriptions.entry(i);
            r.push(&e.1);
            i = i + 1;
        }
        r
    }

    /// The subscription with identifier `id`; fails when there is none.
    pub fn get_topic_by_id(&self, id: &SubscriptionId) -> (r: Result<&Subscription, TopicRouterError>)
        requires
            self.inv(),
        ensures
            match r {
                Ok(s) => self.sub_of(*id) == Some(*s),
                Err(e) => !self.has_sub(*id) && e@ == RouterErrorView::SubscriptionNotFound(*id),
            },
    {
        match self.subscriptions.get(*id) {
            Some(s) => {
                proof {
                    let i = self.subscriptions.index_of(*id);
                    self.lemma_sub_of(i);
                }
                Ok(s)
            },
            None => Err(TopicRouterError::subscription_not_found(*id)),
        }
    }

    /// Removes every subscription and starts the identifiers again from 0.
    pub fn cleanup(&mut self)
        ensures
            final(self).inv(),
            final(self).spec_subs().len() == 0,
            final(self).spec_next_id() == 0,
    {
        self.topic_matcher = TopicMatcherNode::new();
        self.subscriptions = SubscriptionTable::new();
        self.next_id = 0;
        proof {
            assert forall|k: Seq<ItemView>| #![trigger self.topic_matcher.lookup(k)] self.table_entries_known(k) by {
            }
        }
    }

    /// The highest QoS among the subscriptions of a table.
    #[allow(dead_code)]
    fn get_max_qos_for_topic(&self, topic: &TopicPatternPath, topic_subscriptions: &SubscriptionTable<T>) -> (r: QoS)
        requires
            self.inv(),
            topic_subscriptions.spec_entries().len() > 0,
            forall|j: int|
                0 <= j < topic_subscriptions.spec_entries().len() ==> self.has_sub(
                    #[trigger] topic_subscriptions.spec_entries()[j].0,
                ),
        ensures
            exists|j: int|
                0 <= j < topic_subscriptions.spec_entries().len() && r == (#[trigger] self.sub_of(
                    topic_subscriptions.spec_entries()[j].0,
                ))->Some_0.1,
            forall|j: int|
                0 <= j < topic_subscriptions.spec_entries().len() ==> qos_level(
                    (#[trigger] self.sub_of(topic_subscriptions.spec_entries()[j].0))->Some_0.1,
                ) <= qos_level(r),
    {
        let mut best: Option<QoS> = None;
        let mut j: usize = 0;
        while j < topic_subscriptions.entry_count()
            invariant
                self.inv(),
                0 <= j <= topic_subscriptions.spec_entries().len(),
                forall|jj: int|
                    0 <= jj < topic_subscriptions.spec_entries().len() ==> self.has_sub(
                        #[trigger] topic_subscriptions.spec_entries()[jj].0,
                    ),
                j == 0 <==> best is None,
                best matches Some(q) ==> exists|jj: int|
                    0 <= jj < j && q == (#[trigger] self.sub_of(
                        topic_subscriptions.spec_entries()[jj].0,
                    ))->Some_0.1,
                best matches Some(q) ==> forall|jj: int|
                    0 <= jj < j ==> qos_level(
                        (#[trigger] self.sub_of(topic_subscriptions.spec_entries()[jj].0))->Some_0.1,
                    ) <= qos_level(q),
            decreases topic_subscriptions.spec_entries().len() - j,
        {
            let e = topic_subscriptions.entry(j);
            match self.subscriptions.get(e.0) {
                Some(s) => {
                    let q = s.1;
                    best = match best {
                        None => Some(q),
                        Some(b) => if q.is_higher_than(b) {
                            Some(q)
                        } else {
                            Some(b)
                        },
                    };
                },
                None => {
                    proof {
                        assert(false);
                    }
                },
            }
            j = j + 1;
        }
        match best {
            Some(q) => q,
            None => QoS::AtMostOnce,
        }
    }
}

impl<T> Default for TopicRouter<T> {
    fn default() -> (r: Self)
        ensures
            r.inv(),
            r.spec_subs().len() == 0,
            r.spec_next_id() == 0,
    {
        Self::new()
    }
}


/// The index of the first text in `v` equal to `t`, if any.
fn find_text(v: &Vec<String>, t: &String) -> (r: Option<usize>)
    ensures
        match r {
            Some(j) => j < v@.len() && v@[j as int]@ == t@,
            None => forall|j: int| 0 <= j < v@.len() ==> (#[trigger] v@[j])@ != t@,
        },
{
    let mut j: usize = 0;
    while j < v.len()
        invariant
            0 <= j <= v@.len(),
            forall|k: int| 0 <= k < j ==> (#[trigger] v@[k])@ != t@,
        decreases v@.len() - j,
    {
        if same_text(&v[j], t) {
            return Some(j);
        }
        j = j + 1;
    }
    None
}

/// The index of the first pair in `v` whose text equals `t`, if any.
fn find_text_pair(v: &Vec<(String, QoS)>, t: &String) -> (r: Option<usize>)
    ensures
        match r {
            Some(j) => j < v@.len() && v@[j as int].0@ == t@,
            None => forall|j: int| 0 <= j < v@.len() ==> (#[trigger] v@[j]).0@ != t@,
        },
{
    let mut j: usize = 0;
    while j < v.len()
        invariant
            0 <= j <= v@.len(),
            forall|k: int| 0 <= k < j ==> (#[trigger] v@[k]).0@ != t@,
        decreases v@.len() - j,
    {
        if same_text(&v[j].0, t) {
            return Some(j);
        }
        j = j + 1;
    }
    None
}

impl<T> TopicRouter<T> {
    /// The broker pattern of subscription `i`.
    pub open spec fn mqtt_of(&self, i: int) -> Seq<char> {
        self.spec_subs()[i].1.0.spec_mqtt()
    }

    /// `r` lists, each once, the broker patterns of the first `n`
    /// subscriptions.
    pub open spec fn lists_patterns(&self, r: Seq<String>, n: int) -> bool {
        &&& forall|a: int, b: int| 0 <= a < b < r.len() ==> (#[trigger] r[a])@ != (#[trigger] r[b])@
        &&& forall|i: int| 0 <= i < n ==> #[trigger] pattern_listed(r, self.mqtt_of(i))
        &&& forall|j: int|
            0 <= j < r.len() ==> exists|i: int| 0 <= i < n && (#[trigger] r[j])@ == #[trigger] self.mqtt_of(i)
    }

    /// `r` lists, each once, the broker patterns of the first `n`
    /// subscriptions, each with the highest QoS among them.
    pub open spec fn lists_patterns_qos(&self, r: Seq<(String, QoS)>, n: int) -> bool {
        &&& forall|a: int, b: int| 0 <= a < b < r.len() ==> (#[trigger] r[a]).0@ != (#[trigger] r[b]).0@
        &&& forall|i: int|
            0 <= i < n ==> #[trigger] pattern_listed_qos(r, self.mqtt_of(i), self.spec_subs()[i].1.1)
        &&& forall|j: int|
            0 <= j < r.len() ==> exists|i: int|
                0 <= i < n && (#[trigger] r[j]).0@ == #[trigger] self.mqtt_of(i) && r[j].1
                    == self.spec_subs()[i].1.1
    }

    /// Adding the pattern of subscription `n` keeps the listing.
    proof fn lemma_list_step(&self, before: Seq<String>, after: Seq<String>, n: int)
        requires
            0 <= n < self.spec_subs().len(),
            self.lists_patterns(before, n),
            (pattern_listed(before, self.mqtt_of(n)) && after == before) || (!pattern_listed(
                before,
                self.mqtt_of(n),
            ) && after.len() == before.len() + 1 && after.take(before.len() as int) == before
                && after[before.len() as int]@ == self.mqtt_of(n)),
        ensures
            self.lists_patterns(after, n + 1),
    {
        if after != before {
            assert forall|a: int| 0 <= a < before.len() implies #[trigger] after[a] == before[a] by {
                assert(after.take(before.len() as int)[a] == after[a]);
            }
            assert forall|i: int| 0 <= i < n + 1 implies #[trigger] pattern_listed(after, self.mqtt_of(i)) by {
                if i < n {
                    assert(pattern_listed(before, self.mqtt_of(i)));
                    let j = choose|j: int| 0 <= j < before.len() && (#[trigger] before[j])@ == self.mqtt_of(i);
                    assert(after[j] == before[j]);
                } else {
                    assert(after[before.len() as int]@ == self.mqtt_of(i));
                }
            }
            assert forall|j: int| 0 <= j < after.len() implies exists|i: int|
                0 <= i < n + 1 && (#[trigger] after[j])@ == #[trigger] self.mqtt_of(i) by {
                if j < before.len() {
                    assert(after[j] == before[j]);
                    let i = choose|i: int| 0 <= i < n && (#[trigger] before[j])@ == #[trigger] self.mqtt_of(i);
                } else {
                    assert(after[j]@ == self.mqtt_of(n));
                }
            }
            assert forall|a: int, b: int| 0 <= a < b < after.len() implies (#[trigger] after[a])@ != (#[trigger] after[b])@ by {
                if b < before.len() {
                    assert(after[a] == before[a]);
                    assert(after[b] == before[b]);
                } else {
                    assert(after[a] == before[a]);
                    if after[a]@ == after[b]@ {
                        assert(pattern_listed(before, self.mqtt_of(n)));
                    }
                }
            }
        } else {
            assert forall|i: int| 0 <= i < n + 1 implies #[trigger] pattern_listed(after, self.mqtt_of(i)) by {
                if i < n {
                    assert(pattern_listed(before, self.mqtt_of(i)));
                }
            }
            assert forall|j: int| 0 <= j < after.len() implies exists|i: int|
                0 <= i < n + 1 && (#[trigger] after[j])@ == #[trigger] self.mqtt_of(i) by {
                let i = choose|i: int| 0 <= i < n && (#[trigger] before[j])@ == #[trigger] self.mqtt_of(i);
            }
        }
    }

    /// Get all unique active topic patterns (as sent to the broker).
    pub fn get_topics_for_unsubscribe(&self) -> (r: Vec<String>)
        ensures
            self.lists_patterns(r@, self.spec_subs().len() as int),
    {
        let mut r: Vec<String> = Vec::new();
        let mut i: usize = 0;
        while i < self.subscriptions.entry_count()
            invariant
                0 <= i <= self.spec_subs().len(),
                self.lists_patterns(r@, i as int),
            decreases self.spec_subs().len() - i,
        {
            let e = self.subscriptions.entry(i);
            let m = e.1.0.mqtt_pattern();
            let ghost before = r@;
            match find_text(&r, &m) {
                Some(j) => {
                    proof {
                        assert(pattern_listed(before, self.mqtt_of(i as int))) by {
                            assert(before[j as int]@ == m@);
                        }
                    }
                },
                None => {
                    proof {
                        if pattern_listed(before, self.mqtt_of(i as int)) {
                            let j = choose|j: int| 0 <= j < before.len() && (#[trigger] before[j])@ == self.mqtt_of(i as int);
                        }
                    }
                    r.push(m);
                    proof {
                        assert(r@.take(before.len() as int) =~= before);
                    }
                },
            }
            proof {
                self.lemma_list_step(before, r@, i as int);
            }
            i = i + 1;
        }
        r
    }

    /// Adding subscription `n` keeps the listing with the highest QoS.
    proof fn lemma_list_qos_step(&self, before: Seq<(String, QoS)>, after: Seq<(String, QoS)>, n: int)
        requires
            0 <= n < self.spec_subs().len(),
            self.lists_patterns_qos(before, n),
            ({
                let m = self.mqtt_of(n);
                let q = self.spec_subs()[n].1.1;
                ||| exists|j: int|
                    0 <= j < before.len() && before[j].0@ == m && qos_level(q) <= qos_level(before[j].1)
                        && after == before
                ||| exists|j: int|
                    0 <= j < before.len() && before[j].0@ == m && qos_level(q) > qos_level(before[j].1)
                        && after.len() == before.len() && after[j].0@ == m && after[j].1 == q && forall|k: int|
                        0 <= k < before.len() && k != j ==> after[k] == before[k]
                ||| (forall|j: int| 0 <= j < before.len() ==> before[j].0@ != m) && after.len() == before.len()
                    + 1 && after.take(before.len() as int) == before && after[before.len() as int].0@ == m
                    && after[before.len() as int].1 == q
            }),
        ensures
            self.lists_patterns_qos(after, n + 1),
    {
        let m = self.mqtt_of(n);
        let q = self.spec_subs()[n].1.1;
        if exists|j: int|
            0 <= j < before.len() && before[j].0@ == m && qos_level(q) <= qos_level(before[j].1) && after
                == before {
            let j = choose|j: int|
                0 <= j < before.len() && before[j].0@ == m && qos_level(q) <= qos_level(before[j].1) && after
                    == before;
            assert forall|i: int| 0 <= i < n + 1 implies #[trigger] pattern_listed_qos(after, self.mqtt_of(i), self.spec_subs()[i].1.1) by {
                if i < n {
                    assert(pattern_listed_qos(before, self.mqtt_of(i), self.spec_subs()[i].1.1));
                }
            }
            assert forall|k: int| 0 <= k < after.len() implies exists|i: int|
                0 <= i < n + 1 && (#[trigger] after[k]).0@ == #[trigger] self.mqtt_of(i) && after[k].1
                    == self.spec_subs()[i].1.1 by {
                let i = choose|i: int|
                    0 <= i < n && (#[trigger] before[k]).0@ == #[trigger] self.mqtt_of(i) && before[k].1
                        == self.spec_subs()[i].1.1;
            }
        } else if exists|j: int|
            0 <= j < before.len() && before[j].0@ == m && qos_level(q) > qos_level(before[j].1)
                && after.len() == before.len() && after[j].0@ == m && after[j].1 == q && forall|k: int|
                0 <= k < before.len() && k != j ==> after[k] == before[k] {
            let j = choose|j: int|
                0 <= j < before.len() && before[j].0@ == m && qos_level(q) > qos_level(before[j].1)
                    && after.len() == before.len() && after[j].0@ == m && after[j].1 == q && forall|k: int|
                    0 <= k < before.len() && k != j ==> after[k] == before[k];
            assert forall|i: int| 0 <= i < n + 1 implies #[trigger] pattern_listed_qos(after, self.mqtt_of(i), self.spec_subs()[i].1.1) by {
                if i < n {
                    assert(pattern_listed_qos(before, self.mqtt_of(i), self.spec_subs()[i].1.1));
                    let k = choose|k: int|
                        0 <= k < before.len() && (#[trigger] before[k]).0@ == self.mqtt_of(i) && qos_level(self.spec_subs()[i].1.1)
                            <= qos_level(before[k].1);
                    if k != j {
                        assert(after[k] == before[k]);
                    } else {
                        assert(after[j].0@ == self.mqtt_of(i));
                    }
                } else {
                    assert(after[j].0@ == self.mqtt_of(i));
                }
            }
            assert forall|k: int| 0 <= k < after.len() implies exists|i: int|
                0 <= i < n + 1 && (#[trigger] after[k]).0@ == #[trigger] self.mqtt_of(i) && after[k].1
                    == self.spec_subs()[i].1.1 by {
                if k == j {
                    assert(after[k].0@ == self.mqtt_of(n));
                } else {
                    assert(after[k] == before[k]);
                    let i = choose|i: int|
                        0 <= i < n && (#[trigger] before[k]).0@ == #[trigger] self.mqtt_of(i) && before[k].1
                            == self.spec_subs()[i].1.1;
                }
            }
            assert forall|a: int, b: int| 0 <= a < b < after.len() implies (#[trigger] after[a]).0@ != (#[trigger] after[b]).0@ by {
                if a != j && b != j {
                    assert(after[a] == before[a]);
                    assert(after[b] == before[b]);
                } else if a == j {
                    assert(after[b] == before[b]);
                } else {
                    assert(after[a] == before[a]);
                }
            }
        } else {
            assert forall|a: int| 0 <= a < before.len() implies #[trigger] after[a] == before[a] by {
                assert(after.take(before.len() as int)[a] == after[a]);
            }
            assert forall|i: int| 0 <= i < n + 1 implies #[trigger] pattern_listed_qos(after, self.mqtt_of(i), self.spec_subs()[i].1.1) by {
                if i < n {
                    assert(pattern_listed_qos(before, self.mqtt_of(i), self.spec_subs()[i].1.1));
                    let k = choose|k: int|
                        0 <= k < before.len() && (#[trigger] before[k]).0@ == self.mqtt_of(i) && qos_level(self.spec_subs()[i].1.1)
                            <= qos_level(before[k].1);
                    assert(after[k] == before[k]);
                } else {
                    assert(after[before.len() as int].0@ == self.mqtt_of(i));
                }
            }
            assert forall|k: int| 0 <= k < after.len() implies exists|i: int|
                0 <= i < n + 1 && (#[trigger] after[k]).0@ == #[trigger] self.mqtt_of(i) && after[k].1
                    == self.spec_subs()[i].1.1 by {
                if k < before.len() {
                    assert(after[k] == before[k]);
                    let i = choose|i: int|
                        0 <= i < n && (#[trigger] before[k]).0@ == #[trigger] self.mqtt_of(i) && before[k].1
                            == self.spec_subs()[i].1.1;
                } else {
                    assert(after[k].0@ == self.mqtt_of(n));
                }
            }
            assert forall|a: int, b: int| 0 <= a < b < after.len() implies (#[trigger] after[a]).0@ != (#[trigger] after[b]).0@ by {
                if b < before.len() {
                    assert(after[a] == before[a]);
                    assert(after[b] == before[b]);
                } else {
                    assert(after[a] == before[a]);
                }
            }
        }
    }

    /// Get all active topic patterns with their maximum QoS: each pattern
    /// once, with the highest QoS among its subscriptions.
    pub fn get_topics_for_resubscribe(&self) -> (r: Vec<(String, QoS)>)
        ensures
            self.lists_patterns_qos(r@, self.spec_subs().len() as int),
    {
        let mut r: Vec<(String, QoS)> = Vec::new();
        let mut i: usize = 0;
        while i < self.subscriptions.entry_count()
            invariant
                0 <= i <= self.spec_subs().len(),
                self.lists_patterns_qos(r@, i as int),
            decreases self.spec_subs().len() - i,
        {
            let e = self.subscriptions.entry(i);
            let q = e.1.1;
            let m = e.1.0.mqtt_pattern();
            let ghost before = r@;
            proof {
                assert(m@ == self.mqtt_of(i as int));
                assert(q == self.spec_subs()[i as int].1.1);
            }
            match find_text_pair(&r, &m) {
                Some(j) => {
                    if q.is_higher_than(r[j].1) {
                        let name = r[j].0.clone();
                        r.set(j, (name, q));
                        proof {
                            assert(r@[j as int].0@ == m@);
                            assert(forall|k: int| 0 <= k < before.len() && k != j ==> r@[k] == before[k]);
                        }
                    } else {
                        proof {
                            assert(before[j as int].0@ == m@ && r@ == before);
                        }
                    }
                },
                None => {
                    r.push((m, q));
                    proof {
                        assert(r@.take(before.len() as int) =~= before);
                    }
                },
            }
            proof {
                self.lemma_list_qos_step(before, r@, i as int);
            }
            i = i + 1;
        }
        r
    }
}

/// Some text of `r` is `m`.
pub open spec fn pattern_listed(r: Seq<String>, m: Seq<char>) -> bool {
    exists|j: int| 0 <= j < r.len() && (#[trigger] r[j])@ == m
}

/// Some pair of `r` has text `m` and a QoS at least `q`.
pub open spec fn pattern_listed_qos(r: Seq<(String, QoS)>, m: Seq<char>, q: QoS) -> bool {
    exists|j: int| 0 <= j < r.len() && (#[trigger] r[j]).0@ == m && qos_level(q) <= qos_level(r[j].1)
}


/// A subscription that was just added is routed every topic its pattern
/// matches, with the value it was added with; every earlier subscription is
/// routed exactly as before.
pub proof fn law_added_subscription_is_routed<T>(
    before: TopicRouter<T>,
    after: TopicRouter<T>,
    id: SubscriptionId,
    topic: TopicPatternPath,
    qos: QoS,
    value: T,
    levels: Seq<Seq<char>>,
)
    requires
        before.inv(),
        after.inv(),
        !before.has_sub(id),
        after.spec_subs() == before.spec_subs().push((id, (topic, qos))),
        after.value_of(id) == Some(value),
        forall|x: SubscriptionId| before.has_sub(x) ==> #[trigger] after.value_of(x) == before.value_of(x),
    ensures
        topic_matches(topic.spec_items(), levels) ==> after.routes_to(levels, id, (topic, qos), value),
        forall|x: SubscriptionId, sub: Subscription, v: T|
            before.has_sub(x) ==> (#[trigger] after.routes_to(levels, x, sub, v) == before.routes_to(
                levels,
                x,
                sub,
                v,
            )),
{
    let n = before.spec_subs().len();
    after.lemma_sub_of(n as int);
    assert forall|x: SubscriptionId, sub: Subscription, v: T|
        before.has_sub(x) implies (#[trigger] after.routes_to(levels, x, sub, v) == before.routes_to(
            levels,
            x,
            sub,
            v,
        )) by {
        let i = before.sub_index(x);
        before.lemma_sub_of(i);
        assert(after.spec_subs()[i] == before.spec_subs()[i]);
        after.lemma_sub_of(i);
    }
}

/// A subscription that was removed is routed no topic any more; every other
/// subscription is routed exactly as before.
pub proof fn law_removed_subscription_is_not_routed<T>(
    before: TopicRouter<T>,
    after: TopicRouter<T>,
    id: SubscriptionId,
    levels: Seq<Seq<char>>,
)
    requires
        !after.has_sub(id),
        forall|x: SubscriptionId| x != id ==> #[trigger] after.sub_of(x) == before.sub_of(x),
        forall|x: SubscriptionId| x != id ==> #[trigger] after.value_of(x) == before.value_of(x),
    ensures
        forall|sub: Subscription, v: T| !(#[trigger] after.routes_to(levels, id, sub, v)),
        forall|x: SubscriptionId, sub: Subscription, v: T|
            x != id ==> (#[trigger] after.routes_to(levels, x, sub, v) == before.routes_to(
                levels,
                x,
                sub,
                v,
            )),
{
}


/// The first subscription to a pattern shape always has to be sent to the
/// broker, whatever its QoS.
pub proof fn law_first_subscription_raises_qos<T>(router: TopicRouter<T>, items: Seq<ItemView>, qos: QoS)
    requires
        router.shape_unused(items),
    ensures
        router.raises_qos(items, qos),
{
}


/// Removing a subscription that was just added routes every topic exactly
/// as before it was added.
pub proof fn law_add_then_remove_restores_routing<T>(
    before: TopicRouter<T>,
    mid: TopicRouter<T>,
    after: TopicRouter<T>,
    id: SubscriptionId,
    topic: TopicPatternPath,
    qos: QoS,
    value: T,
    levels: Seq<Seq<char>>,
)
    requires
        before.inv(),
        mid.inv(),
        !before.has_sub(id),
        mid.spec_subs() == before.spec_subs().push((id, (topic, qos))),
        mid.value_of(id) == Some(value),
        forall|x: SubscriptionId| before.has_sub(x) ==> #[trigger] mid.value_of(x) == before.value_of(x),
        !after.has_sub(id),
        forall|x: SubscriptionId| x != id ==> #[trigger] after.has_sub(x) == mid.has_sub(x),
        forall|x: SubscriptionId| x != id ==> #[trigger] after.sub_of(x) == mid.sub_of(x),
        forall|x: SubscriptionId| x != id ==> #[trigger] after.value_of(x) == mid.value_of(x),
    ensures
        forall|x: SubscriptionId, sub: Subscription, v: T|
            #[trigger] after.routes_to(levels, x, sub, v) == before.routes_to(levels, x, sub, v),
{
    law_added_subscription_is_routed(before, mid, id, topic, qos, value, levels);
    assert forall|x: SubscriptionId, sub: Subscription, v: T|
        #[trigger] after.routes_to(levels, x, sub, v) == before.routes_to(levels, x, sub, v) by {
        if x != id && !before.has_sub(x) {
            assert(!mid.has_sub(x)) by {
                if mid.has_sub(x) {
                    let i = choose|i: int| 0 <= i < mid.spec_subs().len() && (#[trigger] mid.spec_subs()[i]).0 == x;
                    if i < before.spec_subs().len() {
                        assert(before.spec_subs()[i] == mid.spec_subs()[i]);
                    }
                }
            }
        }
    }
}

/// Unsubscribing a subscription that was just made succeeds, gives back its
/// pattern and leaves the list of subscriptions, and every other
/// subscription with its value, as before the subscribe; unsubscribing it a
/// second time fails with "not found" and changes nothing.
pub proof fn law_subscribe_unsubscribe_round_trip<T>(
    before: TopicRouter<T>,
    mid: TopicRouter<T>,
    after: TopicRouter<T>,
    again: TopicRouter<T>,
    id: SubscriptionId,
    topic: TopicPatternPath,
    qos: QoS,
    first: Result<(bool, TopicPatternPath), TopicRouterError>,
    second: Result<(bool, TopicPatternPath), TopicRouterError>,
)
    requires
        before.inv(),
        mid.inv(),
        !before.has_sub(id),
        mid.spec_subs() == before.spec_subs().push((id, (topic, qos))),
        forall|x: SubscriptionId| before.has_sub(x) ==> #[trigger] mid.value_of(x) == before.value_of(x),
        match first {
            Ok((now_empty, t)) => {
                &&& mid.has_sub(id)
                &&& mid.sub_of(id)->Some_0.0 == t
                &&& after.spec_subs() == mid.spec_subs().remove(mid.sub_index(id))
                &&& now_empty == (after.spec_subs().len() == 0)
            },
            Err(e) => {
                &&& !mid.has_sub(id)
                &&& e@ == RouterErrorView::SubscriptionNotFound(id)
                &&& after.spec_subs() == mid.spec_subs()
            },
        },
        forall|x: SubscriptionId| x != id ==> #[trigger] after.value_of(x) == mid.value_of(x),
        match second {
            Ok((now_empty, t)) => {
                &&& after.has_sub(id)
                &&& after.sub_of(id)->Some_0.0 == t
                &&& again.spec_subs() == after.spec_subs().remove(after.sub_index(id))
                &&& now_empty == (again.spec_subs().len() == 0)
            },
            Err(e) => {
                &&& !after.has_sub(id)
                &&& e@ == RouterErrorView::SubscriptionNotFound(id)
                &&& again.spec_subs() == after.spec_subs()
            },
        },
    ensures
        first matches Ok((now_empty, t)) && t == topic && now_empty == (before.spec_subs().len() == 0),
        after.spec_subs() == before.spec_subs(),
        forall|x: SubscriptionId| before.has_sub(x) ==> #[trigger] after.value_of(x) == before.value_of(x),
        second matches Err(e) && e@ == RouterErrorView::SubscriptionNotFound(id),
        again.spec_subs() == after.spec_subs(),
{
    let n = before.spec_subs().len() as int;
    mid.lemma_sub_of(n);
    assert(mid.spec_subs()[n] == (id, (topic, qos)));
    assert(mid.has_sub(id));
    assert(mid.sub_index(id) == n);
    assert(mid.spec_subs().remove(n) =~= before.spec_subs());
    assert(after.spec_subs() == before.spec_subs());
    assert(!after.has_sub(id));
    assert forall|x: SubscriptionId| before.has_sub(x) implies #[trigger] after.value_of(x) == before.value_of(x) by {
        assert(x != id);
    }
}

} // verus!
