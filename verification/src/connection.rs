//! The decisions of the client's connection: the bootstrap phase until the
//! broker accepts the connection, and the event loop that follows, with its
//! error counting, back-off and termination. The loop itself (polling the
//! network, sleeping, publishing states) is driven by the caller, which
//! hands each event to [`EventLoopState::step`] and performs the action that
//! comes back.
use vstd::prelude::*;

use crate::cache_strategy::CacheCapacity;

verus! {

/// The number of consecutive failed polls after which the loop gives up.
pub const MAX_CONSECUTIVE_ERRORS: u32 = 10;

/// The first retry delay, in milliseconds.
pub const INITIAL_RETRY_DELAY_MILLIS: u64 = 100;

/// The longest retry delay, in milliseconds.
pub const MAX_RETRY_DELAY_MILLIS: u64 = 30000;

/// Why the connection ended for good.
#[derive(Debug, Clone, Copy, PartialEq, Eq, Structural)]
pub enum DisconnectReason {
    /// The broker sent a Disconnect packet.
    BrokerDisconnected,
    /// The client sent a Disconnect packet (shutdown).
    CleanShutdown,
    /// Too many consecutive errors.
    MaxErrorsExceeded { errors: u32 },
}

/// The observable state of the connection.
#[derive(Debug, Clone, Copy, PartialEq, Eq, Structural)]
pub enum ConnectionState {
    /// Connected to the broker.
    Connected { session_present: bool },
    /// Reconnecting after consecutive failed polls.
    Reconnecting { attempt: u32 },
    /// Terminated for good.
    Disconnected { reason: DisconnectReason },
}

/// What one poll of the event loop produced.
#[derive(Debug, Clone, Copy, PartialEq, Eq, Structural)]
pub enum LoopEvent {
    /// An incoming CONNACK; `success` tells whether the broker accepted.
    ConnAck { session_present: bool, success: bool },
    /// An incoming message.
    Publish,
    /// An incoming Disconnect packet.
    IncomingDisconnect,
    /// An outgoing Disconnect packet.
    OutgoingDisconnect,
    /// Any other notification.
    Other,
    /// The poll failed.
    PollError,
}

/// What the loop must do for an event.
#[derive(Debug, Clone, Copy, PartialEq, Eq, Structural)]
pub enum LoopAction {
    /// Resubscribe to every topic, then publish the state.
    ResubscribeAndPublish(ConnectionState),
    /// Publish the state.
    Publish(ConnectionState),
    /// Hand the message to the subscription manager.
    Dispatch,
    /// Nothing to do.
    Continue,
    /// Publish the state, then wait before polling again.
    Backoff { state: ConnectionState, delay_millis: u64 },
    /// Stop: publish `Disconnected` with the reason and close the subscribers.
    Terminate(DisconnectReason),
}

/// Two to the power `n`.
pub open spec fn pow2(n: nat) -> nat
    decreases n,
{
    if n == 0 {
        1
    } else {
        2 * pow2((n - 1) as nat)
    }
}

/// The delay before the next poll after `errors` consecutive failures
/// (at least one): 100 ms doubled for each failure after the first (at most
/// ten doublings), capped at 30 s.
pub open spec fn backoff_delay(errors: nat) -> nat {
    let doublings: nat = if errors - 1 <= 10 {
        (errors - 1) as nat
    } else {
        10
    };
    let d: nat = (INITIAL_RETRY_DELAY_MILLIS as nat) * pow2(doublings);
    if d <= MAX_RETRY_DELAY_MILLIS {
        d
    } else {
        MAX_RETRY_DELAY_MILLIS as nat
    }
}

/// The retry delay in milliseconds after `errors` consecutive failures.
pub fn retry_delay_millis(errors: u32) -> (r: u64)
    requires
        errors >= 1,
    ensures
        r == backoff_delay(errors as nat),
{
    let doublings: u32 = if errors - 1 <= 10 {
        errors - 1
    } else {
        10
    };
    let mut d: u64 = INITIAL_RETRY_DELAY_MILLIS;
    let mut i: u32 = 0;
    proof {
        assert(pow2(10) == 1024) by {
            reveal_with_fuel(pow2, 11);
        }
    }
    while i < doublings
        invariant
            0 <= i <= doublings <= 10,
            d == INITIAL_RETRY_DELAY_MILLIS * pow2(i as nat),
            pow2(10) == 1024,
        decreases doublings - i,
    {
        proof {
            lemma_pow2_mono(i as nat, 10);
        }
        d = d * 2;
        i = i + 1;
    }
    if d <= MAX_RETRY_DELAY_MILLIS {
        d
    } else {
        MAX_RETRY_DELAY_MILLIS
    }
}

/// Powers of two grow with the exponent.
proof fn lemma_pow2_mono(a: nat, b: nat)
    requires
        a <= b,
    ensures
        pow2(a) <= pow2(b),
    decreases b,
{
    if a < b {
        lemma_pow2_mono(a, (b - 1) as nat);
    }
}

/// The counters of the event loop.
///
/// `error_count` drives the back-off and the termination; it is reset only by
/// real progress (a message or another notification), not by a bare
/// reconnect. `reconnect_attempt` is the attempt shown while reconnecting; it
/// is reset by any successful poll.
#[derive(Debug, Clone, Copy, PartialEq, Eq, Structural)]
pub struct EventLoopState {
    /// Consecutive failed polls since the last real progress.
    pub error_count: u32,
    /// Consecutive failed polls since the last successful poll.
    pub reconnect_attempt: u32,
}

impl EventLoopState {
    /// The counters of a running loop: fewer errors than the limit, and no
    /// more reconnect attempts than errors.
    pub open spec fn running(&self) -> bool {
        &&& self.error_count < MAX_CONSECUTIVE_ERRORS
        &&& self.reconnect_attempt <= self.error_count
    }

    /// The counters of a fresh loop.
    pub fn new() -> (r: Self)
        ensures
            r.error_count == 0,
            r.reconnect_attempt == 0,
            r.running(),
    {
        EventLoopState { error_count: 0, reconnect_attempt: 0 }
    }

    /// Decides what to do for one event and updates the counters.
    pub fn step(&mut self, event: LoopEvent) -> (action: LoopAction)
        requires
            old(self).running(),
        ensures
            !(action is Terminate) ==> final(self).running(),
            match event {
                LoopEvent::ConnAck { session_present, success: true } => {
                    &&& final(self).error_count == old(self).error_count
                    &&& final(self).reconnect_attempt == 0
                    &&& action == if session_present {
                        LoopAction::Publish(ConnectionState::Connected { session_present: true })
                    } else {
                        LoopAction::ResubscribeAndPublish(
                            ConnectionState::Connected { session_present: false },
                        )
                    }
                },
                LoopEvent::Publish => {
                    &&& final(self).error_count == 0
                    &&& final(self).reconnect_attempt == 0
                    &&& action == LoopAction::Dispatch
                },
                LoopEvent::IncomingDisconnect => {
                    &&& *final(self) == *old(self)
                    &&& action == LoopAction::Terminate(DisconnectReason::BrokerDisconnected)
                },
                LoopEvent::OutgoingDisconnect => {
                    &&& *final(self) == *old(self)
                    &&& action == LoopAction::Terminate(DisconnectReason::CleanShutdown)
                },
                LoopEvent::ConnAck { session_present: _, success: false } | LoopEvent::Other => {
                    &&& final(self).error_count == 0
                    &&& final(self).reconnect_attempt == 0
                    &&& action == LoopAction::Continue
                },
                LoopEvent::PollError => {
                    &&& final(self).error_count == old(self).error_count + 1
                    &&& final(self).reconnect_attempt == old(self).reconnect_attempt + 1
                    &&& action == if final(self).error_count >= MAX_CONSECUTIVE_ERRORS {
                        LoopAction::Terminate(
                            DisconnectReason::MaxErrorsExceeded { errors: final(self).error_count },
                        )
                    } else {
                        LoopAction::Backoff {
                            state: ConnectionState::Reconnecting {
                                attempt: final(self).reconnect_attempt,
                            },
                            delay_millis: backoff_delay(final(self).error_count as nat) as u64,
                        }
                    }
                },
            },
    {
        match event {
            LoopEvent::ConnAck { session_present, success } => {
                if success {
                    self.reconnect_attempt = 0;
                    if session_present {
                        LoopAction::Publish(ConnectionState::Connected { session_present: true })
                    } else {
                        LoopAction::ResubscribeAndPublish(
                            ConnectionState::Connected { session_present: false },
                        )
                    }
                } else {
                    self.error_count = 0;
                    self.reconnect_attempt = 0;
                    LoopAction::Continue
                }
            },
            LoopEvent::Publish => {
                self.error_count = 0;
                self.reconnect_attempt = 0;
                LoopAction::Dispatch
            },
            LoopEvent::IncomingDisconnect => LoopAction::Terminate(
                DisconnectReason::BrokerDisconnected,
            ),
            LoopEvent::OutgoingDisconnect => LoopAction::Terminate(DisconnectReason::CleanShutdown),
            LoopEvent::Other => {
                self.error_count = 0;
                self.reconnect_attempt = 0;
                LoopAction::Continue
            },
            LoopEvent::PollError => {
                self.error_count = self.error_count + 1;
                self.reconnect_attempt = self.reconnect_attempt + 1;
                if self.error_count >= MAX_CONSECUTIVE_ERRORS {
                    LoopAction::Terminate(
                        DisconnectReason::MaxErrorsExceeded { errors: self.error_count },
                    )
                } else {
                    let delay_millis = retry_delay_millis(self.error_count);
                    LoopAction::Backoff {
                        state: ConnectionState::Reconnecting { attempt: self.reconnect_attempt },
                        delay_millis,
                    }
                }
            },
        }
    }
}

/// What one poll produced while the connection is being established.
#[derive(Debug, Clone, Copy, PartialEq, Eq, Structural)]
pub enum BootstrapEvent {
    /// An incoming CONNACK; `success` tells whether the broker accepted.
    ConnAck { session_present: bool, success: bool },
    /// Any other notification.
    Other,
    /// The poll failed.
    PollError,
}

/// The outcome of one bootstrap poll.
#[derive(Debug, Clone, Copy, PartialEq, Eq, Structural)]
pub enum BootstrapDecision {
    /// The broker accepted: the connection is established.
    Established { session_present: bool },
    /// The broker refused the connection.
    Rejected,
    /// The poll failed: the connection cannot be established.
    Failed,
    /// Keep polling.
    Continue,
}

/// Decides the bootstrap phase for one event: the first CONNACK settles it,
/// a failed poll ends it, anything else is waited out.
pub fn bootstrap_step(event: BootstrapEvent) -> (r: BootstrapDecision)
    ensures
        r == match event {
            BootstrapEvent::ConnAck { session_present, success } => if success {
                BootstrapDecision::Established { session_present }
            } else {
                BootstrapDecision::Rejected
            },
            BootstrapEvent::Other => BootstrapDecision::Continue,
            BootstrapEvent::PollError => BootstrapDecision::Failed,
        },
{
    match event {
        BootstrapEvent::ConnAck { session_present, success } => {
            if success {
                BootstrapDecision::Established { session_present }
            } else {
                BootstrapDecision::Rejected
            }
        },
        BootstrapEvent::Other => BootstrapDecision::Continue,
        BootstrapEvent::PollError => BootstrapDecision::Failed,
    }
}

/// Client-level performance and behavior settings
#[derive(Debug, Clone, Copy, PartialEq, Eq, Structural)]
pub struct ClientSettings {
    /// Size of the topic path cache (must be > 0)
    pub topic_cache_size: usize,
    /// Capacity of the event loop channel
    pub event_loop_capacity: usize,
    /// Capacity of the command channel for subscription manager
    pub command_channel_capacity: usize,
    /// Capacity of the unsubscribe channel
    pub unsubscribe_channel_capacity: usize,
}

impl Default for ClientSettings {
    fn default() -> (r: Self)
        ensures
            r.topic_cache_size == 100,
            r.event_loop_capacity == 10,
            r.command_channel_capacity == 100,
            r.unsubscribe_channel_capacity == 10,
    {
        ClientSettings {
            topic_cache_size: 100,
            event_loop_capacity: 10,
            command_channel_capacity: 100,
            unsubscribe_channel_capacity: 10,
        }
    }
}

impl ClientSettings {
    /// The capacity of the topic path cache: the configured size, which must
    /// be greater than 0; otherwise the message of the configuration error.
    pub fn topic_cache_capacity(&self) -> (r: Result<CacheCapacity, &'static str>)
        ensures
            match r {
                Ok(c) => self.topic_cache_size > 0 && c.spec_get() == self.topic_cache_size,
                Err(msg) => self.topic_cache_size == 0 && msg@
                    == "topic_cache_size must be greater than 0"@,
            },
    {
        match CacheCapacity::new(self.topic_cache_size) {
            Some(c) => Ok(c),
            None => Err("topic_cache_size must be greater than 0"),
        }
    }
}

/// The retry delay is at least the initial delay, at most the longest
/// delay, and never shrinks as failures accumulate.
pub proof fn law_backoff_bounded_and_growing(e1: nat, e2: nat)
    requires
        1 <= e1 <= e2,
    ensures
        INITIAL_RETRY_DELAY_MILLIS <= backoff_delay(e1) <= MAX_RETRY_DELAY_MILLIS,
        backoff_delay(e1) <= backoff_delay(e2),
{
    let d1: nat = if e1 - 1 <= 10 { (e1 - 1) as nat } else { 10 };
    let d2: nat = if e2 - 1 <= 10 { (e2 - 1) as nat } else { 10 };
    lemma_pow2_mono(0, d1);
    lemma_pow2_mono(d1, d2);
    assert(pow2(0) == 1);
    assert((INITIAL_RETRY_DELAY_MILLIS as nat) * pow2(d1) <= (INITIAL_RETRY_DELAY_MILLIS as nat) * pow2(d2)) by (nonlinear_arith)
        requires
            pow2(d1) <= pow2(d2),
    ;
    assert((INITIAL_RETRY_DELAY_MILLIS as nat) * 1 <= (INITIAL_RETRY_DELAY_MILLIS as nat) * pow2(d1)) by (nonlinear_arith)
        requires
            1 <= pow2(d1),
    ;
}

} // verus!
