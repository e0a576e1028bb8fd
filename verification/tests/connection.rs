use mqtt_typed_client::connection::{
    bootstrap_step, retry_delay_millis, BootstrapDecision, BootstrapEvent, ClientSettings,
    ConnectionState, DisconnectReason, EventLoopState, LoopAction, LoopEvent,
};

#[test]
fn ten_consecutive_errors_terminate_the_loop() {
    let mut s = EventLoopState::new();
    for n in 1..10u32 {
        match s.step(LoopEvent::PollError) {
            LoopAction::Backoff { state, delay_millis } => {
                assert_eq!(state, ConnectionState::Reconnecting { attempt: n });
                assert_eq!(delay_millis, 100u64 << (n - 1));
            }
            other => panic!("unexpected {:?}", other),
        }
    }
    assert_eq!(
        s.step(LoopEvent::PollError),
        LoopAction::Terminate(DisconnectReason::MaxErrorsExceeded { errors: 10 })
    );
}

#[test]
fn a_reconnect_resets_only_the_attempt() {
    let mut s = EventLoopState::new();
    s.step(LoopEvent::PollError);
    s.step(LoopEvent::PollError);
    let a = s.step(LoopEvent::ConnAck { session_present: false, success: true });
    assert_eq!(
        a,
        LoopAction::ResubscribeAndPublish(ConnectionState::Connected { session_present: false })
    );
    assert_eq!(s.error_count, 2);
    assert_eq!(s.reconnect_attempt, 0);
    match s.step(LoopEvent::PollError) {
        LoopAction::Backoff { state, delay_millis } => {
            assert_eq!(state, ConnectionState::Reconnecting { attempt: 1 });
            assert_eq!(delay_millis, 400);
        }
        other => panic!("unexpected {:?}", other),
    }
}

#[test]
fn progress_resets_both_counters() {
    let mut s = EventLoopState::new();
    s.step(LoopEvent::PollError);
    assert_eq!(s.step(LoopEvent::Publish), LoopAction::Dispatch);
    assert_eq!(s, EventLoopState { error_count: 0, reconnect_attempt: 0 });
    s.step(LoopEvent::PollError);
    assert_eq!(s.step(LoopEvent::Other), LoopAction::Continue);
    assert_eq!(s.error_count, 0);
    assert_eq!(
        s.step(LoopEvent::ConnAck { session_present: true, success: true }),
        LoopAction::Publish(ConnectionState::Connected { session_present: true })
    );
}

#[test]
fn disconnect_packets_end_the_loop() {
    let mut s = EventLoopState::new();
    assert_eq!(
        s.step(LoopEvent::IncomingDisconnect),
        LoopAction::Terminate(DisconnectReason::BrokerDisconnected)
    );
    assert_eq!(
        s.step(LoopEvent::OutgoingDisconnect),
        LoopAction::Terminate(DisconnectReason::CleanShutdown)
    );
}

#[test]
fn retry_delay_doubles_and_is_capped() {
    assert_eq!(retry_delay_millis(1), 100);
    assert_eq!(retry_delay_millis(2), 200);
    assert_eq!(retry_delay_millis(9), 25600);
    assert_eq!(retry_delay_millis(11), 30000);
    assert_eq!(retry_delay_millis(50), 30000);
}

#[test]
fn bootstrap_waits_for_the_connack() {
    assert_eq!(bootstrap_step(BootstrapEvent::Other), BootstrapDecision::Continue);
    assert_eq!(
        bootstrap_step(BootstrapEvent::ConnAck { session_present: true, success: true }),
        BootstrapDecision::Established { session_present: true }
    );
    assert_eq!(
        bootstrap_step(BootstrapEvent::ConnAck { session_present: false, success: false }),
        BootstrapDecision::Rejected
    );
    assert_eq!(bootstrap_step(BootstrapEvent::PollError), BootstrapDecision::Failed);
}

#[test]
fn settings_defaults_and_cache_size_check() {
    let s = ClientSettings::default();
    assert_eq!(s.topic_cache_size, 100);
    assert_eq!(s.event_loop_capacity, 10);
    assert_eq!(s.command_channel_capacity, 100);
    assert_eq!(s.unsubscribe_channel_capacity, 10);
    assert_eq!(s.topic_cache_capacity().unwrap().get(), 100);
    let zero = ClientSettings { topic_cache_size: 0, ..s };
    assert_eq!(
        zero.topic_cache_capacity().unwrap_err(),
        "topic_cache_size must be greater than 0"
    );
}
