use kommitted::cluster_status::{ClusterStatus, ClusterStatusEmitter};
use kommitted::kafka_types::{Broker, PartitionStatus, TopicPartitionsStatus};
use kommitted::emitter::{
    Emitter, EmitterAction, EmitterEvent, EmitterNotice, EmitterState, EmitterTimings,
};

fn timings() -> EmitterTimings {
    EmitterTimings {
        fetch_interval_millis: 1_000,
        fetch_timeout_millis: 300,
        send_timeout_millis: 100,
        channel_size: 1,
    }
}

#[test]
fn channel_saturation_drop() {
    let mut e = Emitter::new(timings());
    assert_eq!(e.action(), EmitterAction::Fetch { timeout_millis: 300 });
    // the one slot is taken: the fetch comes back to a full channel
    let notice = e.on_event(EmitterEvent::Fetched { channel_capacity: 0 });
    assert_eq!(notice, Some(EmitterNotice::ChannelSaturated));
    assert_eq!(e.state, EmitterState::Sending { saturated: true });
    assert_eq!(e.action(), EmitterAction::Send { timeout_millis: 100 });
    // the send times out: the snapshot is dropped and the loop goes on
    let notice = e.on_event(EmitterEvent::SendFailed);
    assert_eq!(notice, Some(EmitterNotice::SnapshotDropped));
    assert_eq!(e.state, EmitterState::Waiting);
    assert_eq!(e.action(), EmitterAction::AwaitTick { interval_millis: 1_000 });
    assert_eq!(e.on_event(EmitterEvent::Ticked), None);
    assert_eq!(e.state, EmitterState::Fetching);
    assert!(!e.is_stopped());
}

#[test]
fn emitter_round_without_trouble() {
    let mut e = Emitter::new(timings());
    assert_eq!(e.on_event(EmitterEvent::Fetched { channel_capacity: 1 }), None);
    assert_eq!(e.state, EmitterState::Sending { saturated: false });
    assert_eq!(e.on_event(EmitterEvent::Sent), None);
    assert_eq!(e.state, EmitterState::Waiting);
    assert_eq!(e.on_event(EmitterEvent::Ticked), None);
    assert_eq!(e.state, EmitterState::Fetching);
}

#[test]
fn failed_fetch_waits_for_the_next_tick() {
    let mut e = Emitter::new(timings());
    assert_eq!(e.on_event(EmitterEvent::FetchFailed), Some(EmitterNotice::FetchFailed));
    assert_eq!(e.state, EmitterState::Waiting);
    assert_eq!(e.on_event(EmitterEvent::Ticked), None);
    assert_eq!(e.action(), EmitterAction::Fetch { timeout_millis: 300 });
}

#[test]
fn shutdown_ends_the_loop_from_anywhere() {
    for events in [
        vec![],
        vec![EmitterEvent::Fetched { channel_capacity: 1 }],
        vec![EmitterEvent::Fetched { channel_capacity: 0 }],
        vec![EmitterEvent::FetchFailed],
    ] {
        let mut e = Emitter::new(timings());
        for event in events {
            e.on_event(event);
        }
        assert_eq!(e.on_event(EmitterEvent::Shutdown), Some(EmitterNotice::ShuttingDown));
        assert!(e.is_stopped());
        assert_eq!(e.action(), EmitterAction::Stop);
        for event in [
            EmitterEvent::Fetched { channel_capacity: 1 },
            EmitterEvent::FetchFailed,
            EmitterEvent::Sent,
            EmitterEvent::SendFailed,
            EmitterEvent::Ticked,
            EmitterEvent::Shutdown,
        ] {
            assert_eq!(e.on_event(event), None);
            assert!(e.is_stopped());
        }
    }
}

#[test]
fn event_out_of_turn_changes_nothing() {
    let mut e = Emitter::new(timings());
    assert_eq!(e.on_event(EmitterEvent::Ticked), None);
    assert_eq!(e.on_event(EmitterEvent::Sent), None);
    assert_eq!(e.on_event(EmitterEvent::SendFailed), None);
    assert_eq!(e.state, EmitterState::Fetching);
    e.on_event(EmitterEvent::Fetched { channel_capacity: 1 });
    assert_eq!(e.on_event(EmitterEvent::Ticked), None);
    assert_eq!(e.on_event(EmitterEvent::FetchFailed), None);
    assert_eq!(e.on_event(EmitterEvent::Fetched { channel_capacity: 0 }), None);
    assert_eq!(e.state, EmitterState::Sending { saturated: false });
    e.on_event(EmitterEvent::Sent);
    assert_eq!(e.on_event(EmitterEvent::Sent), None);
    assert_eq!(e.on_event(EmitterEvent::Fetched { channel_capacity: 0 }), None);
    assert_eq!(e.state, EmitterState::Waiting);
    assert_eq!(e.timings, timings());
}

#[test]
fn cluster_status_emitter_numbers() {
    let e = ClusterStatusEmitter::new();
    assert_eq!(e.emitter.state, EmitterState::Fetching);
    assert_eq!(e.emitter.timings.fetch_interval_millis, 10_000);
    assert_eq!(e.emitter.timings.fetch_timeout_millis, 5_000);
    assert_eq!(e.emitter.timings.send_timeout_millis, 100);
    assert_eq!(e.emitter.timings.channel_size, 1);
}

#[test]
fn default_cluster_status_is_empty() {
    let status = ClusterStatus::default();
    assert!(status.topics.is_empty());
    assert!(status.brokers.is_empty());
}

#[test]
fn partitions_of_the_cluster_status() {
    let partition = |id: u32| PartitionStatus {
        id,
        leader: 1,
        replicas: vec![1, 2],
        in_sync_replicas: vec![1],
    };
    let status = ClusterStatus {
        topics: vec![
            TopicPartitionsStatus { name: "t".to_string(), partitions: vec![partition(0), partition(1)] },
            TopicPartitionsStatus { name: "empty".to_string(), partitions: vec![] },
            TopicPartitionsStatus { name: "u".to_string(), partitions: vec![partition(7)] },
        ],
        brokers: vec![Broker { id: 1, host: "k1".to_string(), port: 9092 }],
    };
    let listed: Vec<(String, u32)> =
        status.topic_partitions().into_iter().map(|tp| (tp.topic, tp.partition)).collect();
    assert_eq!(
        listed,
        vec![("t".to_string(), 0), ("t".to_string(), 1), ("u".to_string(), 7)]
    );
    assert!(ClusterStatus::default().topic_partitions().is_empty());
}
