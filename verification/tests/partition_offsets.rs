use kommitted::clock::{Duration, Timestamp};
use kommitted::kafka_types::TopicPartition;
use kommitted::partition_offsets::{
    PartitionHistory, PartitionOffsetsError, PartitionOffsetsRegister, TrackedOffset,
};

const TEN_O_CLOCK: i64 = 36_000_000;

fn tp(topic: &str, partition: u32) -> TopicPartition {
    TopicPartition::new(topic.to_string(), partition)
}

fn at(millis: i64) -> Timestamp {
    Timestamp::from_millis(millis)
}

fn two_samples() -> PartitionOffsetsRegister {
    let mut reg = PartitionOffsetsRegister::new(10);
    assert!(reg.track(&tp("t", 0), 100, at(TEN_O_CLOCK)));
    assert!(reg.track(&tp("t", 0), 200, at(TEN_O_CLOCK + 10_000)));
    reg
}

#[test]
fn unknown_partition_has_no_data() {
    let reg = PartitionOffsetsRegister::new(10);
    assert_eq!(reg.get_latest_tracked_offset(&tp("t", 0)), Err(PartitionOffsetsError::NoData));
    assert_eq!(reg.estimate_offset_lag(&tp("t", 0), 5), Err(PartitionOffsetsError::NoData));
    assert_eq!(
        reg.estimate_time_lag(&tp("t", 0), 5, at(0)),
        Err(PartitionOffsetsError::NoData)
    );
}

#[test]
fn other_partition_of_same_topic_has_no_data() {
    let reg = two_samples();
    assert_eq!(reg.get_latest_tracked_offset(&tp("t", 1)), Err(PartitionOffsetsError::NoData));
    assert_eq!(reg.get_latest_tracked_offset(&tp("u", 0)), Err(PartitionOffsetsError::NoData));
}

#[test]
fn latest_tracked_offset_is_the_last_sample() {
    let reg = two_samples();
    assert_eq!(
        reg.get_latest_tracked_offset(&tp("t", 0)),
        Ok(TrackedOffset { offset: 200, at: at(TEN_O_CLOCK + 10_000) })
    );
}

#[test]
fn offset_lag_is_distance_to_latest_watermark() {
    let reg = two_samples();
    assert_eq!(reg.estimate_offset_lag(&tp("t", 0), 150), Ok(50));
    assert_eq!(reg.estimate_offset_lag(&tp("t", 0), 0), Ok(200));
    assert_eq!(reg.estimate_offset_lag(&tp("t", 0), 200), Ok(0));
}

#[test]
fn offset_lag_is_zero_past_the_watermark() {
    let reg = two_samples();
    assert_eq!(reg.estimate_offset_lag(&tp("t", 0), 250), Ok(0));
    assert_eq!(reg.estimate_offset_lag(&tp("t", 0), u64::MAX), Ok(0));
}

#[test]
fn time_lag_interpolates_between_samples() {
    let reg = two_samples();
    assert_eq!(
        reg.estimate_time_lag(&tp("t", 0), 150, at(TEN_O_CLOCK + 4_000)),
        Ok(Duration::from_millis(5_000))
    );
    assert_eq!(
        reg.estimate_time_lag(&tp("t", 0), 125, at(0)),
        Ok(Duration::from_millis(7_500))
    );
    assert_eq!(
        reg.estimate_time_lag(&tp("t", 0), 100, at(0)),
        Ok(Duration::from_millis(10_000))
    );
}

#[test]
fn time_lag_rounds_the_production_time_down() {
    let mut reg = PartitionOffsetsRegister::new(10);
    reg.track(&tp("t", 0), 0, at(0));
    reg.track(&tp("t", 0), 3, at(10));
    // produced at 0 + floor(10 * 1 / 3) = 3, so the lag is 7
    assert_eq!(reg.estimate_time_lag(&tp("t", 0), 1, at(0)), Ok(Duration::from_millis(7)));
    // produced at 0 + floor(10 * 2 / 3) = 6, so the lag is 4
    assert_eq!(reg.estimate_time_lag(&tp("t", 0), 2, at(0)), Ok(Duration::from_millis(4)));
}

#[test]
fn time_lag_does_not_depend_on_the_commit_time() {
    let reg = two_samples();
    let a = reg.estimate_time_lag(&tp("t", 0), 150, at(0));
    let b = reg.estimate_time_lag(&tp("t", 0), 150, at(i64::MAX));
    assert_eq!(a, b);
}

#[test]
fn time_lag_is_zero_at_and_past_the_latest_offset() {
    let reg = two_samples();
    assert_eq!(reg.estimate_time_lag(&tp("t", 0), 200, at(0)), Ok(Duration::zero()));
    assert_eq!(reg.estimate_time_lag(&tp("t", 0), 250, at(0)), Ok(Duration::zero()));
}

#[test]
fn time_lag_before_the_earliest_sample_uses_its_time() {
    let reg = two_samples();
    assert_eq!(
        reg.estimate_time_lag(&tp("t", 0), 10, at(0)),
        Ok(Duration::from_millis(10_000))
    );
}

#[test]
fn time_lag_picks_the_right_bracket_among_many() {
    let mut reg = PartitionOffsetsRegister::new(100);
    for i in 0..50u64 {
        assert!(reg.track(&tp("t", 0), i * 10, at((i * 1000) as i64)));
    }
    // latest is (490, 49_000); offset 255 lies between (250, 25_000) and (260, 26_000)
    assert_eq!(
        reg.estimate_time_lag(&tp("t", 0), 255, at(0)),
        Ok(Duration::from_millis(49_000 - 25_500))
    );
    assert_eq!(
        reg.estimate_time_lag(&tp("t", 0), 0, at(0)),
        Ok(Duration::from_millis(49_000))
    );
    assert_eq!(
        reg.estimate_time_lag(&tp("t", 0), 489, at(0)),
        Ok(Duration::from_millis(49_000 - 48_900))
    );
}

#[test]
fn time_lag_with_equal_offsets_uses_the_later_sample() {
    let mut reg = PartitionOffsetsRegister::new(10);
    reg.track(&tp("t", 0), 100, at(1_000));
    reg.track(&tp("t", 0), 100, at(2_000));
    reg.track(&tp("t", 0), 200, at(3_000));
    // the bracket around 100 is (100, 2_000) .. (200, 3_000)
    assert_eq!(reg.estimate_time_lag(&tp("t", 0), 100, at(0)), Ok(Duration::from_millis(1_000)));
    assert_eq!(reg.estimate_time_lag(&tp("t", 0), 150, at(0)), Ok(Duration::from_millis(500)));
}

#[test]
fn time_lag_never_grows_with_the_committed_offset() {
    let mut reg = PartitionOffsetsRegister::new(10);
    reg.track(&tp("t", 0), 10, at(100));
    reg.track(&tp("t", 0), 17, at(250));
    reg.track(&tp("t", 0), 17, at(260));
    reg.track(&tp("t", 0), 40, at(1_000));
    let mut previous = i64::MAX;
    for committed in 0..60u64 {
        let lag = reg.estimate_time_lag(&tp("t", 0), committed, at(0)).unwrap().millis;
        assert!(lag <= previous, "lag grew at offset {}", committed);
        assert!(lag >= 0);
        previous = lag;
    }
}

#[test]
fn single_sample_round_trip() {
    let mut reg = PartitionOffsetsRegister::new(10);
    reg.track(&tp("t", 0), 42, at(1_000));
    assert_eq!(reg.estimate_time_lag(&tp("t", 0), 42, at(1_000)), Ok(Duration::zero()));
    assert_eq!(reg.estimate_offset_lag(&tp("t", 0), 42), Ok(0));
}

#[test]
fn time_lag_is_cut_at_the_largest_duration() {
    let mut reg = PartitionOffsetsRegister::new(10);
    reg.track(&tp("t", 0), 10, at(i64::MIN));
    reg.track(&tp("t", 0), 20, at(i64::MAX));
    assert_eq!(
        reg.estimate_time_lag(&tp("t", 0), 5, at(0)),
        Ok(Duration::from_millis(i64::MAX))
    );
    assert_eq!(reg.estimate_time_lag(&tp("t", 0), 20, at(0)), Ok(Duration::zero()));
}

#[test]
fn interpolation_over_the_widest_spans() {
    let mut reg = PartitionOffsetsRegister::new(10);
    reg.track(&tp("t", 0), 0, at(i64::MIN));
    reg.track(&tp("t", 0), u64::MAX, at(i64::MAX));
    // one offset before the last: produced one millisecond before the last
    assert_eq!(
        reg.estimate_time_lag(&tp("t", 0), u64::MAX - 1, at(0)),
        Ok(Duration::from_millis(1))
    );
}

#[test]
fn history_keeps_the_newest_samples() {
    let mut reg = PartitionOffsetsRegister::new(3);
    for i in 0..5u64 {
        assert!(reg.track(&tp("t", 0), i * 100, at((i * 1000) as i64)));
    }
    // samples 200, 300, 400 are left: a commit before 200 is timed at 2_000
    assert_eq!(
        reg.get_latest_tracked_offset(&tp("t", 0)),
        Ok(TrackedOffset { offset: 400, at: at(4_000) })
    );
    assert_eq!(reg.estimate_time_lag(&tp("t", 0), 0, at(0)), Ok(Duration::from_millis(2_000)));
    assert_eq!(reg.estimate_time_lag(&tp("t", 0), 250, at(0)), Ok(Duration::from_millis(1_500)));
}

#[test]
fn sample_older_than_the_latest_is_not_kept() {
    let mut reg = two_samples();
    assert!(!reg.track(&tp("t", 0), 199, at(TEN_O_CLOCK + 20_000)));
    assert!(!reg.track(&tp("t", 0), 300, at(TEN_O_CLOCK + 9_999)));
    assert_eq!(
        reg.get_latest_tracked_offset(&tp("t", 0)),
        Ok(TrackedOffset { offset: 200, at: at(TEN_O_CLOCK + 10_000) })
    );
    assert!(reg.track(&tp("t", 0), 200, at(TEN_O_CLOCK + 10_000)));
}

#[test]
fn register_without_room_keeps_nothing() {
    let mut reg = PartitionOffsetsRegister::new(0);
    assert!(!reg.track(&tp("t", 0), 1, at(1)));
    assert_eq!(reg.get_latest_tracked_offset(&tp("t", 0)), Err(PartitionOffsetsError::NoData));
}

#[test]
fn partitions_are_tracked_apart() {
    let mut reg = PartitionOffsetsRegister::new(10);
    reg.track(&tp("t", 0), 100, at(1_000));
    reg.track(&tp("t", 1), 7, at(2_000));
    reg.track(&tp("u", 0), 9, at(3_000));
    assert_eq!(reg.estimate_offset_lag(&tp("t", 0), 0), Ok(100));
    assert_eq!(reg.estimate_offset_lag(&tp("t", 1), 0), Ok(7));
    assert_eq!(reg.estimate_offset_lag(&tp("u", 0), 0), Ok(9));
}

#[test]
fn history_of_one_partition() {
    let mut history = PartitionHistory::new(2);
    assert_eq!(history.latest(), None);
    assert_eq!(history.estimate_offset_lag(3), None);
    assert_eq!(history.estimate_time_lag(3), None);
    assert!(history.record(TrackedOffset { offset: 5, at: at(50) }));
    assert!(history.record(TrackedOffset { offset: 15, at: at(150) }));
    assert!(history.record(TrackedOffset { offset: 25, at: at(250) }));
    assert_eq!(history.latest(), Some(TrackedOffset { offset: 25, at: at(250) }));
    assert_eq!(history.estimate_offset_lag(20), Some(5));
    assert_eq!(history.estimate_time_lag(20), Some(Duration::from_millis(50)));
    assert_eq!(history.estimate_time_lag(5), Some(Duration::from_millis(100)));
}
