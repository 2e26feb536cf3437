use kommitted::clock::Timestamp;
use kommitted::consumer_groups::{
    ConsumerGroups, ConsumerGroupsRegister, Group, GroupListing, Member, MemberWithAssignment,
};
use kommitted::http::{
    append_decimal, append_escaped, append_headers, append_metric, append_signed_decimal,
    prometheus_metrics, ready_status, Metric, METRICS_CONTENT_TYPE,
};
use kommitted::kafka_types::TopicPartition;
use kommitted::konsumer_offsets_data::OffsetCommit;
use kommitted::clock::Duration;
use kommitted::lag_register::{Lag, LagRegister, LagWithOwner};
use kommitted::partition_offsets::PartitionOffsetsRegister;

fn tp(topic: &str, partition: u32) -> TopicPartition {
    TopicPartition::new(topic.to_string(), partition)
}

fn register(assignment: Vec<TopicPartition>) -> ConsumerGroupsRegister {
    let mut reg = ConsumerGroupsRegister::new();
    reg.update(ConsumerGroups::from(vec![GroupListing {
        group: Group {
            name: "g".to_string(),
            state: "Stable".to_string(),
            protocol: "range".to_string(),
            protocol_type: "consumer".to_string(),
        },
        members: vec![MemberWithAssignment {
            member: Member {
                id: "m".to_string(),
                client_id: "cid".to_string(),
                client_host: "/10.0.0.1".to_string(),
            },
            assignment,
        }],
    }]));
    reg
}

const HEADERS_OFFSET: &str = "# HELP kcl_kafka_consumer_partition_offset The last offset that the consumer group committed on the topic partition.\n# TYPE kcl_kafka_consumer_partition_offset gauge\n";
const HEADERS_LAG_OFFSET: &str = "# HELP kcl_kafka_consumer_partition_lag_offset The number of messages between the committed offset and the high watermark of the topic partition.\n# TYPE kcl_kafka_consumer_partition_lag_offset gauge\n";
const HEADERS_LAG_MILLIS: &str = "# HELP kcl_kafka_consumer_partition_lag_milliseconds The estimated time in milliseconds between the production of the committed message and that of the latest message.\n# TYPE kcl_kafka_consumer_partition_lag_milliseconds gauge\n";

#[test]
fn metrics_of_an_empty_register_are_headers_only() {
    let reg = LagRegister::new(&ConsumerGroupsRegister::new());
    let body = prometheus_metrics("c", &reg);
    assert_eq!(
        body,
        format!("{}\n{}\n{}\n", HEADERS_OFFSET, HEADERS_LAG_OFFSET, HEADERS_LAG_MILLIS)
    );
}

#[test]
fn metrics_omit_entries_without_lag() {
    let reg = LagRegister::new(&register(vec![tp("t", 0)]));
    let body = prometheus_metrics("c", &reg);
    assert_eq!(
        body,
        format!("{}\n{}\n{}\n", HEADERS_OFFSET, HEADERS_LAG_OFFSET, HEADERS_LAG_MILLIS)
    );
}

#[test]
fn metrics_of_one_commit() {
    let mut po = PartitionOffsetsRegister::new(10);
    po.track(&tp("t", 0), 100, Timestamp::from_millis(0));
    po.track(&tp("t", 0), 200, Timestamp::from_millis(10_000));
    let mut reg = LagRegister::new(&register(vec![tp("t", 0), tp("t", 1)]));
    reg.process_offset_commit(
        OffsetCommit {
            group: "g".to_string(),
            topic: "t".to_string(),
            partition: 0,
            offset: 150,
            commit_timestamp: Timestamp::from_millis(4_000),
        },
        &po,
    );
    reg.process_offset_commit(
        OffsetCommit {
            group: "g".to_string(),
            topic: "other".to_string(),
            partition: 12,
            offset: 7,
            commit_timestamp: Timestamp::from_millis(4_000),
        },
        &po,
    );
    let owned = "{cluster_id=\"main\",group=\"g\",topic=\"t\",partition=\"0\",member_id=\"m\",member_host=\"/10.0.0.1\",member_client_id=\"cid\"}";
    let unowned = "{cluster_id=\"main\",group=\"g\",topic=\"other\",partition=\"12\",member_id=\"\",member_host=\"\",member_client_id=\"\"}";
    let expected = format!(
        "{h1}kcl_kafka_consumer_partition_offset{owned} 150\nkcl_kafka_consumer_partition_offset{unowned} 7\n\n\
         {h2}kcl_kafka_consumer_partition_lag_offset{owned} 50\nkcl_kafka_consumer_partition_lag_offset{unowned} 0\n\n\
         {h3}kcl_kafka_consumer_partition_lag_milliseconds{owned} 5000\nkcl_kafka_consumer_partition_lag_milliseconds{unowned} 0\n\n",
        h1 = HEADERS_OFFSET,
        h2 = HEADERS_LAG_OFFSET,
        h3 = HEADERS_LAG_MILLIS,
        owned = owned,
        unowned = unowned,
    );
    assert_eq!(prometheus_metrics("main", &reg), expected);
}

#[test]
fn label_values_are_escaped() {
    let mut out = String::from(">");
    append_escaped(&mut out, "a\\b\"c\nd");
    assert_eq!(out, ">a\\\\b\\\"c\\nd");
    let mut plain = String::new();
    append_escaped(&mut plain, "topic-1.x_y/é");
    assert_eq!(plain, "topic-1.x_y/é");
    let mut nothing = String::from("x");
    append_escaped(&mut nothing, "");
    assert_eq!(nothing, "x");
}

#[test]
fn metric_line_escapes_its_labels() {
    let entry = LagWithOwner {
        lag: Some(Lag { offset: 1, ..Lag::default() }),
        owner: Some(Member {
            id: "m\"1".to_string(),
            client_id: "c\\d".to_string(),
            client_host: "h\n".to_string(),
        }),
    };
    let mut out = String::new();
    append_metric(&mut out, Metric::Offset, "c\"", "g\\", &tp("t\n", 3), &entry);
    assert_eq!(
        out,
        "kcl_kafka_consumer_partition_offset{cluster_id=\"c\\\"\",group=\"g\\\\\",topic=\"t\\n\",partition=\"3\",member_id=\"m\\\"1\",member_host=\"h\\n\",member_client_id=\"c\\\\d\"} 1\n"
    );
}

#[test]
fn metric_line_reports_the_metric_s_own_number() {
    let entry = LagWithOwner {
        lag: Some(Lag {
            offset: 11,
            offset_timestamp: Timestamp::from_millis(1),
            timestamp: Timestamp::from_millis(2),
            offset_lag: 22,
            time_lag: Duration::from_millis(33),
        }),
        owner: None,
    };
    for (metric, name, value) in [
        (Metric::Offset, "kcl_kafka_consumer_partition_offset", "11"),
        (Metric::LagOffset, "kcl_kafka_consumer_partition_lag_offset", "22"),
        (Metric::LagMilliseconds, "kcl_kafka_consumer_partition_lag_milliseconds", "33"),
    ] {
        let mut out = String::new();
        append_metric(&mut out, metric, "c", "g", &tp("t", 0), &entry);
        assert_eq!(metric.name(), name);
        assert!(out.starts_with(&format!("{}{{", name)));
        assert!(out.ends_with(&format!("}} {}\n", value)));
    }
    let mut none = String::from("kept");
    append_metric(&mut none, Metric::Offset, "c", "g", &tp("t", 0), &LagWithOwner::default());
    assert_eq!(none, "kept");
}

#[test]
fn headers_of_each_metric() {
    for (metric, expected) in [
        (Metric::Offset, HEADERS_OFFSET),
        (Metric::LagOffset, HEADERS_LAG_OFFSET),
        (Metric::LagMilliseconds, HEADERS_LAG_MILLIS),
    ] {
        let mut out = String::new();
        append_headers(&mut out, metric);
        assert_eq!(out, expected);
        assert!(expected.contains(metric.help()));
    }
}

#[test]
fn numbers_in_decimal() {
    for n in [0u64, 1, 9, 10, 11, 99, 100, 101, 1_000, 65_535, 4_294_967_295, u64::MAX] {
        let mut out = String::from("#");
        append_decimal(&mut out, n);
        assert_eq!(out, format!("#{}", n));
    }
    for i in [0i64, 1, -1, 9, -9, 10, -10, 12_345, -12_345, i64::MAX, i64::MIN, i64::MIN + 1] {
        let mut out = String::from("#");
        append_signed_decimal(&mut out, i);
        assert_eq!(out, format!("#{}", i));
    }
}

#[test]
fn readiness_status() {
    assert_eq!(ready_status(&LagRegister::new(&ConsumerGroupsRegister::new())), 503);
    assert_eq!(ready_status(&LagRegister::new(&register(vec![]))), 503);
    assert_eq!(ready_status(&LagRegister::new(&register(vec![tp("t", 0)]))), 200);
}

#[test]
fn content_type_is_the_text_format() {
    assert_eq!(METRICS_CONTENT_TYPE, "text/plain; version=0.0.4");
}
