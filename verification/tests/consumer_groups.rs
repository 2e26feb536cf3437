use kommitted::consumer_groups::{
    owners_by_partition, ConsumerGroups, ConsumerGroupsEmitter, ConsumerGroupsRegister, Group,
    GroupListing, Member, MemberWithAssignment, CHANNEL_SIZE, FETCH_INTERVAL_MILLIS,
    FETCH_TIMEOUT_MILLIS, SEND_TIMEOUT_MILLIS,
};
use kommitted::emitter::{EmitterAction, EmitterState};
use kommitted::kafka_types::TopicPartition;
use kommitted::ordered_map::Content;

fn tp(topic: &str, partition: u32) -> TopicPartition {
    TopicPartition::new(topic.to_string(), partition)
}

fn member(id: &str) -> Member {
    Member { id: id.to_string(), client_id: "c".to_string(), client_host: "h".to_string() }
}

fn group(name: &str, state: &str) -> Group {
    Group {
        name: name.to_string(),
        state: state.to_string(),
        protocol: "range".to_string(),
        protocol_type: "consumer".to_string(),
    }
}

fn with(id: &str, assignment: Vec<TopicPartition>) -> MemberWithAssignment {
    MemberWithAssignment { member: member(id), assignment }
}

fn one(name: &str, state: &str, members: Vec<MemberWithAssignment>) -> GroupListing {
    GroupListing { group: group(name, state), members }
}

#[test]
fn listing_becomes_groups_by_name() {
    let cg = ConsumerGroups::from(vec![
        one("g", "Stable", vec![with("m1", vec![tp("t", 0)]), with("m2", vec![tp("t", 1)])]),
        one("h", "Empty", vec![]),
    ]);
    assert_eq!(cg.groups.len(), 2);
    let g = cg.groups.get(&"g".to_string()).unwrap();
    assert_eq!(g.group.name, "g");
    assert_eq!(g.group.state, "Stable");
    assert_eq!(g.group.protocol, "range");
    assert_eq!(g.group.protocol_type, "consumer");
    assert_eq!(g.members.len(), 2);
    let m2 = g.members.get(&"m2".to_string()).unwrap();
    assert_eq!(m2.member.id, "m2");
    assert_eq!(m2.member.client_id, "c");
    assert_eq!(m2.member.client_host, "h");
    assert_eq!(m2.assignment.len(), 1);
    assert_eq!(m2.assignment[0].topic, "t");
    assert_eq!(m2.assignment[0].partition, 1);
    let h = cg.groups.get(&"h".to_string()).unwrap();
    assert_eq!(h.group.state, "Empty");
    assert_eq!(h.members.len(), 0);
    assert!(cg.groups.get(&"i".to_string()).is_none());
}

#[test]
fn listing_with_a_name_twice_keeps_the_later_group() {
    let cg = ConsumerGroups::from(vec![
        one("g", "Stable", vec![with("m1", vec![])]),
        one("g", "Dead", vec![with("m2", vec![]), with("m2", vec![tp("t", 3)])]),
    ]);
    assert_eq!(cg.groups.len(), 1);
    let g = cg.groups.get(&"g".to_string()).unwrap();
    assert_eq!(g.group.state, "Dead");
    assert_eq!(g.members.len(), 1);
    assert!(g.members.get(&"m1".to_string()).is_none());
    assert_eq!(g.members.get(&"m2".to_string()).unwrap().assignment.len(), 1);
}

#[test]
fn empty_listing_is_no_groups() {
    let cg = ConsumerGroups::from(vec![]);
    assert_eq!(cg.groups.len(), 0);
    assert!(cg.same_content(&ConsumerGroups::new()));
}

#[test]
fn content_is_the_same_in_any_order() {
    let a = ConsumerGroups::from(vec![
        one("g", "Stable", vec![with("m1", vec![tp("t", 0), tp("t", 1)]), with("m2", vec![])]),
        one("h", "Stable", vec![]),
    ]);
    let b = ConsumerGroups::from(vec![
        one("h", "Stable", vec![]),
        one("g", "Stable", vec![with("m2", vec![]), with("m1", vec![tp("t", 1), tp("t", 0), tp("t", 1)])]),
    ]);
    assert!(a.same_content(&b));
    assert!(b.same_content(&a));
}

#[test]
fn content_differs_in_every_part() {
    let base = || one("g", "Stable", vec![with("m1", vec![tp("t", 0)])]);
    let a = ConsumerGroups::from(vec![base()]);
    let other_state = ConsumerGroups::from(vec![one("g", "Dead", vec![with("m1", vec![tp("t", 0)])])]);
    let other_member = ConsumerGroups::from(vec![one("g", "Stable", vec![with("m2", vec![tp("t", 0)])])]);
    let other_partition = ConsumerGroups::from(vec![one("g", "Stable", vec![with("m1", vec![tp("t", 1)])])]);
    let other_topic = ConsumerGroups::from(vec![one("g", "Stable", vec![with("m1", vec![tp("u", 0)])])]);
    let more_partitions =
        ConsumerGroups::from(vec![one("g", "Stable", vec![with("m1", vec![tp("t", 0), tp("t", 1)])])]);
    let more_members = ConsumerGroups::from(vec![one(
        "g",
        "Stable",
        vec![with("m1", vec![tp("t", 0)]), with("m2", vec![])],
    )]);
    let more_groups = ConsumerGroups::from(vec![base(), one("h", "Stable", vec![])]);
    let other_name = ConsumerGroups::from(vec![one("h", "Stable", vec![with("m1", vec![tp("t", 0)])])]);
    for b in [
        &other_state,
        &other_member,
        &other_partition,
        &other_topic,
        &more_partitions,
        &more_members,
        &more_groups,
        &other_name,
    ] {
        assert!(!a.same_content(b));
        assert!(!b.same_content(&a));
    }
    let mut host = member("m1");
    host.client_host = "elsewhere".to_string();
    assert!(!member("m1").same_content(&host));
    assert!(member("m1").same_content(&member("m1")));
    let mut protocol = group("g", "Stable");
    protocol.protocol = "roundrobin".to_string();
    assert!(!group("g", "Stable").same_content(&protocol));
}

#[test]
fn token_changes_exactly_when_content_changes() {
    let mut reg = ConsumerGroupsRegister::new();
    assert_eq!(reg.get_hash(), 0);
    reg.update(ConsumerGroups::from(vec![]));
    assert_eq!(reg.get_hash(), 0);
    reg.update(ConsumerGroups::from(vec![one("g", "Stable", vec![with("m1", vec![tp("t", 0)])])]));
    assert_eq!(reg.get_hash(), 1);
    reg.update(ConsumerGroups::from(vec![one("g", "Stable", vec![with("m1", vec![tp("t", 0)])])]));
    assert_eq!(reg.get_hash(), 1);
    reg.update(ConsumerGroups::from(vec![one("g", "Stable", vec![with("m1", vec![tp("t", 1)])])]));
    assert_eq!(reg.get_hash(), 2);
    reg.update(ConsumerGroups::from(vec![]));
    assert_eq!(reg.get_hash(), 3);
}

#[test]
fn register_answers_with_the_latest_listing() {
    let mut reg = ConsumerGroupsRegister::new();
    assert!(reg.get_groups().is_empty());
    assert!(reg.get_group(&"g".to_string()).is_none());
    reg.update(ConsumerGroups::from(vec![
        one("g", "Stable", vec![with("m1", vec![tp("t", 0)])]),
        one("h", "Stable", vec![]),
    ]));
    assert_eq!(reg.get_groups(), vec!["g".to_string(), "h".to_string()]);
    assert_eq!(reg.get_group(&"g".to_string()).unwrap().members.len(), 1);
    reg.update(ConsumerGroups::from(vec![one("i", "Stable", vec![])]));
    assert_eq!(reg.get_groups(), vec!["i".to_string()]);
    assert!(reg.get_group(&"g".to_string()).is_none());
    assert_eq!(reg.groups().groups.len(), 1);
}

#[test]
fn owners_follow_the_last_claim() {
    let owners = owners_by_partition(&vec![
        with("m1", vec![tp("t", 0), tp("t", 1)]),
        with("m2", vec![tp("t", 1), tp("u", 0)]),
        with("m3", vec![]),
    ]);
    assert_eq!(owners.len(), 3);
    assert_eq!(owners.get(&tp("t", 0)).unwrap().id, "m1");
    assert_eq!(owners.get(&tp("t", 1)).unwrap().id, "m2");
    assert_eq!(owners.get(&tp("u", 0)).unwrap().id, "m2");
    assert!(owners.get(&tp("u", 1)).is_none());
}

#[test]
fn copies_keep_their_values() {
    let m = with("m1", vec![tp("t", 0), tp("u", 4)]);
    let c = m.clone();
    assert_eq!(c.member.id, "m1");
    assert_eq!(c.assignment.len(), 2);
    assert_eq!(c.assignment[1].topic, "u");
    assert_eq!(c.assignment[1].partition, 4);
    assert!(m.same_content(&c));
    let g = group("g", "Stable").clone();
    assert_eq!(g.name, "g");
    assert_eq!(g.state, "Stable");
}

#[test]
fn consumer_groups_emitter_numbers() {
    let e = ConsumerGroupsEmitter::new();
    assert_eq!(e.emitter.state, EmitterState::Fetching);
    assert_eq!(e.emitter.timings.fetch_interval_millis, 1_000);
    assert_eq!(e.emitter.timings.fetch_timeout_millis, 100);
    assert_eq!(e.emitter.timings.send_timeout_millis, 100);
    assert_eq!(e.emitter.timings.channel_size, 1);
    assert_eq!(e.emitter.action(), EmitterAction::Fetch { timeout_millis: FETCH_TIMEOUT_MILLIS });
    assert_eq!((CHANNEL_SIZE, SEND_TIMEOUT_MILLIS, FETCH_INTERVAL_MILLIS), (1, 100, 1_000));
}
