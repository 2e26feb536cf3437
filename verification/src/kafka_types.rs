//! Plain values that describe parts of a Kafka cluster.

use crate::ordered_map::Key;
use vstd::prelude::*;

verus! {

/// One partition of one topic. Two of them are the same partition when topic
/// name and partition id agree.
#[derive(Debug)]
pub struct TopicPartition {
    pub topic: String,
    pub partition: u32,
}

impl View for TopicPartition {
    type V = (Seq<char>, u32);

    open spec fn view(&self) -> (Seq<char>, u32) {
        (self.topic@, self.partition)
    }
}

/// The views of a list of partitions.
pub open spec fn views(tps: Seq<TopicPartition>) -> Seq<(Seq<char>, u32)> {
    tps.map_values(|tp: TopicPartition| tp@)
}

impl TopicPartition {
    pub fn new(topic: String, partition: u32) -> (tp: Self)
        ensures
            tp.topic == topic,
            tp.partition == partition,
    {
        TopicPartition { topic, partition }
    }
}

impl Clone for TopicPartition {
    fn clone(&self) -> (tp: Self)
        ensures
            tp == *self,
    {
        TopicPartition { topic: self.topic.clone(), partition: self.partition }
    }
}

impl Key for TopicPartition {
    fn same(&self, other: &Self) -> (b: bool) {
        self.partition == other.partition && self.topic == other.topic
    }

    fn duplicate(&self) -> (k: Self) {
        self.clone()
    }
}

/// A broker of the cluster, as the last metadata fetch described it.
#[derive(Debug)]
pub struct Broker {
    pub id: i32,
    pub host: String,
    pub port: i32,
}

impl Clone for Broker {
    fn clone(&self) -> (b: Self)
        ensures
            b == *self,
    {
        Broker { id: self.id, host: self.host.clone(), port: self.port }
    }
}

/// The state of one partition: its leader, its replicas and those of them
/// that are in sync, all by broker id.
#[derive(Debug)]
pub struct PartitionStatus {
    pub id: u32,
    pub leader: i32,
    pub replicas: Vec<i32>,
    pub in_sync_replicas: Vec<i32>,
}

/// A topic with the state of each of its partitions.
#[derive(Debug)]
pub struct TopicPartitionsStatus {
    pub name: String,
    pub partitions: Vec<PartitionStatus>,
}

} // verus!
