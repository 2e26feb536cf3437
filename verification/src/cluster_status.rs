//! The state of the cluster as its metadata describes it, and the emitter
//! that reports it.

use crate::emitter::{Emitter, EmitterState, EmitterTimings};
use crate::kafka_types::{views, Broker, TopicPartition, TopicPartitionsStatus};
use vstd::prelude::*;

verus! {

/// The channel of the cluster status emitter holds one snapshot.
pub const CHANNEL_SIZE: usize = 1;

/// A snapshot may wait a tenth of a second for room in the channel.
pub const SEND_TIMEOUT_MILLIS: u64 = 100;

/// A fetch of the cluster's metadata may take five seconds.
pub const FETCH_TIMEOUT_MILLIS: u64 = 5000;

/// The cluster's metadata is fetched every ten seconds.
pub const FETCH_INTERVAL_MILLIS: u64 = 10000;

/// The numbers of the cluster status emitter.
pub open spec fn cluster_status_timings() -> EmitterTimings {
    EmitterTimings {
        fetch_interval_millis: FETCH_INTERVAL_MILLIS,
        fetch_timeout_millis: FETCH_TIMEOUT_MILLIS,
        send_timeout_millis: SEND_TIMEOUT_MILLIS,
        channel_size: CHANNEL_SIZE,
    }
}

/// The topics, with their partitions, and the brokers of the cluster.
#[derive(Debug)]
pub struct ClusterStatus {
    pub topics: Vec<TopicPartitionsStatus>,
    pub brokers: Vec<Broker>,
}

impl Default for ClusterStatus {
    fn default() -> (status: Self)
        ensures
            status.topics@.len() == 0,
            status.brokers@.len() == 0,
    {
        ClusterStatus { topics: Vec::new(), brokers: Vec::new() }
    }
}

/// The partitions of one topic, in the order of the status.
pub open spec fn partitions_of_topic(topic: TopicPartitionsStatus) -> Seq<(Seq<char>, u32)> {
    Seq::new(topic.partitions@.len(), |i: int| (topic.name@, topic.partitions@[i].id))
}

/// The partitions of all topics, topic by topic.
pub open spec fn partitions_of(topics: Seq<TopicPartitionsStatus>) -> Seq<(Seq<char>, u32)>
    decreases topics.len(),
{
    if topics.len() == 0 {
        Seq::empty()
    } else {
        partitions_of(topics.drop_last()) + partitions_of_topic(topics.last())
    }
}

impl ClusterStatus {
    /// Every partition of the cluster, topic by topic: what the watermark
    /// poller is to ask for.
    pub fn topic_partitions(&self) -> (r: Vec<TopicPartition>)
        ensures
            views(r@) == partitions_of(self.topics@),
    {
        let mut r: Vec<TopicPartition> = Vec::new();
        let mut k: usize = 0;
        assert(views(r@) =~= partitions_of(self.topics@.take(0)));
        while k < self.topics.len()
            invariant
                k <= self.topics.len(),
                views(r@) == partitions_of(self.topics@.take(k as int)),
            decreases self.topics.len() - k,
        {
            let topic = &self.topics[k];
            let ghost before = views(r@);
            let mut j: usize = 0;
            assert(views(r@) =~= before + partitions_of_topic(*topic).take(0));
            while j < topic.partitions.len()
                invariant
                    j <= topic.partitions.len(),
                    views(r@) == before + partitions_of_topic(*topic).take(j as int),
                decreases topic.partitions.len() - j,
            {
                let ghost listed = r@;
                let tp = TopicPartition::new(topic.name.clone(), topic.partitions[j].id);
                r.push(tp);
                proof {
                    assert(views(r@) =~= views(listed).push(tp@));
                    assert(partitions_of_topic(*topic).take(j as int + 1) =~= partitions_of_topic(
                        *topic,
                    ).take(j as int).push(tp@));
                    assert(views(r@) =~= before + partitions_of_topic(*topic).take(j as int + 1));
                }
                j = j + 1;
            }
            proof {
                let next = self.topics@.take(k as int + 1);
                assert(next.drop_last() =~= self.topics@.take(k as int));
                assert(next.last() == *topic);
                assert(partitions_of_topic(*topic).take(j as int) =~= partitions_of_topic(*topic));
            }
            k = k + 1;
        }
        assert(self.topics@.take(k as int) =~= self.topics@);
        r
    }
}

/// Emits the cluster's status at its interval.
#[derive(Debug)]
pub struct ClusterStatusEmitter {
    pub emitter: Emitter,
}

impl ClusterStatusEmitter {
    pub fn new() -> (e: Self)
        ensures
            e.emitter.timings == cluster_status_timings(),
            e.emitter.state == EmitterState::Fetching,
    {
        ClusterStatusEmitter {
            emitter: Emitter::new(
                EmitterTimings {
                    fetch_interval_millis: FETCH_INTERVAL_MILLIS,
                    fetch_timeout_millis: FETCH_TIMEOUT_MILLIS,
                    send_timeout_millis: SEND_TIMEOUT_MILLIS,
                    channel_size: CHANNEL_SIZE,
                },
            ),
        }
    }
}

} // verus!
