//! The two kinds of record that the cluster's internal consumer-offsets
//! topic carries, reduced to what the lag register reads.

use crate::clock::Timestamp;
use crate::consumer_groups::{Claim, Member};
use crate::kafka_types::{views, TopicPartition};
use vstd::prelude::*;

verus! {

/// The name of the group under which this service itself reads the
/// consumer-offsets topic. Records about it are not tracked.
pub const OWN_CONSUMER_GROUP: &'static str = "__kommitted__consumer_offsets_consumer";

/// A group has committed an offset on a partition.
#[derive(Debug)]
pub struct OffsetCommit {
    pub group: String,
    pub topic: String,
    pub partition: u32,
    pub offset: u64,
    pub commit_timestamp: Timestamp,
}

/// A member of a group as a group-metadata record describes it: who it is,
/// what the coordinator assigned to it and what it says it owns.
#[derive(Debug)]
pub struct MemberMetadata {
    pub id: String,
    pub client_id: String,
    pub client_host: String,
    pub assigned_topic_partitions: Vec<TopicPartition>,
    pub owned_topic_partitions: Vec<TopicPartition>,
}

impl MemberMetadata {
    /// The member with all that it lays claim to: first what was assigned to
    /// it, then what it says it owns.
    pub open spec fn claim(&self) -> Claim {
        Claim {
            member: Member {
                id: self.id,
                client_id: self.client_id,
                client_host: self.client_host,
            },
            partitions: views(self.assigned_topic_partitions@ + self.owned_topic_partitions@),
        }
    }
}

/// The claims of the members of a group-metadata record.
pub open spec fn metadata_claims(members: Seq<MemberMetadata>) -> Seq<Claim> {
    members.map_values(|m: MemberMetadata| m.claim())
}

/// The current membership of a group.
#[derive(Debug)]
pub struct GroupMetadata {
    pub group: String,
    pub members: Vec<MemberMetadata>,
}

/// A record of the consumer-offsets topic.
#[derive(Debug)]
pub enum KonsumerOffsetsData {
    OffsetCommit(OffsetCommit),
    GroupMetadata(GroupMetadata),
}

} // verus!
