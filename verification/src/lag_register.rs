//! The lag register: for each consumer group and each partition that it
//! consumes, the lag of the group and the member that owns the partition.
//!
//! The register joins three sources: the consumer groups register (who is in
//! which group), the records of the consumer-offsets topic (what was
//! committed, and who owns what) and the partition offsets register (where
//! the partitions' watermarks are). Each way in which it changes is a spec
//! function on its view; the executable functions are proved against those.

use crate::clock::{Duration, Timestamp};
use crate::consumer_groups::{
    claims, lemma_owned_is_union_of_claims, next_hash, owners, owners_by_partition,
    partition_set, ConsumerGroups, ConsumerGroupsRegister, Group, Member, MemberWithAssignment,
};
use crate::kafka_types::TopicPartition;
use crate::konsumer_offsets_data::{
    metadata_claims, GroupMetadata, KonsumerOffsetsData, MemberMetadata, OffsetCommit,
    OWN_CONSUMER_GROUP,
};
use crate::ordered_map::{Key, OrderedMap};
use crate::partition_offsets::{
    lemma_production_time_bounds, offset_lag, saturated, time_lag, PartitionOffsetsRegister,
    TrackedOffset,
};
use vstd::prelude::*;
use vstd::string::StringExecFns;

verus! {

/// A lag is stale once its commit is older than this many milliseconds.
pub const LAG_STALE_AFTER_MILLIS: i64 = 5000;

/// The reconciler ticks once in this many milliseconds.
pub const RECONCILE_INTERVAL_MILLIS: u64 = 1000;

/// How far a group is behind on one partition.
#[derive(Clone, Copy, Debug, PartialEq, Eq, Structural)]
pub struct Lag {
    /// The offset that the group has committed.
    pub offset: u64,
    /// When the group committed it.
    pub offset_timestamp: Timestamp,
    /// When this lag was last computed. Equal to `offset_timestamp` after a
    /// commit; later once the lag went stale and was refreshed.
    pub timestamp: Timestamp,
    /// Messages between the committed offset and the high watermark.
    pub offset_lag: u64,
    /// Time between the production of the committed message and that of the
    /// latest one.
    pub time_lag: Duration,
}

impl Lag {
    /// The lag was computed no earlier than its commit, and its time lag is
    /// not negative.
    pub open spec fn valid(&self) -> bool {
        &&& self.timestamp.millis >= self.offset_timestamp.millis
        &&& self.offset_lag >= 0
        &&& self.time_lag.millis >= 0
    }

    /// Whether at `now` the commit is older than the staleness limit.
    pub open spec fn stale_at(&self, now: Timestamp) -> bool {
        now.since(self.offset_timestamp) > LAG_STALE_AFTER_MILLIS
    }

    pub fn is_stale_at(&self, now: Timestamp) -> (b: bool)
        ensures
            b == self.stale_at(now),
    {
        now.is_later_by_more_than(
            self.offset_timestamp,
            Duration::from_millis(LAG_STALE_AFTER_MILLIS),
        )
    }

    /// Whether the commit is older than the staleness limit by the system
    /// clock.
    pub fn is_stale(&self) -> (b: bool)
        ensures
            exists|now: Timestamp| b == self.stale_at(now),
    {
        let now = Timestamp::now();
        self.is_stale_at(now)
    }
}

impl Default for Lag {
    fn default() -> (lag: Self)
        ensures
            lag == (Lag {
                offset: 0,
                offset_timestamp: Timestamp { millis: 0 },
                timestamp: Timestamp { millis: 0 },
                offset_lag: 0,
                time_lag: Duration { millis: 0 },
            }),
    {
        Lag {
            offset: 0,
            offset_timestamp: Timestamp::epoch(),
            timestamp: Timestamp::epoch(),
            offset_lag: 0,
            time_lag: Duration::zero(),
        }
    }
}

/// What the register knows of one partition of one group. Either part may be
/// missing: a partition can be owned before anything was committed on it,
/// and committed on before its owner is known.
#[derive(Debug)]
pub struct LagWithOwner {
    pub lag: Option<Lag>,
    pub owner: Option<Member>,
}

impl LagWithOwner {
    /// The lag, if there is one, is valid.
    pub open spec fn valid(&self) -> bool {
        self.lag is Some ==> self.lag->0.valid()
    }
}

impl Default for LagWithOwner {
    fn default() -> (lwo: Self)
        ensures
            lwo.lag is None,
            lwo.owner is None,
    {
        LagWithOwner { lag: None, owner: None }
    }
}

/// The lag that a commit at `offset`, made at `committed_at`, has against
/// the history `h` of its partition. Without samples both lags are zero.
pub open spec fn lag_of_commit(offset: u64, committed_at: Timestamp, h: Seq<TrackedOffset>) -> Lag {
    Lag {
        offset,
        offset_timestamp: committed_at,
        timestamp: committed_at,
        offset_lag: if h.len() > 0 {
            offset_lag(h, offset) as u64
        } else {
            0
        },
        time_lag: Duration {
            millis: if h.len() > 0 {
                saturated(time_lag(h, offset)) as i64
            } else {
                0
            },
        },
    }
}

/// A lag as it stands after the reconciler looked at it at `now`: untouched
/// unless it is stale and its partition has samples; else both lags are
/// estimated anew for the same committed offset and `timestamp` moves to
/// `now`, while `offset_timestamp` stays.
pub open spec fn refreshed(lag: Lag, h: Seq<TrackedOffset>, now: Timestamp) -> Lag {
    if lag.stale_at(now) && h.len() > 0 {
        Lag {
            offset: lag.offset,
            offset_timestamp: lag.offset_timestamp,
            timestamp: now,
            offset_lag: offset_lag(h, lag.offset) as u64,
            time_lag: Duration { millis: saturated(time_lag(h, lag.offset)) as i64 },
        }
    } else {
        lag
    }
}

/// The entries of a group after a commit on `tp`: the entry of `tp` holds
/// the new lag and keeps its owner; an entry that is new has no owner.
pub open spec fn with_commit(
    lags: Map<(Seq<char>, u32), LagWithOwner>,
    tp: (Seq<char>, u32),
    lag: Lag,
) -> Map<(Seq<char>, u32), LagWithOwner> {
    lags.insert(
        tp,
        LagWithOwner {
            lag: Some(lag),
            owner: if lags.contains_key(tp) {
                lags[tp].owner
            } else {
                None
            },
        },
    )
}

/// The entries of a group after its metadata named `owners`: only entries of
/// owned partitions stay, each with its lag and its new owner. No entry is
/// added.
pub open spec fn with_owners(
    lags: Map<(Seq<char>, u32), LagWithOwner>,
    owners: Map<(Seq<char>, u32), Member>,
) -> Map<(Seq<char>, u32), LagWithOwner> {
    Map::new(
        |tp: (Seq<char>, u32)| lags.contains_key(tp) && owners.contains_key(tp),
        |tp: (Seq<char>, u32)| LagWithOwner { lag: lags[tp].lag, owner: Some(owners[tp]) },
    )
}

/// The entries of a group after the groups register named `owners`: one
/// entry for each owned partition and no other, with the owner, and with the
/// lag that the partition had before, if it had one.
pub open spec fn reconciled(
    lags: Map<(Seq<char>, u32), LagWithOwner>,
    owners: Map<(Seq<char>, u32), Member>,
) -> Map<(Seq<char>, u32), LagWithOwner> {
    Map::new(
        |tp: (Seq<char>, u32)| owners.contains_key(tp),
        |tp: (Seq<char>, u32)|
            LagWithOwner {
                lag: if lags.contains_key(tp) {
                    lags[tp].lag
                } else {
                    None
                },
                owner: Some(owners[tp]),
            },
    )
}

/// One entry after the reconciler looked at it at `now`.
pub open spec fn refreshed_entry(
    entry: LagWithOwner,
    h: Seq<TrackedOffset>,
    now: Timestamp,
) -> LagWithOwner {
    LagWithOwner {
        lag: match entry.lag {
            Some(lag) => Some(refreshed(lag, h, now)),
            None => None,
        },
        owner: entry.owner,
    }
}

/// The entries of a group after the reconciler looked at each of them at
/// `now`, against the histories in `po_reg`.
pub open spec fn refreshed_entries(
    lags: Map<(Seq<char>, u32), LagWithOwner>,
    po_reg: PartitionOffsetsRegister,
    now: Timestamp,
) -> Map<(Seq<char>, u32), LagWithOwner> {
    Map::new(
        |tp: (Seq<char>, u32)| lags.contains_key(tp),
        |tp: (Seq<char>, u32)| refreshed_entry(lags[tp], po_reg.history(tp), now),
    )
}

/// A commit's lag is valid, whatever the history.
pub proof fn lemma_lag_of_commit_valid(offset: u64, committed_at: Timestamp, h: Seq<TrackedOffset>)
    requires
        crate::partition_offsets::sorted(h),
    ensures
        lag_of_commit(offset, committed_at, h).valid(),
{
    if h.len() > 0 {
        lemma_production_time_bounds(h, offset);
    }
}

/// Refreshing keeps a valid lag valid: a lag is only touched when `now` is
/// past its commit.
pub proof fn lemma_refreshed_valid(lag: Lag, h: Seq<TrackedOffset>, now: Timestamp)
    requires
        lag.valid(),
        crate::partition_offsets::sorted(h),
    ensures
        refreshed(lag, h, now).valid(),
        refreshed(lag, h, now).offset == lag.offset,
        refreshed(lag, h, now).offset_timestamp == lag.offset_timestamp,
{
    if h.len() > 0 {
        lemma_production_time_bounds(h, lag.offset);
    }
}

/// The view of a [`GroupWithLag`]: the group and its entries as a map.
#[verifier::ext_equal]
pub struct GroupWithLagView {
    pub group: Group,
    pub lags: Map<(Seq<char>, u32), LagWithOwner>,
}

/// A consumer group with what is known of each partition that it consumes.
#[derive(Debug)]
pub struct GroupWithLag {
    pub group: Group,
    pub lag_by_topic_partition: OrderedMap<TopicPartition, LagWithOwner>,
}

impl View for GroupWithLag {
    type V = GroupWithLagView;

    open spec fn view(&self) -> GroupWithLagView {
        GroupWithLagView { group: self.group, lags: self.lag_by_topic_partition@ }
    }
}

/// Every lag among `lags` is valid.
pub open spec fn all_valid(lags: Map<(Seq<char>, u32), LagWithOwner>) -> bool {
    forall|tp: (Seq<char>, u32)| #[trigger] lags.contains_key(tp) ==> lags[tp].valid()
}

impl GroupWithLag {
    /// No partition occurs twice and every lag is valid.
    pub open spec fn wf(&self) -> bool {
        &&& self.lag_by_topic_partition.wf()
        &&& all_valid(self@.lags)
    }

    /// Records a commit's lag on `tp`.
    pub fn record_commit(&mut self, tp: TopicPartition, lag: Lag)
        requires
            old(self).wf(),
            lag.valid(),
        ensures
            final(self).wf(),
            final(self).group == old(self).group,
            final(self)@.lags == with_commit(old(self)@.lags, tp@, lag),
    {
        match self.lag_by_topic_partition.position(&tp) {
            Some(i) => {
                proof {
                    self.lag_by_topic_partition.lemma_entry(i as int);
                }
                let entry = self.lag_by_topic_partition.value_mut(i);
                entry.lag = Some(lag);
                proof {
                    OrderedMap::lemma_update(
                        old(self).lag_by_topic_partition,
                        self.lag_by_topic_partition,
                        i as int,
                        self.lag_by_topic_partition.values()[i as int],
                    );
                }
            },
            None => {
                self.lag_by_topic_partition.insert(tp, LagWithOwner { lag: Some(lag), owner: None });
            },
        }
    }

    /// Takes over the owners that the group's metadata names: entries of
    /// partitions without an owner leave, the others get their owner.
    pub fn assign_owners(&mut self, owners: &OrderedMap<TopicPartition, Member>)
        requires
            old(self).wf(),
            owners.wf(),
        ensures
            final(self).wf(),
            final(self).group == old(self).group,
            final(self)@.lags == with_owners(old(self)@.lags, owners@),
    {
        let mut kept: OrderedMap<TopicPartition, LagWithOwner> = OrderedMap::new();
        let n = self.lag_by_topic_partition.len();
        let mut i: usize = 0;
        while i < n
            invariant
                i <= n,
                n == self.lag_by_topic_partition.keys().len(),
                self.wf(),
                owners.wf(),
                kept.wf(),
                forall|tp: (Seq<char>, u32)|
                    kept@.contains_key(tp) <==> owners@.contains_key(tp) && exists|j: int|
                        0 <= j < i && #[trigger] self.lag_by_topic_partition.keys()[j] == tp,
                forall|tp: (Seq<char>, u32)| #[trigger]
                    kept@.contains_key(tp) ==> kept@[tp] == (LagWithOwner {
                        lag: self@.lags[tp].lag,
                        owner: Some(owners@[tp]),
                    }),
            decreases n - i,
        {
            let tp = self.lag_by_topic_partition.key_at(i);
            let entry = self.lag_by_topic_partition.value_at(i);
            proof {
                self.lag_by_topic_partition.lemma_entry(i as int);
            }
            match owners.get(tp) {
                Some(owner) => {
                    let ghost before = kept@;
                    kept.insert(tp.duplicate(), LagWithOwner { lag: entry.lag, owner: Some(owner.clone()) });
                    assert forall|t: (Seq<char>, u32)|
                        kept@.contains_key(t) <==> owners@.contains_key(t) && exists|j: int|
                            0 <= j < i + 1 && #[trigger] self.lag_by_topic_partition.keys()[j]
                                == t by {
                        if before.contains_key(t) {
                            let j = choose|j: int|
                                0 <= j < i && #[trigger] self.lag_by_topic_partition.keys()[j] == t;
                            assert(0 <= j < i + 1 && self.lag_by_topic_partition.keys()[j] == t);
                        }
                        if owners@.contains_key(t) && exists|j: int|
                            0 <= j < i + 1 && #[trigger] self.lag_by_topic_partition.keys()[j] == t {
                            let j = choose|j: int|
                                0 <= j < i + 1 && #[trigger] self.lag_by_topic_partition.keys()[j]
                                    == t;
                            if j < i {
                                assert(before.contains_key(t));
                            }
                        }
                    }
                },
                None => {
                    assert forall|t: (Seq<char>, u32)|
                        kept@.contains_key(t) <==> owners@.contains_key(t) && exists|j: int|
                            0 <= j < i + 1 && #[trigger] self.lag_by_topic_partition.keys()[j]
                                == t by {
                        if kept@.contains_key(t) {
                            let j = choose|j: int|
                                0 <= j < i && #[trigger] self.lag_by_topic_partition.keys()[j] == t;
                            assert(0 <= j < i + 1 && self.lag_by_topic_partition.keys()[j] == t);
                        }
                        if owners@.contains_key(t) && exists|j: int|
                            0 <= j < i + 1 && #[trigger] self.lag_by_topic_partition.keys()[j] == t {
                            let j = choose|j: int|
                                0 <= j < i + 1 && #[trigger] self.lag_by_topic_partition.keys()[j]
                                    == t;
                            assert(j < i);
                        }
                    }
                },
            }
            i = i + 1;
        }
        proof {
            let expected = with_owners(old(self)@.lags, owners@);
            assert forall|t: (Seq<char>, u32)| kept@.contains_key(t) == expected.contains_key(t) by {
                if old(self)@.lags.contains_key(t) {
                    old(self).lag_by_topic_partition.lemma_position(t);
                }
            }
            assert(kept@ =~= expected);
        }
        self.lag_by_topic_partition = kept;
    }

    /// The group as the groups register describes it now: an entry for each
    /// owned partition, with the lag that `previous` had for it.
    pub fn reconcile(
        previous: Option<&GroupWithLag>,
        group: Group,
        owners: &OrderedMap<TopicPartition, Member>,
    ) -> (r: GroupWithLag)
        requires
            owners.wf(),
            previous is Some ==> previous->0.wf(),
        ensures
            r.wf(),
            r.group == group,
            r@.lags == reconciled(
                match previous {
                    Some(p) => p@.lags,
                    None => Map::empty(),
                },
                owners@,
            ),
    {
        let ghost lags = match previous {
            Some(p) => p@.lags,
            None => Map::empty(),
        };
        let mut entries: OrderedMap<TopicPartition, LagWithOwner> = OrderedMap::new();
        let n = owners.len();
        let mut i: usize = 0;
        while i < n
            invariant
                i <= n,
                n == owners.keys().len(),
                owners.wf(),
                previous is Some ==> previous->0.wf(),
                lags == match previous {
                    Some(p) => p@.lags,
                    None => Map::empty(),
                },
                entries.wf(),
                forall|tp: (Seq<char>, u32)|
                    entries@.contains_key(tp) <==> exists|j: int|
                        0 <= j < i && #[trigger] owners.keys()[j] == tp,
                forall|tp: (Seq<char>, u32)| #[trigger]
                    entries@.contains_key(tp) ==> entries@[tp] == reconciled(lags, owners@)[tp],
            decreases n - i,
        {
            let tp = owners.key_at(i);
            let owner = owners.value_at(i);
            proof {
                owners.lemma_entry(i as int);
            }
            let lag: Option<Lag> = match previous {
                Some(p) => match p.lag_by_topic_partition.get(tp) {
                    Some(entry) => entry.lag,
                    None => None,
                },
                None => None,
            };
            let ghost before = entries@;
            entries.insert(tp.duplicate(), LagWithOwner { lag, owner: Some(owner.clone()) });
            assert forall|t: (Seq<char>, u32)|
                entries@.contains_key(t) <==> exists|j: int|
                    0 <= j < i + 1 && #[trigger] owners.keys()[j] == t by {
                if before.contains_key(t) {
                    let j = choose|j: int| 0 <= j < i && #[trigger] owners.keys()[j] == t;
                    assert(0 <= j < i + 1 && owners.keys()[j] == t);
                }
                if exists|j: int| 0 <= j < i + 1 && #[trigger] owners.keys()[j] == t {
                    let j = choose|j: int| 0 <= j < i + 1 && #[trigger] owners.keys()[j] == t;
                    if j < i {
                        assert(before.contains_key(t));
                    }
                }
            }
            i = i + 1;
        }
        proof {
            let expected = reconciled(lags, owners@);
            assert forall|t: (Seq<char>, u32)| entries@.contains_key(t) == expected.contains_key(
                t,
            ) by {
                if owners@.contains_key(t) {
                    owners.lemma_position(t);
                }
                if entries@.contains_key(t) {
                    let j = choose|j: int| 0 <= j < i && #[trigger] owners.keys()[j] == t;
                    owners.lemma_entry(j);
                }
            }
            assert(entries@ =~= expected);
        }
        GroupWithLag { group, lag_by_topic_partition: entries }
    }
}

/// One lag after the reconciler looked at it at `now`, against the history
/// of its partition in `po_reg`.
fn refresh_lag(lag: Lag, tp: &TopicPartition, po_reg: &PartitionOffsetsRegister, now: Timestamp) -> (r:
    Lag)
    requires
        po_reg.wf(),
    ensures
        r == refreshed(lag, po_reg.history(tp@), now),
{
    if !lag.is_stale_at(now) {
        return lag;
    }
    let latest = match po_reg.get_latest_tracked_offset(tp) {
        Ok(latest) => latest,
        Err(_) => {
            return lag;
        },
    };
    let offset_lag = match po_reg.estimate_offset_lag(tp, lag.offset) {
        Ok(offset_lag) => offset_lag,
        Err(_) => 0,
    };
    let time_lag = match po_reg.estimate_time_lag(tp, lag.offset, latest.at) {
        Ok(time_lag) => time_lag,
        Err(_) => Duration::zero(),
    };
    Lag {
        offset: lag.offset,
        offset_timestamp: lag.offset_timestamp,
        timestamp: now,
        offset_lag,
        time_lag,
    }
}

impl GroupWithLag {
    /// Looks at every entry of the group at `now` and refreshes the lags
    /// that are stale. Each entry is judged by itself.
    pub fn refresh(&mut self, po_reg: &PartitionOffsetsRegister, now: Timestamp)
        requires
            old(self).wf(),
            po_reg.wf(),
        ensures
            final(self).wf(),
            final(self).group == old(self).group,
            final(self)@.lags == refreshed_entries(old(self)@.lags, *po_reg, now),
    {
        let n = self.lag_by_topic_partition.len();
        let ghost rule = |tp: (Seq<char>, u32), entry: LagWithOwner|
            refreshed_entry(entry, po_reg.history(tp), now);
        let mut i: usize = 0;
        while i < n
            invariant
                i <= n,
                po_reg.wf(),
                old(self).wf(),
                self.group == old(self).group,
                n == self.lag_by_topic_partition.keys().len(),
                self.lag_by_topic_partition.wf(),
                self.lag_by_topic_partition.keys() == old(self).lag_by_topic_partition.keys(),
                self.lag_by_topic_partition.values().len() == n,
                rule == |tp: (Seq<char>, u32), entry: LagWithOwner|
                    refreshed_entry(entry, po_reg.history(tp), now),
                forall|j: int|
                    0 <= j < i ==> #[trigger] self.lag_by_topic_partition.values()[j] == rule(
                        old(self).lag_by_topic_partition.keys()[j],
                        old(self).lag_by_topic_partition.values()[j],
                    ),
                forall|j: int|
                    i <= j < n ==> #[trigger] self.lag_by_topic_partition.values()[j] == old(
                        self,
                    ).lag_by_topic_partition.values()[j],
            decreases n - i,
        {
            let tp = self.lag_by_topic_partition.key_at(i);
            let lag: Option<Lag> = match self.lag_by_topic_partition.value_at(i).lag {
                Some(lag) => Some(refresh_lag(lag, tp, po_reg, now)),
                None => None,
            };
            let entry = self.lag_by_topic_partition.value_mut(i);
            entry.lag = lag;
            i = i + 1;
        }
        proof {
            OrderedMap::lemma_pointwise(
                old(self).lag_by_topic_partition,
                self.lag_by_topic_partition,
                rule,
            );
            assert(self@.lags =~= refreshed_entries(old(self)@.lags, *po_reg, now));
            assert forall|tp: (Seq<char>, u32)| #[trigger]
                self@.lags.contains_key(tp) implies self@.lags[tp].valid() by {
                po_reg.lemma_history_sorted(tp);
                let before = old(self)@.lags[tp];
                assert(before.valid());
                if before.lag is Some {
                    lemma_refreshed_valid(before.lag->0, po_reg.history(tp), now);
                }
            }
        }
    }
}

/// What became of a record of the consumer-offsets topic.
#[derive(Clone, Copy, Debug, PartialEq, Eq, Structural)]
pub enum EventOutcome {
    /// The register took the record in.
    Applied,
    /// The record is about a group that the register does not hold: it was
    /// dropped, which is worth a warning.
    UnknownGroup,
    /// The record is about the group under which this service itself reads
    /// the consumer-offsets topic: it was dropped without a word.
    OwnGroup,
    /// The metadata names no members: it was dropped, so that an idle group
    /// keeps its lags.
    NoMembers,
}

/// What becomes of a record about `group`: records about this service's
/// own group are dropped, whether the register holds the group or not;
/// records about any other group are taken in if the register holds it.
pub open spec fn outcome_for(reg: Map<Seq<char>, GroupWithLagView>, group: Seq<char>) -> EventOutcome {
    if group == OWN_CONSUMER_GROUP@ {
        EventOutcome::OwnGroup
    } else if reg.contains_key(group) {
        EventOutcome::Applied
    } else {
        EventOutcome::UnknownGroup
    }
}

/// What becomes of a group's metadata: dropped if it names no member, and
/// else as any record about the group.
pub open spec fn metadata_outcome(
    reg: Map<Seq<char>, GroupWithLagView>,
    gm: GroupMetadata,
) -> EventOutcome {
    if gm.members@.len() == 0 {
        EventOutcome::NoMembers
    } else {
        outcome_for(reg, gm.group@)
    }
}

/// The register after a commit, given the history of the commit's partition:
/// untouched when the commit is dropped; else the group has the commit's lag
/// on that partition.
pub open spec fn after_commit(
    reg: Map<Seq<char>, GroupWithLagView>,
    oc: OffsetCommit,
    h: Seq<TrackedOffset>,
) -> Map<Seq<char>, GroupWithLagView> {
    if outcome_for(reg, oc.group@) == EventOutcome::Applied {
        reg.insert(
            oc.group@,
            GroupWithLagView {
                group: reg[oc.group@].group,
                lags: with_commit(
                    reg[oc.group@].lags,
                    (oc.topic@, oc.partition),
                    lag_of_commit(oc.offset, oc.commit_timestamp, h),
                ),
            },
        )
    } else {
        reg
    }
}

/// The register after a group's metadata: untouched when the metadata is
/// dropped; else the group's entries follow the owners that the metadata
/// names.
pub open spec fn after_group_metadata(
    reg: Map<Seq<char>, GroupWithLagView>,
    gm: GroupMetadata,
) -> Map<Seq<char>, GroupWithLagView> {
    if metadata_outcome(reg, gm) == EventOutcome::Applied {
        reg.insert(
            gm.group@,
            GroupWithLagView {
                group: reg[gm.group@].group,
                lags: with_owners(
                    reg[gm.group@].lags,
                    owners(metadata_claims(gm.members@)),
                ),
            },
        )
    } else {
        reg
    }
}

/// The register after it took over the groups of `known`: it holds exactly
/// the groups of `known`, each with one entry for each partition that one of
/// its members owns, and with the lags that those partitions had before.
pub open spec fn after_import(
    reg: Map<Seq<char>, GroupWithLagView>,
    known: ConsumerGroups,
) -> Map<Seq<char>, GroupWithLagView> {
    Map::new(
        |name: Seq<char>| known.groups@.contains_key(name),
        |name: Seq<char>|
            GroupWithLagView {
                group: known.groups@[name].group,
                lags: reconciled(
                    if reg.contains_key(name) {
                        reg[name].lags
                    } else {
                        Map::empty()
                    },
                    known.groups@[name].owners(),
                ),
            },
    )
}

/// The register after the reconciler looked at every entry at `now`.
pub open spec fn after_refresh(
    reg: Map<Seq<char>, GroupWithLagView>,
    po_reg: PartitionOffsetsRegister,
    now: Timestamp,
) -> Map<Seq<char>, GroupWithLagView> {
    Map::new(
        |name: Seq<char>| reg.contains_key(name),
        |name: Seq<char>|
            GroupWithLagView {
                group: reg[name].group,
                lags: refreshed_entries(reg[name].lags, po_reg, now),
            },
    )
}

/// The lag register.
#[derive(Debug)]
pub struct LagRegister {
    lag_by_group: OrderedMap<String, GroupWithLag>,
    groups_hash: u64,
}

impl View for LagRegister {
    type V = Map<Seq<char>, GroupWithLagView>;

    /// The register as a map from group name to the group and its entries.
    closed spec fn view(&self) -> Map<Seq<char>, GroupWithLagView> {
        Map::new(
            |name: Seq<char>| self.lag_by_group@.contains_key(name),
            |name: Seq<char>| self.lag_by_group@[name]@,
        )
    }
}

impl LagRegister {
    /// No group occurs twice, within a group no partition, and every lag is
    /// valid.
    pub closed spec fn wf(&self) -> bool {
        &&& self.lag_by_group.wf()
        &&& forall|name: Seq<char>| #[trigger]
            self.lag_by_group@.contains_key(name) ==> self.lag_by_group@[name].wf()
    }

    /// The token of the consumer groups register at the last import.
    pub closed spec fn known_hash(&self) -> u64 {
        self.groups_hash
    }

    /// Every lag in a well-formed register was computed no earlier than its
    /// commit, and neither of its two lags is negative.
    pub proof fn lemma_lags_valid(&self, group: Seq<char>, tp: (Seq<char>, u32))
        requires
            self.wf(),
            self@.contains_key(group),
            self@[group].lags.contains_key(tp),
            self@[group].lags[tp].lag is Some,
        ensures
            self@[group].lags[tp].lag->0.timestamp.millis >= self@[group].lags[tp].lag->0.offset_timestamp.millis,
            self@[group].lags[tp].lag->0.offset_lag >= 0,
            self@[group].lags[tp].lag->0.time_lag.millis >= 0,
    {
        assert(self.lag_by_group@.contains_key(group));
        assert(self.lag_by_group@[group].wf());
        assert(self@[group].lags[tp].valid());
    }

    proof fn lemma_group_changed(before: Self, after: Self, i: int)
        requires
            before.wf(),
            0 <= i < before.lag_by_group.keys().len(),
            after.lag_by_group.keys() == before.lag_by_group.keys(),
            after.lag_by_group.values() == before.lag_by_group.values().update(
                i,
                after.lag_by_group.values()[i],
            ),
            after.lag_by_group.values()[i].wf(),
        ensures
            after.wf(),
            after@ == before@.insert(
                before.lag_by_group.keys()[i],
                after.lag_by_group.values()[i]@,
            ),
            before@.contains_key(before.lag_by_group.keys()[i]),
            before@[before.lag_by_group.keys()[i]] == before.lag_by_group.values()[i]@,
    {
        OrderedMap::lemma_update(
            before.lag_by_group,
            after.lag_by_group,
            i,
            after.lag_by_group.values()[i],
        );
        before.lag_by_group.lemma_entry(i);
        assert(after@ =~= before@.insert(
            before.lag_by_group.keys()[i],
            after.lag_by_group.values()[i]@,
        ));
    }

    /// The groups of the register in the order in which they came, each
    /// with its entries in the order in which they came.
    pub closed spec fn entries(&self) -> OrderedMap<String, GroupWithLag> {
        self.lag_by_group
    }

    /// The groups of the register in the order in which they came, each
    /// with its entries.
    pub fn groups(&self) -> (r: &OrderedMap<String, GroupWithLag>)
        requires
            self.wf(),
        ensures
            *r == self.entries(),
            r.wf(),
            forall|name: Seq<char>| r@.contains_key(name) == self@.contains_key(name),
            forall|name: Seq<char>| #[trigger]
                r@.contains_key(name) ==> r@[name]@ == self@[name] && r@[name].wf(),
    {
        &self.lag_by_group
    }

    /// Takes a commit in: the group gets the commit's lag on the commit's
    /// partition, estimated against `po_reg`. A commit of this service's
    /// own group, or of a group that the register does not hold, is dropped.
    pub fn process_offset_commit(&mut self, oc: OffsetCommit, po_reg: &PartitionOffsetsRegister) -> (outcome:
        EventOutcome)
        requires
            old(self).wf(),
            po_reg.wf(),
        ensures
            final(self).wf(),
            final(self).known_hash() == old(self).known_hash(),
            final(self)@ == after_commit(
                old(self)@,
                oc,
                po_reg.history((oc.topic@, oc.partition)),
            ),
            outcome == outcome_for(old(self)@, oc.group@),
    {
        if oc.group == String::from_str(OWN_CONSUMER_GROUP) {
            return EventOutcome::OwnGroup;
        }
        match self.lag_by_group.position(&oc.group) {
            Some(i) => {
                let ghost h = po_reg.history((oc.topic@, oc.partition));
                let tp = TopicPartition::new(oc.topic, oc.partition);
                let offset_lag = match po_reg.estimate_offset_lag(&tp, oc.offset) {
                    Ok(offset_lag) => offset_lag,
                    Err(_) => 0,
                };
                let time_lag = match po_reg.estimate_time_lag(&tp, oc.offset, oc.commit_timestamp) {
                    Ok(time_lag) => time_lag,
                    Err(_) => Duration::zero(),
                };
                let lag = Lag {
                    offset: oc.offset,
                    offset_timestamp: oc.commit_timestamp,
                    timestamp: oc.commit_timestamp,
                    offset_lag,
                    time_lag,
                };
                proof {
                    po_reg.lemma_history_sorted(tp@);
                    lemma_lag_of_commit_valid(oc.offset, oc.commit_timestamp, h);
                    self.lag_by_group.lemma_entry(i as int);
                }
                let group = self.lag_by_group.value_mut(i);
                group.record_commit(tp, lag);
                proof {
                    Self::lemma_group_changed(*old(self), *self, i as int);
                }
                EventOutcome::Applied
            },
            None => EventOutcome::UnknownGroup,
        }
    }
}

/// The partitions of `tps`, copied behind those that `into` holds.
fn push_partitions(into: &mut Vec<TopicPartition>, tps: &Vec<TopicPartition>)
    ensures
        final(into)@ == old(into)@ + tps@,
{
    let mut j: usize = 0;
    while j < tps.len()
        invariant
            j <= tps.len(),
            into@ == old(into)@ + tps@.take(j as int),
        decreases tps.len() - j,
    {
        into.push(tps[j].clone());
        assert(into@ =~= old(into)@ + tps@.take(j as int + 1));
        j = j + 1;
    }
    assert(tps@.take(j as int) =~= tps@);
}

/// The members of a group-metadata record, each with all that it lays claim
/// to as its assignment.
fn claimants(members: &Vec<MemberMetadata>) -> (r: Vec<MemberWithAssignment>)
    ensures
        claims(r@) == metadata_claims(members@),
{
    let mut r: Vec<MemberWithAssignment> = Vec::new();
    let mut k: usize = 0;
    while k < members.len()
        invariant
            k <= members.len(),
            r@.len() == k,
            forall|i: int| 0 <= i < k ==> (#[trigger] r@[i]).claim() == members@[i].claim(),
        decreases members.len() - k,
    {
        let m = &members[k];
        let mut assignment: Vec<TopicPartition> = Vec::new();
        push_partitions(&mut assignment, &m.assigned_topic_partitions);
        push_partitions(&mut assignment, &m.owned_topic_partitions);
        let claimant = MemberWithAssignment {
            member: Member {
                id: m.id.clone(),
                client_id: m.client_id.clone(),
                client_host: m.client_host.clone(),
            },
            assignment,
        };
        assert(claimant.assignment@ =~= m.assigned_topic_partitions@ + m.owned_topic_partitions@);
        assert(claimant.claim() =~~= m.claim());
        r.push(claimant);
        k = k + 1;
    }
    assert(claims(r@) =~= metadata_claims(members@));
    r
}

impl LagRegister {
    /// Takes a group's metadata in: the group's entries follow the owners
    /// that the metadata names. Metadata without members, of this service's
    /// own group, or of a group that the register does not hold, is dropped.
    pub fn process_group_metadata(&mut self, gm: GroupMetadata) -> (outcome: EventOutcome)
        requires
            old(self).wf(),
        ensures
            final(self).wf(),
            final(self).known_hash() == old(self).known_hash(),
            final(self)@ == after_group_metadata(old(self)@, gm),
            outcome == metadata_outcome(old(self)@, gm),
    {
        if gm.members.len() == 0 {
            return EventOutcome::NoMembers;
        }
        if gm.group == String::from_str(OWN_CONSUMER_GROUP) {
            return EventOutcome::OwnGroup;
        }
        match self.lag_by_group.position(&gm.group) {
            Some(i) => {
                let members = claimants(&gm.members);
                let new_owners = owners_by_partition(&members);
                proof {
                    self.lag_by_group.lemma_entry(i as int);
                }
                let group = self.lag_by_group.value_mut(i);
                group.assign_owners(&new_owners);
                proof {
                    Self::lemma_group_changed(*old(self), *self, i as int);
                }
                EventOutcome::Applied
            },
            None => EventOutcome::UnknownGroup,
        }
    }

    /// Takes over the groups of the consumer groups register: every group
    /// that it knows is in the lag register afterwards, with an entry for
    /// each partition that a member owns and none besides; every other
    /// group has left. Lags of partitions that stay are kept.
    pub fn process_consumer_groups(&mut self, cg_reg: &ConsumerGroupsRegister)
        requires
            old(self).wf(),
            cg_reg.wf(),
        ensures
            final(self).wf(),
            final(self).known_hash() == old(self).known_hash(),
            final(self)@ == after_import(old(self)@, cg_reg.known()),
    {
        let known = cg_reg.groups();
        let mut fresh: OrderedMap<String, GroupWithLag> = OrderedMap::new();
        let n = known.groups.len();
        let mut i: usize = 0;
        while i < n
            invariant
                i <= n,
                n == known.groups.keys().len(),
                known.wf(),
                *known == cg_reg.known(),
                self.wf(),
                *self == *old(self),
                fresh.wf(),
                forall|name: Seq<char>|
                    fresh@.contains_key(name) <==> exists|j: int|
                        0 <= j < i && #[trigger] known.groups.keys()[j] == name,
                forall|name: Seq<char>| #[trigger]
                    fresh@.contains_key(name) ==> fresh@[name].wf() && fresh@[name]@
                        == after_import(self@, *known)[name],
            decreases n - i,
        {
            let name = known.groups.key_at(i);
            let listed = known.groups.value_at(i);
            proof {
                known.groups.lemma_entry(i as int);
            }
            let new_owners = owners_by_partition(listed.members.values_ref());
            let previous = self.lag_by_group.get(name);
            let group = GroupWithLag::reconcile(previous, listed.group.clone(), &new_owners);
            let ghost before = fresh@;
            assert(group@ =~~= after_import(self@, *known)[name@]);
            fresh.insert(name.duplicate(), group);
            assert forall|g: Seq<char>|
                fresh@.contains_key(g) <==> exists|j: int|
                    0 <= j < i + 1 && #[trigger] known.groups.keys()[j] == g by {
                if before.contains_key(g) {
                    let j = choose|j: int| 0 <= j < i && #[trigger] known.groups.keys()[j] == g;
                    assert(0 <= j < i + 1 && known.groups.keys()[j] == g);
                }
                if exists|j: int| 0 <= j < i + 1 && #[trigger] known.groups.keys()[j] == g {
                    let j = choose|j: int| 0 <= j < i + 1 && #[trigger] known.groups.keys()[j] == g;
                    if j < i {
                        assert(before.contains_key(g));
                    }
                }
            }
            i = i + 1;
        }
        proof {
            let expected = after_import(self@, *known);
            assert forall|g: Seq<char>| fresh@.contains_key(g) == expected.contains_key(g) by {
                if known.groups@.contains_key(g) {
                    known.groups.lemma_position(g);
                }
                if fresh@.contains_key(g) {
                    let j = choose|j: int| 0 <= j < i && #[trigger] known.groups.keys()[j] == g;
                    known.groups.lemma_entry(j);
                }
            }
        }
        self.lag_by_group = fresh;
        proof {
            assert(self@ =~= after_import(old(self)@, cg_reg.known()));
        }
    }

    /// Looks at every entry of the register at `now` and refreshes the lags
    /// that are stale, against the histories in `po_reg`.
    pub fn update_stale_lags_at(&mut self, po_reg: &PartitionOffsetsRegister, now: Timestamp)
        requires
            old(self).wf(),
            po_reg.wf(),
        ensures
            final(self).wf(),
            final(self).known_hash() == old(self).known_hash(),
            final(self)@ == after_refresh(old(self)@, *po_reg, now),
    {
        let n = self.lag_by_group.len();
        let mut i: usize = 0;
        while i < n
            invariant
                i <= n,
                po_reg.wf(),
                old(self).wf(),
                self.groups_hash == old(self).groups_hash,
                n == self.lag_by_group.keys().len(),
                self.lag_by_group.wf(),
                self.lag_by_group.keys() == old(self).lag_by_group.keys(),
                self.lag_by_group.values().len() == n,
                forall|j: int|
                    0 <= j < i ==> (#[trigger] self.lag_by_group.values()[j]).wf()
                        && self.lag_by_group.values()[j]@ == (GroupWithLagView {
                        group: old(self).lag_by_group.values()[j].group,
                        lags: refreshed_entries(
                            old(self).lag_by_group.values()[j]@.lags,
                            *po_reg,
                            now,
                        ),
                    }),
                forall|j: int|
                    i <= j < n ==> #[trigger] self.lag_by_group.values()[j] == old(
                        self,
                    ).lag_by_group.values()[j],
            decreases n - i,
        {
            proof {
                old(self).lag_by_group.lemma_entry(i as int);
            }
            let group = self.lag_by_group.value_mut(i);
            group.refresh(po_reg, now);
            i = i + 1;
        }
        proof {
            let expected = after_refresh(old(self)@, *po_reg, now);
            assert forall|g: Seq<char>| self.lag_by_group@.contains_key(g) implies (
            #[trigger] self.lag_by_group@[g]).wf() && self.lag_by_group@[g]@ == expected[g] by {
                self.lag_by_group.lemma_position(g);
                old(self).lag_by_group.lemma_position(g);
            }
            assert(self@ =~= expected);
        }
    }

    /// Refreshes the stale lags as of the system clock's time.
    pub fn update_stale_lags(&mut self, po_reg: &PartitionOffsetsRegister)
        requires
            old(self).wf(),
            po_reg.wf(),
        ensures
            final(self).wf(),
            final(self).known_hash() == old(self).known_hash(),
            exists|now: Timestamp| final(self)@ == after_refresh(old(self)@, *po_reg, now),
    {
        let now = Timestamp::now();
        self.update_stale_lags_at(po_reg, now);
    }

    /// Whether the register has anything to report: some group with at
    /// least one entry.
    pub fn is_ready(&self) -> (ready: bool)
        requires
            self.wf(),
        ensures
            ready == exists|name: Seq<char>, tp: (Seq<char>, u32)|
                self@.contains_key(name) && #[trigger] self@[name].lags.contains_key(tp),
    {
        let n = self.lag_by_group.len();
        let mut i: usize = 0;
        while i < n
            invariant
                i <= n,
                self.wf(),
                n == self.lag_by_group.keys().len(),
                forall|j: int, tp: (Seq<char>, u32)|
                    0 <= j < i ==> !#[trigger] self.lag_by_group.values()[j]@.lags.contains_key(tp),
            decreases n - i,
        {
            let group = self.lag_by_group.value_at(i);
            proof {
                self.lag_by_group.lemma_entry(i as int);
            }
            if group.lag_by_topic_partition.len() > 0 {
                proof {
                    let name = self.lag_by_group.keys()[i as int];
                    group.lag_by_topic_partition.lemma_entry(0);
                    let tp = group.lag_by_topic_partition.keys()[0];
                    assert(self@.contains_key(name) && self@[name].lags.contains_key(tp));
                }
                return true;
            }
            assert forall|tp: (Seq<char>, u32)| !group@.lags.contains_key(tp) by {
                if group@.lags.contains_key(tp) {
                    group.lag_by_topic_partition.lemma_position(tp);
                }
            }
            i = i + 1;
        }
        proof {
            assert forall|name: Seq<char>, tp: (Seq<char>, u32)|
                !(self@.contains_key(name) && #[trigger] self@[name].lags.contains_key(tp)) by {
                if self@.contains_key(name) {
                    self.lag_by_group.lemma_position(name);
                }
            }
        }
        false
    }
}

/// What the reconciler waits for: a record of the consumer-offsets topic,
/// the next tick of its interval, or the end of its inputs.
#[derive(Debug)]
pub enum ReconcilerInput {
    Record(KonsumerOffsetsData),
    Tick,
    Closed,
}

/// What the reconciler did with an input.
#[derive(Clone, Copy, Debug, PartialEq, Eq, Structural)]
pub enum ReconcilerOutput {
    /// It handled a record, with this outcome.
    Handled(EventOutcome),
    /// It ticked; `imported` says whether it took the groups over anew.
    Ticked { imported: bool },
    /// Its inputs are closed: the loop ends.
    Stopped,
}

/// The register after a record of the consumer-offsets topic.
pub open spec fn after_record(
    reg: Map<Seq<char>, GroupWithLagView>,
    data: KonsumerOffsetsData,
    po_reg: PartitionOffsetsRegister,
) -> Map<Seq<char>, GroupWithLagView> {
    match data {
        KonsumerOffsetsData::OffsetCommit(oc) => after_commit(
            reg,
            oc,
            po_reg.history((oc.topic@, oc.partition)),
        ),
        KonsumerOffsetsData::GroupMetadata(gm) => after_group_metadata(reg, gm),
    }
}

/// What becomes of a record of the consumer-offsets topic.
pub open spec fn outcome_of(
    reg: Map<Seq<char>, GroupWithLagView>,
    data: KonsumerOffsetsData,
) -> EventOutcome {
    match data {
        KonsumerOffsetsData::OffsetCommit(oc) => outcome_for(reg, oc.group@),
        KonsumerOffsetsData::GroupMetadata(gm) => metadata_outcome(reg, gm),
    }
}

/// The register after a tick at `now`: the groups are taken over anew if
/// the token of the groups register is not the one that the lag register
/// remembers; then the stale lags are refreshed.
pub open spec fn after_tick(
    reg: Map<Seq<char>, GroupWithLagView>,
    known_hash: u64,
    cg_reg: ConsumerGroupsRegister,
    po_reg: PartitionOffsetsRegister,
    now: Timestamp,
) -> Map<Seq<char>, GroupWithLagView> {
    after_refresh(
        if known_hash != cg_reg.hash() {
            after_import(reg, cg_reg.known())
        } else {
            reg
        },
        po_reg,
        now,
    )
}

/// After the groups were taken over, every group of the groups register is
/// in the lag register, and its entries are exactly the partitions that are
/// assigned to one of its members.
pub proof fn lemma_import_partitions(
    reg: Map<Seq<char>, GroupWithLagView>,
    known: ConsumerGroups,
    name: Seq<char>,
    tp: (Seq<char>, u32),
)
    requires
        known.groups@.contains_key(name),
    ensures
        after_import(reg, known).contains_key(name),
        after_import(reg, known)[name].lags.contains_key(tp) <==> exists|i: int|
            0 <= i < known.groups@[name].members.values().len() && partition_set(
                (#[trigger] known.groups@[name].members.values()[i]).assignment@,
            ).contains(tp),
{
    let members = known.groups@[name].members.values();
    let all = claims(members);
    lemma_owned_is_union_of_claims(all, tp);
    if exists|i: int| 0 <= i < all.len() && (#[trigger] all[i]).partitions.contains(tp) {
        let i = choose|i: int| 0 <= i < all.len() && (#[trigger] all[i]).partitions.contains(tp);
        let j = choose|j: int|
            0 <= j < all[i].partitions.len() && all[i].partitions[j] == tp;
        assert(members[i].assignment@[j]@ == tp);
        assert(partition_set(members[i].assignment@).contains(tp));
    }
    if exists|i: int|
        0 <= i < members.len() && partition_set((#[trigger] members[i]).assignment@).contains(tp) {
        let i = choose|i: int|
            0 <= i < members.len() && partition_set((#[trigger] members[i]).assignment@).contains(
                tp,
            );
        let j = choose|j: int|
            0 <= j < members[i].assignment@.len() && (#[trigger] members[i].assignment@[j])@ == tp;
        assert(all[i].partitions[j] == tp);
        assert(all[i].partitions.contains(tp));
    }
}

/// The same after a tick that takes the groups over: refreshing adds and
/// removes no entry.
pub proof fn lemma_tick_partitions(
    reg: Map<Seq<char>, GroupWithLagView>,
    known_hash: u64,
    cg_reg: ConsumerGroupsRegister,
    po_reg: PartitionOffsetsRegister,
    now: Timestamp,
    name: Seq<char>,
    tp: (Seq<char>, u32),
)
    requires
        known_hash != cg_reg.hash(),
        cg_reg.known().groups@.contains_key(name),
    ensures
        after_tick(reg, known_hash, cg_reg, po_reg, now).contains_key(name),
        after_tick(reg, known_hash, cg_reg, po_reg, now)[name].lags.contains_key(tp)
            <==> exists|i: int|
            0 <= i < cg_reg.known().groups@[name].members.values().len() && partition_set(
                (#[trigger] cg_reg.known().groups@[name].members.values()[i]).assignment@,
            ).contains(tp),
{
    lemma_import_partitions(reg, cg_reg.known(), name, tp);
}

/// After a tick at `now`, no lag is left stale whose partition has samples:
/// each such lag was computed at `now`, for the same commit.
pub proof fn lemma_tick_refreshes_stale_lags(
    reg: Map<Seq<char>, GroupWithLagView>,
    po_reg: PartitionOffsetsRegister,
    now: Timestamp,
    name: Seq<char>,
    tp: (Seq<char>, u32),
)
    requires
        reg.contains_key(name),
        reg[name].lags.contains_key(tp),
        reg[name].lags[tp].lag is Some,
        reg[name].lags[tp].lag->0.stale_at(now),
        po_reg.history(tp).len() > 0,
    ensures
        after_refresh(reg, po_reg, now).contains_key(name),
        after_refresh(reg, po_reg, now)[name].lags.contains_key(tp),
        after_refresh(reg, po_reg, now)[name].lags[tp].lag is Some,
        after_refresh(reg, po_reg, now)[name].lags[tp].lag->0.timestamp == now,
        after_refresh(reg, po_reg, now)[name].lags[tp].lag->0.offset == reg[name].lags[tp].lag->0.offset,
        after_refresh(reg, po_reg, now)[name].lags[tp].lag->0.offset_timestamp
            == reg[name].lags[tp].lag->0.offset_timestamp,
        after_refresh(reg, po_reg, now)[name].lags[tp].owner == reg[name].lags[tp].owner,
{
}

/// A group that has left the groups register has left the lag register
/// after the next tick: if the lag register remembers the token that the
/// groups register had while it held the group, and the groups register was
/// then updated to a listing without the group, the tick removes the group.
pub proof fn lemma_removed_group_leaves(
    reg: Map<Seq<char>, GroupWithLagView>,
    before: ConsumerGroupsRegister,
    after: ConsumerGroupsRegister,
    po_reg: PartitionOffsetsRegister,
    now: Timestamp,
    name: Seq<char>,
)
    requires
        after.hash() == next_hash(before.hash(), before.known()@, after.known()@),
        before.known().groups@.contains_key(name),
        !after.known().groups@.contains_key(name),
    ensures
        !after_tick(reg, before.hash(), after, po_reg, now).contains_key(name),
{
    assert(before.known()@.contains_key(name));
    assert(!after.known()@.contains_key(name));
}

impl LagRegister {
    /// A register that holds the groups of the consumer groups register,
    /// without any lag, and remembers the register's token.
    pub fn new(cg_reg: &ConsumerGroupsRegister) -> (r: Self)
        requires
            cg_reg.wf(),
        ensures
            r.wf(),
            r.known_hash() == cg_reg.hash(),
            r@ == after_import(Map::empty(), cg_reg.known()),
    {
        let mut r = LagRegister { lag_by_group: OrderedMap::new(), groups_hash: cg_reg.get_hash() };
        assert(r@ =~= Map::<Seq<char>, GroupWithLagView>::empty());
        r.process_consumer_groups(cg_reg);
        r
    }

    /// Handles one record of the consumer-offsets topic.
    pub fn handle(&mut self, data: KonsumerOffsetsData, po_reg: &PartitionOffsetsRegister) -> (outcome:
        EventOutcome)
        requires
            old(self).wf(),
            po_reg.wf(),
        ensures
            final(self).wf(),
            final(self).known_hash() == old(self).known_hash(),
            final(self)@ == after_record(old(self)@, data, *po_reg),
            outcome == outcome_of(old(self)@, data),
    {
        match data {
            KonsumerOffsetsData::OffsetCommit(oc) => self.process_offset_commit(oc, po_reg),
            KonsumerOffsetsData::GroupMetadata(gm) => self.process_group_metadata(gm),
        }
    }

    /// One tick of the reconciler at `now`: takes the groups over anew if
    /// the groups register has changed since the last time, then refreshes
    /// the stale lags.
    pub fn tick_at(
        &mut self,
        cg_reg: &ConsumerGroupsRegister,
        po_reg: &PartitionOffsetsRegister,
        now: Timestamp,
    ) -> (imported: bool)
        requires
            old(self).wf(),
            cg_reg.wf(),
            po_reg.wf(),
        ensures
            final(self).wf(),
            imported == (old(self).known_hash() != cg_reg.hash()),
            final(self).known_hash() == cg_reg.hash(),
            final(self)@ == after_tick(old(self)@, old(self).known_hash(), *cg_reg, *po_reg, now),
    {
        let latest = cg_reg.get_hash();
        let imported = self.groups_hash != latest;
        if imported {
            self.process_consumer_groups(cg_reg);
            self.groups_hash = latest;
        }
        self.update_stale_lags_at(po_reg, now);
        imported
    }

    /// Whether `after`, with `output`, is what one turn of the reconciler's
    /// loop at `now` makes of `self`.
    pub open spec fn stepped(
        &self,
        input: ReconcilerInput,
        cg_reg: ConsumerGroupsRegister,
        po_reg: PartitionOffsetsRegister,
        now: Timestamp,
        after: LagRegister,
        output: ReconcilerOutput,
    ) -> bool {
        match input {
            ReconcilerInput::Record(data) => {
                &&& output == ReconcilerOutput::Handled(outcome_of(self@, data))
                &&& after@ == after_record(self@, data, po_reg)
                &&& after.known_hash() == self.known_hash()
            },
            ReconcilerInput::Tick => {
                &&& output == (ReconcilerOutput::Ticked {
                    imported: self.known_hash() != cg_reg.hash(),
                })
                &&& after@ == after_tick(self@, self.known_hash(), cg_reg, po_reg, now)
                &&& after.known_hash() == cg_reg.hash()
            },
            ReconcilerInput::Closed => {
                &&& output == ReconcilerOutput::Stopped
                &&& after@ == self@
                &&& after.known_hash() == self.known_hash()
            },
        }
    }

    /// One turn of the reconciler's loop at `now`.
    pub fn step_at(
        &mut self,
        input: ReconcilerInput,
        cg_reg: &ConsumerGroupsRegister,
        po_reg: &PartitionOffsetsRegister,
        now: Timestamp,
    ) -> (output: ReconcilerOutput)
        requires
            old(self).wf(),
            cg_reg.wf(),
            po_reg.wf(),
        ensures
            final(self).wf(),
            old(self).stepped(input, *cg_reg, *po_reg, now, *final(self), output),
    {
        match input {
            ReconcilerInput::Record(data) => ReconcilerOutput::Handled(self.handle(data, po_reg)),
            ReconcilerInput::Tick => ReconcilerOutput::Ticked {
                imported: self.tick_at(cg_reg, po_reg, now),
            },
            ReconcilerInput::Closed => ReconcilerOutput::Stopped,
        }
    }

    /// One turn of the reconciler's loop. A tick happens at the time that
    /// the system clock shows.
    pub fn step(
        &mut self,
        input: ReconcilerInput,
        cg_reg: &ConsumerGroupsRegister,
        po_reg: &PartitionOffsetsRegister,
    ) -> (output: ReconcilerOutput)
        requires
            old(self).wf(),
            cg_reg.wf(),
            po_reg.wf(),
        ensures
            final(self).wf(),
            exists|now: Timestamp| #[trigger]
                old(self).stepped(input, *cg_reg, *po_reg, now, *final(self), output),
    {
        let now = match input {
            ReconcilerInput::Tick => Timestamp::now(),
            _ => Timestamp::epoch(),
        };
        self.step_at(input, cg_reg, po_reg, now)
    }
}

} // verus!
