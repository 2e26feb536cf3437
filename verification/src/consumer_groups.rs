//! Consumer groups as the cluster lists them, and the register that holds
//! the latest listing.

use crate::emitter::{Emitter, EmitterState, EmitterTimings};
use crate::kafka_types::{views, TopicPartition};
use crate::ordered_map::{Content, Key, OrderedMap};
use vstd::prelude::*;

verus! {

/// A member of a consumer group.
#[derive(Debug)]
pub struct Member {
    pub id: String,
    pub client_id: String,
    pub client_host: String,
}

impl Clone for Member {
    fn clone(&self) -> (m: Self)
        ensures
            m == *self,
    {
        Member {
            id: self.id.clone(),
            client_id: self.client_id.clone(),
            client_host: self.client_host.clone(),
        }
    }
}

/// A member as plain text.
pub struct MemberView {
    pub id: Seq<char>,
    pub client_id: Seq<char>,
    pub client_host: Seq<char>,
}

impl View for Member {
    type V = MemberView;

    open spec fn view(&self) -> MemberView {
        MemberView { id: self.id@, client_id: self.client_id@, client_host: self.client_host@ }
    }
}

impl Content for Member {
    open spec fn valid(&self) -> bool {
        true
    }

    fn same_content(&self, other: &Self) -> (b: bool) {
        self.id == other.id && self.client_id == other.client_id && self.client_host
            == other.client_host
    }
}

/// A consumer group, without its members.
#[derive(Debug)]
pub struct Group {
    pub name: String,
    pub state: String,
    pub protocol: String,
    pub protocol_type: String,
}

impl Clone for Group {
    fn clone(&self) -> (g: Self)
        ensures
            g == *self,
    {
        Group {
            name: self.name.clone(),
            state: self.state.clone(),
            protocol: self.protocol.clone(),
            protocol_type: self.protocol_type.clone(),
        }
    }
}

/// A group as plain text.
pub struct GroupView {
    pub name: Seq<char>,
    pub state: Seq<char>,
    pub protocol: Seq<char>,
    pub protocol_type: Seq<char>,
}

impl View for Group {
    type V = GroupView;

    open spec fn view(&self) -> GroupView {
        GroupView {
            name: self.name@,
            state: self.state@,
            protocol: self.protocol@,
            protocol_type: self.protocol_type@,
        }
    }
}

impl Content for Group {
    open spec fn valid(&self) -> bool {
        true
    }

    fn same_content(&self, other: &Self) -> (b: bool) {
        self.name == other.name && self.state == other.state && self.protocol == other.protocol
            && self.protocol_type == other.protocol_type
    }
}

/// The partitions that occur in `tps`, as a set.
pub open spec fn partition_set(tps: Seq<TopicPartition>) -> Set<(Seq<char>, u32)> {
    Set::new(|tp: (Seq<char>, u32)| exists|j: int| 0 <= j < tps.len() && (#[trigger] tps[j])@ == tp)
}

/// Whether `tp` occurs in `tps`.
fn holds_partition(tps: &Vec<TopicPartition>, tp: &TopicPartition) -> (b: bool)
    ensures
        b == partition_set(tps@).contains(tp@),
{
    let mut j: usize = 0;
    while j < tps.len()
        invariant
            j <= tps.len(),
            forall|i: int| 0 <= i < j ==> (#[trigger] tps@[i])@ != tp@,
        decreases tps.len() - j,
    {
        if tps[j].same(tp) {
            return true;
        }
        j = j + 1;
    }
    false
}

/// Whether every partition of `part` occurs in `whole`.
fn covers(whole: &Vec<TopicPartition>, part: &Vec<TopicPartition>) -> (b: bool)
    ensures
        b == partition_set(part@).subset_of(partition_set(whole@)),
{
    let mut j: usize = 0;
    while j < part.len()
        invariant
            j <= part.len(),
            forall|i: int| 0 <= i < j ==> partition_set(whole@).contains((#[trigger] part@[i])@),
        decreases part.len() - j,
    {
        if !holds_partition(whole, &part[j]) {
            assert(partition_set(part@).contains(part@[j as int]@));
            return false;
        }
        j = j + 1;
    }
    true
}

/// A member together with the partitions assigned to it.
#[derive(Debug)]
pub struct MemberWithAssignment {
    pub member: Member,
    pub assignment: Vec<TopicPartition>,
}

/// A member with its assignment as a set of partitions.
#[verifier::ext_equal]
pub struct MemberWithAssignmentView {
    pub member: MemberView,
    pub assignment: Set<(Seq<char>, u32)>,
}

impl View for MemberWithAssignment {
    type V = MemberWithAssignmentView;

    open spec fn view(&self) -> MemberWithAssignmentView {
        MemberWithAssignmentView {
            member: self.member@,
            assignment: partition_set(self.assignment@),
        }
    }
}

impl Content for MemberWithAssignment {
    open spec fn valid(&self) -> bool {
        true
    }

    fn same_content(&self, other: &Self) -> (b: bool) {
        let b = self.member.same_content(&other.member) && covers(
            &self.assignment,
            &other.assignment,
        ) && covers(&other.assignment, &self.assignment);
        proof {
            if b {
                assert(self@.assignment =~= other@.assignment);
            }
        }
        b
    }
}

impl Clone for MemberWithAssignment {
    fn clone(&self) -> (m: Self)
        ensures
            m.member == self.member,
            m.assignment@ == self.assignment@,
            m@ == self@,
    {
        let mut assignment: Vec<TopicPartition> = Vec::new();
        let mut j: usize = 0;
        while j < self.assignment.len()
            invariant
                j <= self.assignment.len(),
                assignment@ == self.assignment@.take(j as int),
            decreases self.assignment.len() - j,
        {
            assignment.push(self.assignment[j].clone());
            assert(assignment@ =~= self.assignment@.take(j as int + 1));
            j = j + 1;
        }
        assert(self.assignment@.take(j as int) =~= self.assignment@);
        MemberWithAssignment { member: self.member.clone(), assignment }
    }
}

/// A member and the partitions that it lays claim to, in the order in which
/// they were named.
#[verifier::ext_equal]
pub struct Claim {
    pub member: Member,
    pub partitions: Seq<(Seq<char>, u32)>,
}

impl MemberWithAssignment {
    /// The member with its assignment as a claim.
    pub open spec fn claim(&self) -> Claim {
        Claim {
            member: self.member,
            partitions: views(self.assignment@),
        }
    }
}

/// The claims of a listing of members.
pub open spec fn claims(members: Seq<MemberWithAssignment>) -> Seq<Claim> {
    members.map_values(|m: MemberWithAssignment| m.claim())
}

/// The position of the claim that decides who owns `tp`: the last one that
/// names `tp`, or `-1` when none does.
pub open spec fn owner_index(claims: Seq<Claim>, tp: (Seq<char>, u32)) -> int
    decreases claims.len(),
{
    if claims.len() == 0 {
        -1
    } else if claims.last().partitions.contains(tp) {
        claims.len() - 1
    } else {
        owner_index(claims.drop_last(), tp)
    }
}

/// Who owns which partition: every partition that some claim names, with
/// the member of the last claim that names it.
pub open spec fn owners(claims: Seq<Claim>) -> Map<(Seq<char>, u32), Member> {
    Map::new(
        |tp: (Seq<char>, u32)| owner_index(claims, tp) >= 0,
        |tp: (Seq<char>, u32)| claims[owner_index(claims, tp)].member,
    )
}

/// The owner index is the position of a claim that names the partition, and
/// no later claim names it.
pub proof fn lemma_owner_index(claims: Seq<Claim>, tp: (Seq<char>, u32))
    ensures
        -1 <= owner_index(claims, tp) < claims.len(),
        owner_index(claims, tp) >= 0 ==> claims[owner_index(claims, tp)].partitions.contains(tp),
        forall|i: int|
            owner_index(claims, tp) < i < claims.len() ==> !(#[trigger] claims[i]).partitions.contains(
                tp,
            ),
    decreases claims.len(),
{
    if claims.len() == 0 {
    } else if claims.last().partitions.contains(tp) {
    } else {
        let rest = claims.drop_last();
        lemma_owner_index(rest, tp);
        assert forall|i: int| owner_index(claims, tp) < i < claims.len() implies !(
        #[trigger] claims[i]).partitions.contains(tp) by {
            if i < rest.len() {
                assert(rest[i] == claims[i]);
            }
        }
    }
}

/// A partition has an owner exactly when some claim names it: the owned
/// partitions are the union of what the members claim.
pub proof fn lemma_owned_is_union_of_claims(claims: Seq<Claim>, tp: (Seq<char>, u32))
    ensures
        owners(claims).contains_key(tp) <==> exists|i: int|
            0 <= i < claims.len() && (#[trigger] claims[i]).partitions.contains(tp),
{
    lemma_owner_index(claims, tp);
}

/// Whether `tp` is among the first `n` of `tps`.
spec fn among_first(tps: Seq<(Seq<char>, u32)>, n: int, tp: (Seq<char>, u32)) -> bool {
    exists|i: int| 0 <= i < n && #[trigger] tps[i] == tp
}

/// `before`, with the first `n` of `tps` given to `member`.
spec fn given_first(
    before: Map<(Seq<char>, u32), Member>,
    member: Member,
    tps: Seq<(Seq<char>, u32)>,
    n: int,
) -> Map<(Seq<char>, u32), Member> {
    Map::new(
        |tp: (Seq<char>, u32)| before.contains_key(tp) || among_first(tps, n, tp),
        |tp: (Seq<char>, u32)|
            if among_first(tps, n, tp) {
                member
            } else {
                before[tp]
            },
    )
}

proof fn lemma_given_next(
    before: Map<(Seq<char>, u32), Member>,
    member: Member,
    tps: Seq<(Seq<char>, u32)>,
    n: int,
)
    requires
        0 <= n < tps.len(),
    ensures
        given_first(before, member, tps, n + 1) == given_first(before, member, tps, n).insert(
            tps[n],
            member,
        ),
{
    let a = given_first(before, member, tps, n + 1);
    let b = given_first(before, member, tps, n).insert(tps[n], member);
    assert forall|tp: (Seq<char>, u32)| among_first(tps, n + 1, tp) <==> among_first(tps, n, tp)
        || tps[n] == tp by {
        if among_first(tps, n + 1, tp) {
            let i = choose|i: int| 0 <= i < n + 1 && #[trigger] tps[i] == tp;
            if i < n {
                assert(among_first(tps, n, tp));
            }
        }
        if among_first(tps, n, tp) {
            let i = choose|i: int| 0 <= i < n && #[trigger] tps[i] == tp;
            assert(0 <= i < n + 1 && tps[i] == tp);
        }
        if tps[n] == tp {
            assert(0 <= n < n + 1 && tps[n] == tp);
        }
    }
    assert(a =~= b);
}

/// Builds the map from partition to owner for a listing of members.
pub fn owners_by_partition(members: &Vec<MemberWithAssignment>) -> (r: OrderedMap<
    TopicPartition,
    Member,
>)
    ensures
        r.wf(),
        r@ == owners(claims(members@)),
{
    let mut r: OrderedMap<TopicPartition, Member> = OrderedMap::new();
    let mut k: usize = 0;
    let ghost all = claims(members@);
    assert(r@ =~= owners(all.take(0)));
    while k < members.len()
        invariant
            k <= members.len(),
            all == claims(members@),
            r.wf(),
            r@ == owners(all.take(k as int)),
        decreases members.len() - k,
    {
        let member = &members[k];
        let ghost before = r@;
        let ghost tps = member.claim().partitions;
        let mut j: usize = 0;
        assert(r@ =~= given_first(before, member.member, tps, 0));
        while j < member.assignment.len()
            invariant
                j <= member.assignment.len(),
                tps == member.claim().partitions,
                r.wf(),
                r@ == given_first(before, member.member, tps, j as int),
            decreases member.assignment.len() - j,
        {
            let tp = &member.assignment[j];
            proof {
                lemma_given_next(before, member.member, tps, j as int);
            }
            r.insert(tp.duplicate(), member.member.clone());
            j = j + 1;
        }
        proof {
            let next = all.take(k as int + 1);
            assert(next.drop_last() =~= all.take(k as int));
            assert(next.last() == member.claim());
            assert forall|tp: (Seq<char>, u32)| among_first(tps, j as int, tp) == tps.contains(
                tp,
            ) by {
                if tps.contains(tp) {
                    let i = choose|i: int| 0 <= i < tps.len() && tps[i] == tp;
                    assert(0 <= i < j && tps[i] == tp);
                }
            }
            assert forall|tp: (Seq<char>, u32)| r@.contains_key(tp) == owners(next).contains_key(
                tp,
            ) by {
                lemma_owner_index(next, tp);
                lemma_owner_index(next.drop_last(), tp);
            }
            assert forall|tp: (Seq<char>, u32)| r@.contains_key(tp) implies #[trigger] r@[tp]
                == owners(next)[tp] by {
                lemma_owner_index(next, tp);
                lemma_owner_index(next.drop_last(), tp);
                if !tps.contains(tp) {
                    assert(next[owner_index(next.drop_last(), tp)] == next.drop_last()[owner_index(
                        next.drop_last(),
                        tp,
                    )]);
                }
            }
            assert(r@ =~= owners(next));
        }
        k = k + 1;
    }
    assert(all.take(k as int) =~= all);
    r
}

/// The content of a group with its members.
#[verifier::ext_equal]
pub struct GroupWithMembersView {
    pub group: GroupView,
    pub members: Map<Seq<char>, MemberWithAssignmentView>,
}

/// A group with its members, each under its member id.
#[derive(Debug)]
pub struct GroupWithMembers {
    pub group: Group,
    pub members: OrderedMap<String, MemberWithAssignment>,
}

impl View for GroupWithMembers {
    type V = GroupWithMembersView;

    open spec fn view(&self) -> GroupWithMembersView {
        GroupWithMembersView { group: self.group@, members: self.members.content() }
    }
}

impl GroupWithMembers {
    /// No member id occurs twice.
    pub open spec fn wf(&self) -> bool {
        self.members.wf()
    }

    /// Who owns which partition in this group.
    pub open spec fn owners(&self) -> Map<(Seq<char>, u32), Member> {
        owners(claims(self.members.values()))
    }
}

impl Content for GroupWithMembers {
    open spec fn valid(&self) -> bool {
        self.wf()
    }

    fn same_content(&self, other: &Self) -> (b: bool) {
        self.group.same_content(&other.group) && self.members.same_content(&other.members)
    }
}

/// A group as a listing of the cluster names it: the group and its members
/// one after the other.
#[derive(Debug)]
pub struct GroupListing {
    pub group: Group,
    pub members: Vec<MemberWithAssignment>,
}

/// The members of a listing under their ids. Where an id occurs twice, the
/// later member stands.
pub open spec fn members_by_id(members: Seq<MemberWithAssignment>) -> Map<
    Seq<char>,
    MemberWithAssignmentView,
>
    decreases members.len(),
{
    if members.len() == 0 {
        Map::empty()
    } else {
        members_by_id(members.drop_last()).insert(members.last().member.id@, members.last()@)
    }
}

impl View for GroupListing {
    type V = GroupWithMembersView;

    open spec fn view(&self) -> GroupWithMembersView {
        GroupWithMembersView { group: self.group@, members: members_by_id(self.members@) }
    }
}

/// The groups of a listing under their names. Where a name occurs twice, the
/// later group stands.
pub open spec fn groups_by_name(listing: Seq<GroupListing>) -> Map<Seq<char>, GroupWithMembersView>
    decreases listing.len(),
{
    if listing.len() == 0 {
        Map::empty()
    } else {
        groups_by_name(listing.drop_last()).insert(listing.last().group.name@, listing.last()@)
    }
}

/// All consumer groups known at one point in time, each under its name.
#[derive(Debug)]
pub struct ConsumerGroups {
    pub groups: OrderedMap<String, GroupWithMembers>,
}

impl View for ConsumerGroups {
    type V = Map<Seq<char>, GroupWithMembersView>;

    /// The content: each group's name with the group and its members.
    open spec fn view(&self) -> Map<Seq<char>, GroupWithMembersView> {
        self.groups.content()
    }
}

impl ConsumerGroups {
    /// No group name occurs twice, and within a group no member id.
    pub open spec fn wf(&self) -> bool {
        &&& self.groups.wf()
        &&& self.groups.all_valid()
    }

    /// No groups at all.
    pub fn new() -> (r: Self)
        ensures
            r.wf(),
            r.groups@ == Map::<Seq<char>, GroupWithMembers>::empty(),
            r@ == Map::<Seq<char>, GroupWithMembersView>::empty(),
    {
        let r = ConsumerGroups { groups: OrderedMap::new() };
        assert(r@ =~= Map::<Seq<char>, GroupWithMembersView>::empty());
        r
    }

    /// The groups of a listing, each under its name with its members under
    /// their ids.
    pub fn from(listing: Vec<GroupListing>) -> (r: Self)
        ensures
            r.wf(),
            r@ == groups_by_name(listing@),
    {
        let mut groups: OrderedMap<String, GroupWithMembers> = OrderedMap::new();
        assert(groups.content() =~= groups_by_name(listing@.take(0)));
        let mut k: usize = 0;
        while k < listing.len()
            invariant
                k <= listing.len(),
                groups.wf(),
                groups.all_valid(),
                groups.content() == groups_by_name(listing@.take(k as int)),
            decreases listing.len() - k,
        {
            let listed = &listing[k];
            let mut members: OrderedMap<String, MemberWithAssignment> = OrderedMap::new();
            assert(members.content() =~= members_by_id(listed.members@.take(0)));
            let mut j: usize = 0;
            while j < listed.members.len()
                invariant
                    j <= listed.members.len(),
                    members.wf(),
                    members.content() == members_by_id(listed.members@.take(j as int)),
                decreases listed.members.len() - j,
            {
                let member = &listed.members[j];
                let ghost before = members.content();
                members.insert(member.member.id.clone(), member.clone());
                proof {
                    let next = listed.members@.take(j as int + 1);
                    assert(next.drop_last() =~= listed.members@.take(j as int));
                    assert(next.last() == *member);
                    assert(members.content() =~= before.insert(member.member.id@, member@));
                }
                j = j + 1;
            }
            assert(listed.members@.take(j as int) =~= listed.members@);
            let group = GroupWithMembers { group: listed.group.clone(), members };
            assert(group@ =~~= listed@);
            let ghost before = groups.content();
            groups.insert(listed.group.name.clone(), group);
            proof {
                let next = listing@.take(k as int + 1);
                assert(next.drop_last() =~= listing@.take(k as int));
                assert(next.last() == *listed);
                assert(groups.content() =~= before.insert(listed.group.name@, listed@));
            }
            k = k + 1;
        }
        assert(listing@.take(k as int) =~= listing@);
        ConsumerGroups { groups }
    }

    /// Whether two listings have the same content: the same groups, each
    /// with the same members and assignments, in whatever order.
    pub fn same_content(&self, other: &Self) -> (b: bool)
        requires
            self.wf(),
            other.wf(),
        ensures
            b == (self@ == other@),
    {
        self.groups.same_content(&other.groups)
    }
}

/// The token that follows `hash` when content `before` gives way to content
/// `after`: the same token for the same content, the next one otherwise.
pub open spec fn next_hash(
    hash: u64,
    before: Map<Seq<char>, GroupWithMembersView>,
    after: Map<Seq<char>, GroupWithMembersView>,
) -> u64 {
    if before == after {
        hash
    } else if hash == u64::MAX {
        0
    } else {
        (hash + 1) as u64
    }
}

/// Holds the latest listing of consumer groups, and a token that tells one
/// content of the register from the next.
#[derive(Debug)]
pub struct ConsumerGroupsRegister {
    known: ConsumerGroups,
    hash: u64,
}

impl ConsumerGroupsRegister {
    /// The listing that the register holds.
    pub closed spec fn known(&self) -> ConsumerGroups {
        self.known
    }

    /// The version token.
    pub closed spec fn hash(&self) -> u64 {
        self.hash
    }

    /// The listing is well-formed.
    pub open spec fn wf(&self) -> bool {
        self.known().wf()
    }

    /// A register that knows no group.
    pub fn new() -> (r: Self)
        ensures
            r.wf(),
            r.known().groups@ == Map::<Seq<char>, GroupWithMembers>::empty(),
            r.known()@ == Map::<Seq<char>, GroupWithMembersView>::empty(),
            r.hash() == 0,
    {
        ConsumerGroupsRegister { known: ConsumerGroups::new(), hash: 0 }
    }

    /// Replaces the listing by `snapshot`. The token changes if and only if
    /// the content does.
    pub fn update(&mut self, snapshot: ConsumerGroups)
        requires
            old(self).wf(),
            snapshot.wf(),
        ensures
            final(self).wf(),
            final(self).known() == snapshot,
            final(self).hash() == next_hash(old(self).hash(), old(self).known()@, snapshot@),
            final(self).hash() != old(self).hash() <==> snapshot@ != old(self).known()@,
            follows(*old(self), *final(self)),
    {
        if !self.known.same_content(&snapshot) {
            self.hash = if self.hash == u64::MAX {
                0
            } else {
                self.hash + 1
            };
        }
        self.known = snapshot;
    }

    /// The listing that the register holds.
    pub fn groups(&self) -> (g: &ConsumerGroups)
        ensures
            *g == self.known(),
    {
        &self.known
    }

    /// The names of the groups.
    pub fn get_groups(&self) -> (names: Vec<String>)
        requires
            self.wf(),
        ensures
            names@.len() == self.known().groups.keys().len(),
            forall|i: int|
                0 <= i < names@.len() ==> (#[trigger] names@[i])@ == self.known().groups.keys()[i],
    {
        let mut names: Vec<String> = Vec::new();
        let n = self.known.groups.len();
        let mut i: usize = 0;
        while i < n
            invariant
                i <= n,
                n == self.known.groups.keys().len(),
                self.wf(),
                names@.len() == i,
                forall|j: int|
                    0 <= j < i ==> (#[trigger] names@[j])@ == self.known.groups.keys()[j],
            decreases n - i,
        {
            let name = self.known.groups.key_at(i).duplicate();
            names.push(name);
            i = i + 1;
        }
        names
    }

    /// The group of that name with its members, if the register holds it.
    pub fn get_group(&self, name: &String) -> (r: Option<&GroupWithMembers>)
        requires
            self.wf(),
        ensures
            match r {
                Some(g) => self.known().groups@.contains_key(name@) && *g
                    == self.known().groups@[name@],
                None => !self.known().groups@.contains_key(name@),
            },
    {
        self.known.groups.get(name)
    }

    /// The version token.
    pub fn get_hash(&self) -> (h: u64)
        ensures
            h == self.hash(),
    {
        self.hash
    }
}

/// Whether register `after` can have come from `before` by one update: its
/// token is the one that follows for its content.
pub open spec fn follows(before: ConsumerGroupsRegister, after: ConsumerGroupsRegister) -> bool {
    after.hash() == next_hash(before.hash(), before.known()@, after.known()@)
}

/// Whether `states` is a life of a register: each state came from the one
/// before by an update.
pub open spec fn updates(states: Seq<ConsumerGroupsRegister>) -> bool {
    forall|k: int| 0 <= k < states.len() - 1 ==> follows(#[trigger] states[k], states[k + 1])
}

/// How many of the updates from state `i` to state `j` changed the content.
pub open spec fn changes(states: Seq<ConsumerGroupsRegister>, i: int, j: int) -> int
    decreases j - i,
{
    if j <= i {
        0
    } else {
        changes(states, i, j - 1) + if states[j - 1].known()@ != states[j].known()@ {
            1int
        } else {
            0int
        }
    }
}

/// A token that stands for `count` steps modulo the size of a `u64` stands
/// for one more after it moved to the next.
proof fn lemma_next_token(start: int, count: int, token: int)
    requires
        0 <= count,
        0 <= start,
        token == (start + count) % 0x1_0000_0000_0000_0000,
    ensures
        (if token == 0xFFFF_FFFF_FFFF_FFFF {
            0
        } else {
            token + 1
        }) == (start + count + 1) % 0x1_0000_0000_0000_0000,
{
}

/// The token counts the changes of content, modulo the size of a `u64`.
proof fn lemma_token_counts_changes(states: Seq<ConsumerGroupsRegister>, i: int, j: int)
    requires
        updates(states),
        0 <= i <= j < states.len(),
    ensures
        0 <= changes(states, i, j) <= j - i,
        states[j].hash() == (states[i].hash() + changes(states, i, j)) % 0x1_0000_0000_0000_0000,
        changes(states, i, j) == 0 ==> states[i].known()@ == states[j].known()@,
    decreases j - i,
{
    if j > i {
        lemma_token_counts_changes(states, i, j - 1);
        assert(follows(states[j - 1], states[j]));
        if states[j - 1].known()@ != states[j].known()@ {
            lemma_next_token(
                states[i].hash() as int,
                changes(states, i, j - 1),
                states[j - 1].hash() as int,
            );
        }
    }
}

/// Two equal tokens mean equal content: if a register shows the same token
/// at two points of its life with fewer than 2^64 updates between them, it
/// holds the same content at both.
pub proof fn lemma_equal_tokens_equal_content(
    states: Seq<ConsumerGroupsRegister>,
    i: int,
    j: int,
)
    requires
        updates(states),
        0 <= i <= j < states.len(),
        j - i <= u64::MAX,
        states[i].hash() == states[j].hash(),
    ensures
        states[i].known()@ == states[j].known()@,
{
    lemma_token_counts_changes(states, i, j);
}

/// The channel of the consumer groups emitter holds one listing.
pub const CHANNEL_SIZE: usize = 1;

/// A listing may wait a tenth of a second for room in the channel.
pub const SEND_TIMEOUT_MILLIS: u64 = 100;

/// A fetch of the groups may take a tenth of a second.
pub const FETCH_TIMEOUT_MILLIS: u64 = 100;

/// The groups are fetched every second.
pub const FETCH_INTERVAL_MILLIS: u64 = 1000;

/// The numbers of the consumer groups emitter.
pub open spec fn consumer_groups_timings() -> EmitterTimings {
    EmitterTimings {
        fetch_interval_millis: FETCH_INTERVAL_MILLIS,
        fetch_timeout_millis: FETCH_TIMEOUT_MILLIS,
        send_timeout_millis: SEND_TIMEOUT_MILLIS,
        channel_size: CHANNEL_SIZE,
    }
}

/// Emits the listing of consumer groups at its interval.
#[derive(Debug)]
pub struct ConsumerGroupsEmitter {
    pub emitter: Emitter,
}

impl ConsumerGroupsEmitter {
    pub fn new() -> (e: Self)
        ensures
            e.emitter.timings == consumer_groups_timings(),
            e.emitter.state == EmitterState::Fetching,
    {
        ConsumerGroupsEmitter {
            emitter: Emitter::new(
                EmitterTimings {
                    fetch_interval_millis: FETCH_INTERVAL_MILLIS,
                    fetch_timeout_millis: FETCH_TIMEOUT_MILLIS,
                    send_timeout_millis: SEND_TIMEOUT_MILLIS,
                    channel_size: CHANNEL_SIZE,
                },
            ),
        }
    }
}

} // verus!
