//! The operation model: wire messages, their effect on local state, and
//! the follow-up operations they emit.
//!
//! Every inbound message decodes to one `Operation`.  Executing it
//! against the local `ClusterState` applies its side effects and
//! returns zero or more `SendableOperation`s: operations bundled with a
//! routing intent, awaiting transmission.

use crate::ids::{has_sep, ip_from_id, ip_of, Timestamp};
use crate::order::{clone_ids, id_views};
use crate::ring::{spec_predecessors, spec_successors};
use crate::smap::SMap;
use crate::state::ClusterState;
use crate::Error;
use crate::EXPIRATION_DURATION;
use vstd::prelude::*;

verus! {

/// Where an inbound operation came from: synthesized locally, or
/// received from a remote UDP endpoint.
pub enum Source {
    Myself,
    Remote(String),
}

/// Routing intent of an outbound operation: explicit UDP endpoints,
/// explicit TCP endpoints, or node identifiers to be resolved through
/// the address map at send time.
pub enum Destinations {
    UdpAddr(Vec<String>),
    TcpAddr(Vec<String>),
    Ids(Vec<String>),
}

pub struct HeartbeatOperation {
    pub id: String,
}

pub struct JoinOperation {
    pub id: String,
    pub tcp_addr: String,
}

pub struct LeaveOperation {
    pub id: String,
}

pub struct NewMemberOperation {
    pub id: String,
    pub tcp_addr: String,
}

pub struct MemberInitializationOperation {
    pub membership_list: Vec<String>,
    pub udp_to_tcp_map: Vec<(String, String)>,
    pub all_file_owners: Vec<(String, Vec<String>)>,
}

/// The closed set of wire messages, dispatched by their four byte tag.
pub enum Operation {
    Heartbeat(HeartbeatOperation),
    Join(JoinOperation),
    Leave(LeaveOperation),
    NewMember(NewMemberOperation),
    MemberInit(MemberInitializationOperation),
}

/// An operation bundled with its routing intent.
pub struct SendableOperation {
    pub dests: Destinations,
    pub operation: Operation,
}

/// The destinations are the given identifiers, to be resolved at send
/// time.
pub open spec fn sends_to_ids(s: SendableOperation, ids: Seq<Seq<char>>) -> bool {
    s.dests matches Destinations::Ids(d) && id_views(d@) == ids
}

/// The destinations are the given UDP endpoints.
pub open spec fn sends_to_udp(s: SendableOperation, ips: Seq<Seq<char>>) -> bool {
    s.dests matches Destinations::UdpAddr(d) && id_views(d@) == ips
}

impl SendableOperation {
    /// Routes `op` to this node's current successors.
    pub fn for_successors(state: &ClusterState, op: Operation) -> (r: SendableOperation)
        ensures
            sends_to_ids(r, state.successors()),
            r.operation == op,
    {
        SendableOperation { dests: Destinations::Ids(clone_ids(&state.successor_list)), operation: op }
    }

    /// Routes `op` to the static join-broadcast endpoints over UDP.
    pub fn for_everyone(state: &ClusterState, op: Operation) -> (r: SendableOperation)
        ensures
            sends_to_udp(r, id_views(state.peer_list@)),
            r.operation == op,
    {
        SendableOperation {
            dests: Destinations::UdpAddr(clone_ids(&state.peer_list)),
            operation: op,
        }
    }

    /// Routes `op` to one node.
    pub fn for_single(id: String, op: Operation) -> (r: SendableOperation)
        ensures
            sends_to_ids(r, seq![id@]),
            r.operation == op,
    {
        let mut d: Vec<String> = Vec::new();
        d.push(id);
        proof {
            assert(id_views(d@) =~= seq![d@[0]@]);
        }
        SendableOperation { dests: Destinations::Ids(d), operation: op }
    }
}

/// A snapshot of an address map as plain key/value pairs.
pub fn snapshot_str_map(m: &SMap<String>) -> (r: Vec<(String, String)>)
    ensures
        r@.len() == m.pairs().len(),
        forall|t: int|
            0 <= t < r@.len() ==> r@[t].0@ == m.pairs()[t].0@ && r@[t].1@ == m.pairs()[t].1@,
{
    let mut out: Vec<(String, String)> = Vec::new();
    let n = m.entries.len();
    let mut i: usize = 0;
    while i < n
        invariant
            i <= n,
            n == m.pairs().len(),
            out@.len() == i,
            forall|t: int|
                0 <= t < i ==> out@[t].0@ == m.pairs()[t].0@ && out@[t].1@ == m.pairs()[t].1@,
        decreases n - i,
    {
        let k = m.entries[i].0.clone();
        let v = m.entries[i].1.clone();
        out.push((k, v));
        i = i + 1;
    }
    out
}

/// A snapshot of the file-owners map as plain pairs.
pub fn snapshot_owner_map(m: &SMap<Vec<String>>) -> (r: Vec<(String, Vec<String>)>)
    ensures
        r@.len() == m.pairs().len(),
        forall|t: int|
            0 <= t < r@.len() ==> r@[t].0@ == m.pairs()[t].0@ && id_views(r@[t].1@) == id_views(
                m.pairs()[t].1@,
            ),
{
    let mut out: Vec<(String, Vec<String>)> = Vec::new();
    let n = m.entries.len();
    let mut i: usize = 0;
    while i < n
        invariant
            i <= n,
            n == m.pairs().len(),
            out@.len() == i,
            forall|t: int|
                0 <= t < i ==> out@[t].0@ == m.pairs()[t].0@ && id_views(out@[t].1@)
                    == id_views(m.pairs()[t].1@),
        decreases n - i,
    {
        let k = m.entries[i].0.clone();
        let v = clone_ids(&m.entries[i].1);
        out.push((k, v));
        i = i + 1;
    }
    out
}

impl HeartbeatOperation {
    /// A heartbeat is accepted only when the endpoint inside its
    /// identifier matches the datagram's source endpoint; a matching
    /// heartbeat from a current predecessor refreshes that
    /// predecessor's timestamp, any other matching heartbeat is
    /// ignored.  No follow-ups are emitted, and a rejected heartbeat
    /// changes nothing.
    pub fn execute(&self, state: &mut ClusterState, source: &Source, now: Timestamp) -> (r: Result<
        Vec<SendableOperation>,
        Error,
    >)
        requires
            old(state).wf(),
        ensures
            final(state).wf(),
            r is Ok <==> (has_sep(self.id@) && (source matches Source::Remote(s) && s@ == ip_of(
                self.id@,
            ))),
            r matches Ok(v) ==> v@.len() == 0,
            r is Ok ==> final(state).predecessor_timestamps@ == (if old(state)
                .predecessor_timestamps@.dom().contains(self.id@) {
                old(state).predecessor_timestamps@.insert(self.id@, now)
            } else {
                old(state).predecessor_timestamps@
            }),
            r is Ok ==> *final(state) == (ClusterState {
                predecessor_timestamps: final(state).predecessor_timestamps,
                ..*old(state)
            }),
            r is Err ==> *final(state) == *old(state),
            r matches Err(e) ==> e == (if !has_sep(self.id@) {
                Error::MalformedId
            } else {
                Error::SuspiciousHeartbeat
            }),
    {
        let src_ip = match ip_from_id(&self.id) {
            Some(ip) => ip,
            None => {
                return Err(Error::MalformedId);
            },
        };
        match source {
            Source::Remote(addr) => {
                if !(*addr == src_ip) {
                    return Err(Error::SuspiciousHeartbeat);
                }
            },
            Source::Myself => {
                return Err(Error::SuspiciousHeartbeat);
            },
        }
        let known = self.predecessor_known(state);
        if known {
            let key = self.id.clone();
            state.predecessor_timestamps.insert(key, now);
            proof {
                assert(state.predecessor_timestamps@.dom() =~= old(state).predecessor_timestamps@.dom());
                assert(state.pred_set() == old(state).pred_set());
                assert(state.predecessor_timestamps@.dom() =~= state.pred_set());
            }
        }
        Ok(Vec::new())
    }

    fn predecessor_known(&self, state: &ClusterState) -> (r: bool)
        ensures
            r == state.predecessor_timestamps@.dom().contains(self.id@),
    {
        match state.predecessor_timestamps.get(self.id.as_str()) {
            Some(_) => true,
            None => false,
        }
    }
}

impl LeaveOperation {
    /// Removes the leaving (or expired) node.  When it was present the
    /// operation drops the node's address entry, recomputes the
    /// neighbors and forwards the same leave to the new successors;
    /// when it was already absent nothing happens and nothing is
    /// emitted.  The caller appends whatever the external
    /// file-replication hook returns for the failed node.
    pub fn execute(&self, state: &mut ClusterState, _source: &Source, now: Timestamp) -> (r:
        Result<Vec<SendableOperation>, Error>)
        requires
            old(state).wf(),
        ensures
            final(state).wf(),
            forall|x: Seq<char>|
                final(state).members().contains(x) <==> (old(state).members().contains(x) && x
                    != self.id@),
            !old(state).members().contains(self.id@) ==> (r matches Ok(v) && v@.len() == 0
                && *final(state) == *old(state)),
            old(state).members().contains(self.id@) ==> final(state).udp_to_tcp_map.as_map()
                == (if has_sep(self.id@) {
                old(state).udp_to_tcp_map.as_map().remove(ip_of(self.id@))
            } else {
                old(state).udp_to_tcp_map.as_map()
            }),
            r is Ok && old(state).members().contains(self.id@) ==> (final(state).successors()
                == spec_successors(final(state).members(), old(state).my_id@)
                && final(state).predecessors() == spec_predecessors(final(state).members(), old(state).my_id@)
                && crate::ring::timestamps_reconciled(*old(state), *final(state), now)),
            r is Ok && old(state).members().contains(self.id@) ==> (r matches Ok(v) && v@.len()
                == 1 && sends_to_ids(v@[0], final(state).successors()) && (v@[0].operation
                matches Operation::Leave(l) && l.id@ == self.id@)),
            r is Ok <==> (!old(state).members().contains(self.id@)
                || final(state).members().contains(old(state).my_id@)),
            r is Err ==> old(state).members().contains(self.id@),
            r matches Err(e) ==> e == (if final(state).members().len() == 0 {
                Error::EmptyMembership
            } else {
                Error::SelfMissing
            }),
            final(state).my_id == old(state).my_id,
            final(state).is_joined == old(state).is_joined,
            final(state).peer_list == old(state).peer_list,
    {
        let removed = state.remove_node(&self.id);
        if !removed {
            return Ok(Vec::new());
        }
        match ip_from_id(&self.id) {
            Some(ip) => {
                state.udp_to_tcp_map.remove(&ip);
            },
            None => {},
        }
        match state.recalculate_neighbors(now) {
            Ok(()) => {},
            Err(e) => {
                return Err(e);
            },
        }
        let fwd = SendableOperation::for_successors(
            state,
            Operation::Leave(LeaveOperation { id: self.id.clone() }),
        );
        let mut out: Vec<SendableOperation> = Vec::new();
        out.push(fwd);
        Ok(out)
    }
}

impl NewMemberOperation {
    /// A join announcement from another peer: record the member, map
    /// its UDP endpoint to its TCP endpoint, recompute the neighbors.
    /// No follow-ups are emitted.
    pub fn execute(&self, state: &mut ClusterState, _source: &Source, now: Timestamp) -> (r:
        Result<Vec<SendableOperation>, Error>)
        requires
            old(state).wf(),
        ensures
            final(state).wf(),
            !has_sep(self.id@) ==> (r matches Err(e) && e == Error::MalformedId && *final(state)
                == *old(state)),
            has_sep(self.id@) ==> (forall|x: Seq<char>|
                final(state).members().contains(x) <==> (old(state).members().contains(x) || x
                    == self.id@)),
            has_sep(self.id@) ==> final(state).udp_to_tcp_map.as_map()
                == old(state).udp_to_tcp_map.as_map().insert(
                ip_of(self.id@),
                final(state).udp_to_tcp_map.spec_get(ip_of(self.id@)),
            ),
            has_sep(self.id@) ==> final(state).udp_to_tcp_map.spec_get(ip_of(self.id@))@
                == self.tcp_addr@,
            r matches Ok(v) ==> v@.len() == 0,
            has_sep(self.id@) ==> (r is Ok <==> (old(state).members().contains(
                old(state).my_id@,
            ) || self.id@ == old(state).my_id@)),
            r is Ok && has_sep(self.id@) ==> (final(state).successors() == spec_successors(
                final(state).members(),
                old(state).my_id@,
            ) && final(state).predecessors() == spec_predecessors(
                final(state).members(),
                old(state).my_id@,
            ) && crate::ring::timestamps_reconciled(*old(state), *final(state), now)),
            final(state).my_id == old(state).my_id,
            final(state).is_joined == old(state).is_joined,
            final(state).peer_list == old(state).peer_list,
    {
        let ip = match ip_from_id(&self.id) {
            Some(ip) => ip,
            None => {
                return Err(Error::MalformedId);
            },
        };
        state.insert_node(&self.id);
        state.udp_to_tcp_map.insert(ip, self.tcp_addr.clone());
        match state.recalculate_neighbors(now) {
            Ok(()) => {},
            Err(e) => {
                return Err(e);
            },
        }
        Ok(Vec::new())
    }
}


impl JoinOperation {
    /// A join request from a new node: record it, map the datagram's
    /// source endpoint to the joiner's TCP endpoint, announce the new
    /// member to the static peer set, send the joiner a full
    /// state snapshot, and recompute the neighbors.
    pub fn execute(&self, state: &mut ClusterState, source: &Source, now: Timestamp) -> (r: Result<
        Vec<SendableOperation>,
        Error,
    >)
        requires
            old(state).wf(),
        ensures
            final(state).wf(),
            source is Myself ==> (r matches Err(e) && e == Error::NotRemote && *final(state)
                == *old(state)),
            source matches Source::Remote(addr) ==> ({
                &&& forall|x: Seq<char>|
                    final(state).members().contains(x) <==> (old(state).members().contains(x)
                        || x == self.id@)
                &&& final(state).udp_to_tcp_map.as_map() == old(state).udp_to_tcp_map.as_map()
                    .insert(addr@, self.tcp_addr)
                &&& (r is Ok <==> final(state).members().contains(old(state).my_id@))
                &&& final(state).my_id == old(state).my_id
                &&& final(state).is_joined == old(state).is_joined
                &&& final(state).peer_list == old(state).peer_list
            }),
            r is Ok ==> ({
                &&& final(state).successors() == spec_successors(
                    final(state).members(),
                    old(state).my_id@,
                )
                &&& final(state).predecessors() == spec_predecessors(
                    final(state).members(),
                    old(state).my_id@,
                )
                &&& crate::ring::timestamps_reconciled(*old(state), *final(state), now)
            }),
            r matches Ok(v) ==> ({
                &&& v@.len() == 2
                &&& sends_to_udp(v@[0], id_views(old(state).peer_list@))
                &&& (v@[0].operation matches Operation::NewMember(nm) && nm.id@ == self.id@
                    && nm.tcp_addr@ == self.tcp_addr@)
                &&& sends_to_ids(v@[1], seq![self.id@])
                &&& (v@[1].operation matches Operation::MemberInit(mi) && id_views(
                    mi.membership_list@,
                ) == final(state).members() && mi.udp_to_tcp_map@.len() == final(state).udp_to_tcp_map.pairs().len() && (forall|t: int|
                    0 <= t < mi.udp_to_tcp_map@.len() ==> mi.udp_to_tcp_map@[t].0@ == final(state).udp_to_tcp_map.pairs()[t].0@ && mi.udp_to_tcp_map@[t].1@ == final(state).udp_to_tcp_map.pairs()[t].1@)
                    && mi.all_file_owners@.len() == final(state).all_file_owners.pairs().len()
                    && (forall|t: int|
                    0 <= t < mi.all_file_owners@.len() ==> mi.all_file_owners@[t].0@
                        == final(state).all_file_owners.pairs()[t].0@ && id_views(
                        mi.all_file_owners@[t].1@,
                    ) == id_views(final(state).all_file_owners.pairs()[t].1@)))
            }),
    {
        let addr = match source {
            Source::Remote(a) => a.clone(),
            Source::Myself => {
                return Err(Error::NotRemote);
            },
        };
        state.insert_node(&self.id);
        state.udp_to_tcp_map.insert(addr, self.tcp_addr.clone());
        let announce = SendableOperation::for_everyone(
            state,
            Operation::NewMember(
                NewMemberOperation { id: self.id.clone(), tcp_addr: self.tcp_addr.clone() },
            ),
        );
        let snapshot = MemberInitializationOperation {
            membership_list: state.membership_snapshot(),
            udp_to_tcp_map: snapshot_str_map(&state.udp_to_tcp_map),
            all_file_owners: snapshot_owner_map(&state.all_file_owners),
        };
        let init = SendableOperation::for_single(
            self.id.clone(),
            Operation::MemberInit(snapshot),
        );
        match state.recalculate_neighbors(now) {
            Ok(()) => {},
            Err(e) => {
                return Err(e);
            },
        }
        let mut out: Vec<SendableOperation> = Vec::new();
        out.push(announce);
        out.push(init);
        Ok(out)
    }
}

impl MemberInitializationOperation {
    /// The state snapshot sent to a fresh joiner: merge every carried
    /// table into the local state and recompute the neighbors.  No
    /// follow-ups are emitted.
    pub fn execute(&self, state: &mut ClusterState, _source: &Source, now: Timestamp) -> (r:
        Result<Vec<SendableOperation>, Error>)
        requires
            old(state).wf(),
        ensures
            final(state).wf(),
            forall|x: Seq<char>|
                final(state).members().contains(x) <==> (old(state).members().contains(x)
                    || id_views(self.membership_list@).contains(x)),
            final(state).udp_to_tcp_map.as_map() == crate::state::merge_str_pairs(
                old(state).udp_to_tcp_map.as_map(),
                self.udp_to_tcp_map@,
            ),
            forall|k: Seq<char>, o: Seq<char>|
                crate::state::owner_has(&final(state).all_file_owners, k, o) <==> (
                crate::state::owner_has(&old(state).all_file_owners, k, o)
                    || crate::state::pairs_have_owner(self.all_file_owners@, k, o)),
            r matches Ok(v) ==> v@.len() == 0,
            r is Ok <==> final(state).members().len() > 0 && final(state).members().contains(
                old(state).my_id@,
            ),
            r is Ok ==> ({
                &&& final(state).successors() == spec_successors(
                    final(state).members(),
                    old(state).my_id@,
                )
                &&& final(state).predecessors() == spec_predecessors(
                    final(state).members(),
                    old(state).my_id@,
                )
                &&& crate::ring::timestamps_reconciled(*old(state), *final(state), now)
            }),
            final(state).my_id == old(state).my_id,
            final(state).is_joined == old(state).is_joined,
            final(state).peer_list == old(state).peer_list,
    {
        state.merge_membership_list(&self.membership_list);
        let ghost s1 = *state;
        state.merge_tcp_map(&self.udp_to_tcp_map);
        let ghost s2 = *state;
        state.merge_all_file_owners(&self.all_file_owners);
        let ghost mid = *state;
        let r = state.recalculate_neighbors(now);
        proof {
            assert(s1.all_file_owners == old(state).all_file_owners);
            assert(s2.all_file_owners == s1.all_file_owners);
            assert(state.all_file_owners == mid.all_file_owners);
            assert forall|k: Seq<char>, o: Seq<char>|
                crate::state::owner_has(&state.all_file_owners, k, o) <==> (
            crate::state::owner_has(&old(state).all_file_owners, k, o)
                || crate::state::pairs_have_owner(self.all_file_owners@, k, o)) by {
                assert(crate::state::owner_has(&state.all_file_owners, k, o)
                    == crate::state::owner_has(&mid.all_file_owners, k, o));
                assert(crate::state::owner_has(&s2.all_file_owners, k, o)
                    == crate::state::owner_has(&old(state).all_file_owners, k, o));
            }
        }
        match r {
            Ok(()) => Ok(Vec::new()),
            Err(e) => Err(e),
        }
    }
}

/// Becomes joined: generates this node's identifier from its UDP
/// endpoint and the current time, records itself as a member with its
/// own address entry, and returns the join broadcast for the static
/// peer set.
pub fn join(state: &mut ClusterState, now: Timestamp) -> (r: Result<SendableOperation, Error>)
    requires
        old(state).wf(),
    ensures
        final(state).wf(),
        old(state).is_joined ==> (r matches Err(e) && e == Error::AlreadyJoined && *final(state)
            == *old(state)),
        !old(state).is_joined ==> ({
            &&& r is Ok
            &&& final(state).is_joined
            &&& final(state).my_id@ == old(state).my_ip_addr@ + seq!['|']
                + crate::ids::dec_str(now as nat)
            &&& (forall|x: Seq<char>|
                final(state).members().contains(x) <==> (old(state).members().contains(x) || x
                    == final(state).my_id@))
            &&& final(state).udp_to_tcp_map.as_map() == old(state).udp_to_tcp_map.as_map()
                .insert(old(state).my_ip_addr@, old(state).tcp_addr)
            &&& final(state).peer_list == old(state).peer_list
        }),
        r matches Ok(v) ==> ({
            &&& sends_to_udp(v, id_views(old(state).peer_list@))
            &&& (v.operation matches Operation::Join(j) && j.id == final(state).my_id
                && j.tcp_addr@ == old(state).tcp_addr@)
        }),
{
    if state.is_joined {
        return Err(Error::AlreadyJoined);
    }
    let my_id = crate::ids::gen_id(&state.my_ip_addr, now);
    state.my_id = my_id.clone();
    state.is_joined = true;
    state.insert_node(&my_id);
    let key = state.my_ip_addr.clone();
    let tcp = state.tcp_addr.clone();
    state.udp_to_tcp_map.insert(key, tcp);
    let item = SendableOperation::for_everyone(
        state,
        Operation::Join(JoinOperation { id: my_id, tcp_addr: state.tcp_addr.clone() }),
    );
    Ok(item)
}

/// Leaves the cluster: returns the leave notice addressed to the
/// current successors, then clears the local membership view.
pub fn leave(state: &mut ClusterState) -> (r: Result<SendableOperation, Error>)
    requires
        old(state).wf(),
    ensures
        final(state).wf(),
        !old(state).is_joined ==> (r matches Err(e) && e == Error::NotJoined && *final(state)
            == *old(state)),
        old(state).is_joined ==> ({
            &&& r is Ok
            &&& !final(state).is_joined
            &&& final(state).members().len() == 0
            &&& final(state).successors().len() == 0
            &&& final(state).predecessors().len() == 0
            &&& final(state).predecessor_timestamps@.dom() == Set::<Seq<char>>::empty()
            &&& final(state).udp_to_tcp_map == old(state).udp_to_tcp_map
        }),
        r matches Ok(v) ==> ({
            &&& sends_to_ids(v, old(state).successors())
            &&& (v.operation matches Operation::Leave(l) && l.id@ == old(state).my_id@)
        }),
{
    if !state.is_joined {
        return Err(Error::NotJoined);
    }
    let notice = SendableOperation::for_successors(
        state,
        Operation::Leave(LeaveOperation { id: state.my_id.clone() }),
    );
    state.clear_vars_on_leave();
    Ok(notice)
}

/// The heartbeat tick: when joined, a heartbeat carrying this node's
/// identifier, addressed to the current successors.
pub fn send_heartbeats(state: &ClusterState) -> (r: Result<SendableOperation, Error>)
    requires
        state.wf(),
    ensures
        r is Ok <==> state.is_joined,
        r matches Err(e) ==> e == Error::NotJoined,
        r matches Ok(v) ==> ({
            &&& sends_to_ids(v, state.successors())
            &&& (v.operation matches Operation::Heartbeat(h) && h.id@ == state.my_id@)
        }),
{
    if !state.is_joined {
        return Err(Error::NotJoined);
    }
    Ok(
        SendableOperation::for_successors(
            state,
            Operation::Heartbeat(HeartbeatOperation { id: state.my_id.clone() }),
        ),
    )
}

/// Whether the predecessor `id` has gone `EXPIRATION_DURATION` seconds
/// without a heartbeat.  A clock that reads earlier than a stored
/// timestamp is a hard error, as is asking about a non-predecessor.
pub fn is_expired(state: &ClusterState, id: &String, now: Timestamp) -> (r: Result<bool, Error>)
    requires
        state.wf(),
    ensures
        r is Ok <==> (state.predecessor_timestamps@.dom().contains(id@)
            && now >= state.predecessor_timestamps@[id@]),
        r matches Ok(b) ==> b == (now - state.predecessor_timestamps@[id@]
            > EXPIRATION_DURATION),
        r matches Err(e) ==> e == (if !state.predecessor_timestamps@.dom().contains(id@) {
            Error::NotAPredecessor
        } else {
            Error::ClockRegression
        }),
{
    match state.predecessor_timestamps.get(id.as_str()) {
        Some(last) => {
            let last = *last;
            if now < last {
                Err(Error::ClockRegression)
            } else {
                Ok(now - last > EXPIRATION_DURATION)
            }
        },
        None => Err(Error::NotAPredecessor),
    }
}

/// The stored heartbeat of `p` is so old that `p` counts as failed.
pub open spec fn expired_entry(pre: ClusterState, p: Seq<char>, now: Timestamp) -> bool {
    &&& pre.predecessor_timestamps@.dom().contains(p)
    &&& now >= pre.predecessor_timestamps@[p]
    &&& now - pre.predecessor_timestamps@[p] > EXPIRATION_DURATION
}

/// The stored heartbeat of `p` lies in the future: the clock went
/// backwards.
pub open spec fn anomaly_entry(pre: ClusterState, p: Seq<char>, now: Timestamp) -> bool {
    &&& pre.predecessor_timestamps@.dom().contains(p)
    &&& pre.predecessor_timestamps@[p] > now
}

/// The operation is a leave notice for the given identifier.
pub open spec fn is_leave_for(s: SendableOperation, id: Seq<char>) -> bool {
    s.operation matches Operation::Leave(l) && l.id@ == id
}

/// The periodic expiry scan.  When joined, every predecessor whose
/// heartbeat is older than `EXPIRATION_DURATION` is evicted by a
/// locally synthesized leave, and the leaves' follow-up operations are
/// returned for sending.  A predecessor whose stored timestamp lies in
/// the future (the clock went backwards) is reported in the second
/// list and left alone; the scan continues with the others.
pub fn maintainer(state: &mut ClusterState, now: Timestamp) -> (r: (
    Vec<SendableOperation>,
    Vec<String>,
))
    requires
        old(state).wf(),
    ensures
        final(state).wf(),
        !old(state).is_joined ==> (*final(state) == *old(state) && r.0@.len() == 0 && r.1@.len()
            == 0),
        forall|t: int|
            0 <= t < r.1@.len() ==> anomaly_entry(*old(state), #[trigger] id_views(r.1@)[t], now),
        old(state).is_joined ==> (forall|j: int|
            0 <= j < old(state).predecessors().len() && anomaly_entry(
                *old(state),
                #[trigger] old(state).predecessors()[j],
                now,
            ) ==> id_views(r.1@).contains(old(state).predecessors()[j])),
        old(state).is_joined ==> (forall|j: int|
            0 <= j < old(state).predecessors().len() && expired_entry(
                *old(state),
                #[trigger] old(state).predecessors()[j],
                now,
            ) ==> !final(state).members().contains(old(state).predecessors()[j])),
        old(state).is_joined ==> (forall|x: Seq<char>|
            final(state).members().contains(x) <==> (old(state).members().contains(x) && !(
            old(state).predecessors().contains(x) && expired_entry(*old(state), x, now)))),
        old(state).is_joined && (forall|j: int|
            0 <= j < old(state).predecessors().len() ==> !expired_entry(
                *old(state),
                #[trigger] old(state).predecessors()[j],
                now,
            ) && !anomaly_entry(*old(state), old(state).predecessors()[j], now)) ==> (
        *final(state) == *old(state) && r.0@.len() == 0 && r.1@.len() == 0),
        (old(state).is_joined && old(state).members().contains(old(state).my_id@)
            && !old(state).predecessors().contains(old(state).my_id@)) ==> (forall|j: int|
            0 <= j < old(state).predecessors().len() && expired_entry(
                *old(state),
                #[trigger] old(state).predecessors()[j],
                now,
            ) && old(state).members().contains(old(state).predecessors()[j]) ==> (exists|u: int|
                0 <= u < r.0@.len() && is_leave_for(
                    #[trigger] r.0@[u],
                    old(state).predecessors()[j],
                ))),
        forall|x: Seq<char>|
            final(state).members().contains(x) ==> old(state).members().contains(x),
        forall|t: int|
            0 <= t < r.0@.len() ==> ((#[trigger] r.0@[t]).operation matches Operation::Leave(l)
                && !final(state).members().contains(l.id@)),
{
    if !state.is_joined {
        return (Vec::new(), Vec::new());
    }
    let ghost pre = *state;
    let mut expired: Vec<String> = Vec::new();
    let mut anomalies: Vec<String> = Vec::new();
    let n = state.predecessor_list.len();
    let mut i: usize = 0;
    while i < n
        invariant
            i <= n,
            n == pre.predecessors().len(),
            *state == pre,
            state.wf(),
            forall|t: int|
                0 <= t < expired@.len() ==> expired_entry(
                    pre,
                    #[trigger] id_views(expired@)[t],
                    now,
                ),
            forall|t: int|
                0 <= t < anomalies@.len() ==> anomaly_entry(
                    pre,
                    #[trigger] id_views(anomalies@)[t],
                    now,
                ),
            forall|j: int|
                0 <= j < i && anomaly_entry(pre, #[trigger] pre.predecessors()[j], now)
                    ==> id_views(anomalies@).contains(pre.predecessors()[j]),
            forall|j: int|
                0 <= j < i && expired_entry(pre, #[trigger] pre.predecessors()[j], now)
                    ==> id_views(expired@).contains(pre.predecessors()[j]),
        decreases n - i,
    {
        let ghost p = pre.predecessors()[i as int];
        proof {
            assert(id_views(state.predecessor_list@)[i as int] == p);
            assert(pre.pred_set().contains(p));
            assert(pre.predecessor_timestamps@.dom().contains(p));
        }
        let ghost exp0 = expired@;
        let ghost ano0 = anomalies@;
        match is_expired(state, &state.predecessor_list[i], now) {
            Ok(true) => {
                expired.push(state.predecessor_list[i].clone());
                proof {
                    assert(id_views(expired@)[exp0.len() as int] == p);
                    assert(expired_entry(pre, p, now));
                }
            },
            Ok(false) => {},
            Err(e) => {
                proof {
                    assert(e == Error::ClockRegression);
                }
                anomalies.push(state.predecessor_list[i].clone());
                proof {
                    assert(id_views(anomalies@)[ano0.len() as int] == p);
                    assert(anomaly_entry(pre, p, now));
                }
            },
        }
        proof {
            assert forall|t: int|
                0 <= t < expired@.len() implies expired_entry(
                pre,
                #[trigger] id_views(expired@)[t],
                now,
            ) by {
                if t < exp0.len() {
                    assert(expired@[t] == exp0[t]);
                    assert(id_views(expired@)[t] == id_views(exp0)[t]);
                }
            }
            assert forall|t: int|
                0 <= t < anomalies@.len() implies anomaly_entry(
                pre,
                #[trigger] id_views(anomalies@)[t],
                now,
            ) by {
                if t < ano0.len() {
                    assert(anomalies@[t] == ano0[t]);
                    assert(id_views(anomalies@)[t] == id_views(ano0)[t]);
                }
            }
            assert forall|j: int|
                0 <= j < i + 1 && anomaly_entry(pre, #[trigger] pre.predecessors()[j], now)
                implies id_views(anomalies@).contains(pre.predecessors()[j]) by {
                if j < i {
                    assert(id_views(ano0).contains(pre.predecessors()[j]));
                    let t = choose|t: int|
                        0 <= t < ano0.len() && id_views(ano0)[t] == pre.predecessors()[j];
                    assert(id_views(anomalies@)[t] == pre.predecessors()[j]);
                }
            }
            assert forall|j: int|
                0 <= j < i + 1 && expired_entry(pre, #[trigger] pre.predecessors()[j], now)
                implies id_views(expired@).contains(pre.predecessors()[j]) by {
                if j < i {
                    assert(id_views(exp0).contains(pre.predecessors()[j]));
                    let t = choose|t: int|
                        0 <= t < exp0.len() && id_views(exp0)[t] == pre.predecessors()[j];
                    assert(id_views(expired@)[t] == pre.predecessors()[j]);
                }
            }
        }
        i = i + 1;
    }
    // Evict each expired predecessor with a locally synthesized leave.
    let ghost hyp = pre.members().contains(pre.my_id@) && !pre.predecessors().contains(
        pre.my_id@,
    );
    let mut out: Vec<SendableOperation> = Vec::new();
    let m = expired.len();
    let mut j: usize = 0;
    while j < m
        invariant
            j <= m,
            m == expired@.len(),
            state.wf(),
            pre.wf(),
            hyp == (pre.members().contains(pre.my_id@) && !pre.predecessors().contains(
                pre.my_id@,
            )),
            state.my_id == pre.my_id,
            state.is_joined == pre.is_joined,
            state.peer_list == pre.peer_list,
            m == 0 ==> (*state == pre && out@.len() == 0),
            forall|t: int|
                0 <= t < expired@.len() ==> expired_entry(
                    pre,
                    #[trigger] id_views(expired@)[t],
                    now,
                ),
            forall|x: Seq<char>|
                state.members().contains(x) ==> pre.members().contains(x),
            forall|t: int| 0 <= t < j ==> !state.members().contains(id_views(expired@)[t]),
            forall|x: Seq<char>|
                pre.members().contains(x) && !state.members().contains(x) ==> (exists|t: int|
                    0 <= t < j && id_views(expired@)[t] == x),
            hyp ==> state.members().contains(pre.my_id@),
            forall|t: int|
                0 <= t < j && hyp && pre.members().contains(
                    #[trigger] id_views(expired@)[t],
                ) ==> (exists|u: int|
                    0 <= u < out@.len() && is_leave_for(out@[u], id_views(expired@)[t])),
            forall|t: int|
                0 <= t < out@.len() ==> ((#[trigger] out@[t]).operation matches Operation::Leave(
                    l,
                ) && !state.members().contains(l.id@)),
        decreases m - j,
    {
        let ghost st0 = *state;
        let ghost idv = id_views(expired@)[j as int];
        proof {
            assert(expired_entry(pre, idv, now));
            assert(pre.predecessor_timestamps@.dom().contains(idv));
            assert(pre.pred_set().contains(idv));
            assert(pre.predecessors().contains(idv));
        }
        let op = LeaveOperation { id: expired[j].clone() };
        let ghost outp = out@;
        let r = op.execute(state, &Source::Myself, now);
        proof {
            assert(op.id@ == idv);
            if hyp {
                // the node itself is no expired predecessor, so it survives
                assert(pre.my_id@ != idv);
                assert(state.members().contains(pre.my_id@));
            }
        }
        match r {
            Ok(mut v) => {
                proof {
                    if hyp && st0.members().contains(idv) {
                        assert(v@.len() == 1 && is_leave_for(v@[0], idv));
                    }
                }
                out.append(&mut v);
            },
            Err(_) => {
                proof {
                    // with the node a surviving member, the leave cannot fail
                    if hyp {
                        assert(false);
                    }
                }
            },
        }
        proof {
            assert(!state.members().contains(idv));
            assert forall|t: int|
                0 <= t < out@.len() implies ((#[trigger] out@[t]).operation
                matches Operation::Leave(l) && !state.members().contains(l.id@)) by {
                if t < outp.len() {
                    assert(out@[t] == outp[t]);
                }
            }
            assert forall|x: Seq<char>|
                pre.members().contains(x) && !state.members().contains(x) implies (exists|t: int|
                0 <= t < j + 1 && id_views(expired@)[t] == x) by {
                if st0.members().contains(x) {
                    assert(x == idv);
                    assert(id_views(expired@)[j as int] == x);
                } else {
                    let t = choose|t: int| 0 <= t < j && id_views(expired@)[t] == x;
                    assert(0 <= t < j + 1 && id_views(expired@)[t] == x);
                }
            }
            assert forall|t: int|
                0 <= t < j + 1 && hyp && pre.members().contains(
                    #[trigger] id_views(expired@)[t],
                ) implies (exists|u: int|
                0 <= u < out@.len() && is_leave_for(out@[u], id_views(expired@)[t])) by {
                if t < j {
                    let u = choose|u: int|
                        0 <= u < outp.len() && is_leave_for(outp[u], id_views(expired@)[t]);
                    assert(is_leave_for(out@[u], id_views(expired@)[t]));
                } else {
                    if st0.members().contains(idv) {
                        assert(is_leave_for(out@[outp.len() as int], idv));
                    } else {
                        // already evicted earlier in this very scan
                        let t2 = choose|t2: int|
                            0 <= t2 < j && id_views(expired@)[t2] == idv;
                        let u = choose|u: int|
                            0 <= u < outp.len() && is_leave_for(outp[u], id_views(expired@)[t2]);
                        assert(is_leave_for(out@[u], idv));
                    }
                }
            }
        }
        j = j + 1;
    }
    proof {
        // an expired entry always names one of the old predecessors
        assert forall|t: int|
            0 <= t < expired@.len() implies pre.predecessors().contains(
            #[trigger] id_views(expired@)[t],
        ) by {
            assert(pre.predecessor_timestamps@.dom().contains(id_views(expired@)[t]));
            assert(pre.pred_set().contains(id_views(expired@)[t]));
        }
        assert forall|t: int|
            0 <= t < anomalies@.len() implies pre.predecessors().contains(
            #[trigger] id_views(anomalies@)[t],
        ) by {
            assert(pre.predecessor_timestamps@.dom().contains(id_views(anomalies@)[t]));
            assert(pre.pred_set().contains(id_views(anomalies@)[t]));
        }
        // exact membership: exactly the expired predecessors are gone
        assert forall|x: Seq<char>|
            state.members().contains(x) <==> (pre.members().contains(x) && !(
        pre.predecessors().contains(x) && expired_entry(pre, x, now))) by {
            if state.members().contains(x) {
                if pre.predecessors().contains(x) && expired_entry(pre, x, now) {
                    let jj = choose|jj: int|
                        0 <= jj < pre.predecessors().len() && pre.predecessors()[jj] == x;
                    assert(id_views(expired@).contains(x));
                    let t = choose|t: int|
                        0 <= t < expired@.len() && id_views(expired@)[t] == x;
                    assert(!state.members().contains(id_views(expired@)[t]));
                }
            }
            if pre.members().contains(x) && !(pre.predecessors().contains(x) && expired_entry(
                pre,
                x,
                now,
            )) {
                if !state.members().contains(x) {
                    let t = choose|t: int| 0 <= t < m && id_views(expired@)[t] == x;
                    assert(expired_entry(pre, x, now));
                    assert(pre.predecessors().contains(x));
                }
            }
        }
        // a quiet tick: with no predecessor expired or anomalous,
        // nothing was gathered and nothing changed
        if forall|jj: int|
            0 <= jj < pre.predecessors().len() ==> !expired_entry(
                pre,
                #[trigger] pre.predecessors()[jj],
                now,
            ) && !anomaly_entry(pre, pre.predecessors()[jj], now) {
            assert(expired@.len() == 0) by {
                if expired@.len() > 0 {
                    let x = id_views(expired@)[0];
                    assert(expired_entry(pre, x, now));
                    assert(pre.predecessors().contains(x));
                    let jj = choose|jj: int|
                        0 <= jj < pre.predecessors().len() && pre.predecessors()[jj] == x;
                    assert(!expired_entry(pre, pre.predecessors()[jj], now));
                }
            }
            assert(anomalies@.len() == 0) by {
                if anomalies@.len() > 0 {
                    let x = id_views(anomalies@)[0];
                    assert(anomaly_entry(pre, x, now));
                    assert(pre.predecessors().contains(x));
                    let jj = choose|jj: int|
                        0 <= jj < pre.predecessors().len() && pre.predecessors()[jj] == x;
                    assert(!anomaly_entry(pre, pre.predecessors()[jj], now));
                }
            }
            assert(*state == pre);
        }
        // every expired predecessor that was a member got its leave forwarded
        if hyp {
            assert forall|jj: int|
                0 <= jj < pre.predecessors().len() && expired_entry(
                    pre,
                    #[trigger] pre.predecessors()[jj],
                    now,
                ) && pre.members().contains(pre.predecessors()[jj]) implies (exists|u: int|
                0 <= u < out@.len() && is_leave_for(out@[u], pre.predecessors()[jj])) by {
                assert(id_views(expired@).contains(pre.predecessors()[jj]));
                let t = choose|t: int|
                    0 <= t < expired@.len() && id_views(expired@)[t] == pre.predecessors()[jj];
                assert(pre.members().contains(id_views(expired@)[t]));
                let u = choose|u: int|
                    0 <= u < out@.len() && is_leave_for(out@[u], id_views(expired@)[t]);
                assert(is_leave_for(out@[u], pre.predecessors()[jj]));
            }
        }
    }
    (out, anomalies)
}

/// A second leave for the same identifier is a no-op: the first one
/// leaves the identifier out of the membership list, and
/// `LeaveOperation::execute` on an absent identifier returns `Ok` with
/// no follow-up operations and an unchanged state.
pub proof fn lemma_leave_idempotent(pre: ClusterState, mid: ClusterState, id: Seq<char>)
    requires
        forall|x: Seq<char>|
            mid.members().contains(x) <==> (pre.members().contains(x) && x != id),
    ensures
        !mid.members().contains(id),
{
}



impl Operation {
    /// A short human-readable form of the operation, for logs.
    pub fn describe(&self) -> (r: String)
        ensures
            match self {
                Operation::Heartbeat(h) => r@ == "heartbeat "@ + h.id@,
                Operation::Join(j) => r@ == "join "@ + j.id@,
                Operation::Leave(l) => r@ == "leave "@ + l.id@,
                Operation::NewMember(n) => r@ == "new member "@ + n.id@,
                Operation::MemberInit(_) => r@ == "member initialization"@,
            },
    {
        match self {
            Operation::Heartbeat(h) => {
                let mut r = String::from_str("heartbeat ");
                r.append(h.id.as_str());
                r
            },
            Operation::Join(j) => {
                let mut r = String::from_str("join ");
                r.append(j.id.as_str());
                r
            },
            Operation::Leave(l) => {
                let mut r = String::from_str("leave ");
                r.append(l.id.as_str());
                r
            },
            Operation::NewMember(n) => {
                let mut r = String::from_str("new member ");
                r.append(n.id.as_str());
                r
            },
            Operation::MemberInit(_) => String::from_str("member initialization"),
        }
    }
}


} // verus!
