//! Ring topology: successors and predecessors.
//!
//! The ring is the sorted membership list read cyclically.  Successor
//! and predecessor lists are pure derivations of the membership list
//! and this node's position in it; they are recomputed after every
//! membership change, and the predecessor-timestamp table is reconciled
//! in the same step.

use crate::ids::Timestamp;
use crate::order::{id_views, lemma_lex_lt_irreflexive};
use crate::state::ClusterState;
use crate::Error;
use crate::NUM_SUCCESSORS;
use vstd::prelude::*;

verus! {

/// Position reached from `idx` after `k + 1` steps forward, wrapping.
pub open spec fn succ_pos(idx: int, len: int, k: int) -> int {
    if idx + k + 1 < len {
        idx + k + 1
    } else {
        idx + k + 1 - len
    }
}

/// Position reached from `idx` after `k + 1` steps backward, wrapping.
pub open spec fn pred_pos(idx: int, len: int, k: int) -> int {
    if idx - k - 1 >= 0 {
        idx - k - 1
    } else {
        idx - k - 1 + len
    }
}

pub open spec fn walk_pos(idx: int, step: int, len: int, k: int) -> int {
    if step == 1 {
        succ_pos(idx, len, k)
    } else {
        pred_pos(idx, len, k)
    }
}

/// The neighbor list gathered by walking the ring from `idx`: up to
/// `count` members, stopping early when the walk returns to `idx`
/// (which happens only once the whole ring was wrapped); the node at
/// `idx` itself is appended only when `include_self` is set.
pub open spec fn ring_walk(
    m: Seq<Seq<char>>,
    idx: int,
    step: int,
    count: int,
    include_self: bool,
) -> Seq<Seq<char>>
    recommends
        m.len() > 0,
        0 <= idx < m.len(),
{
    let len = m.len() as int;
    let n = if count <= len - 1 {
        count
    } else {
        len - 1
    };
    let base = Seq::new(n as nat, |k: int| m[walk_pos(idx, step, len, k)]);
    if include_self && count > len - 1 {
        base.push(m[idx])
    } else {
        base
    }
}

/// The position of `x` in `m`.
pub open spec fn index_of_member(m: Seq<Seq<char>>, x: Seq<char>) -> int {
    choose|i: int| 0 <= i < m.len() && m[i] == x
}

/// In a sorted list a member sits at exactly one position.
pub proof fn lemma_member_index_unique(m: Seq<Seq<char>>, i: int, j: int)
    requires
        crate::order::sorted_ids(m),
        0 <= i < m.len(),
        0 <= j < m.len(),
        m[i] == m[j],
    ensures
        i == j,
{
    if i < j {
        lemma_lex_lt_irreflexive(m[i]);
    }
    if j < i {
        lemma_lex_lt_irreflexive(m[i]);
    }
}

/// What this node's successor list must equal once recomputed.
pub open spec fn spec_successors(m: Seq<Seq<char>>, my: Seq<char>) -> Seq<Seq<char>> {
    ring_walk(m, index_of_member(m, my), 1, NUM_SUCCESSORS as int, false)
}

/// What this node's predecessor list must equal once recomputed.
pub open spec fn spec_predecessors(m: Seq<Seq<char>>, my: Seq<char>) -> Seq<Seq<char>> {
    ring_walk(m, index_of_member(m, my), -1, NUM_SUCCESSORS as int, false)
}

/// How the predecessor-timestamp table relates to its previous value
/// after a recomputation at time `now`: its domain is the new
/// predecessor set, a surviving predecessor keeps its timestamp, and a
/// fresh one starts at `now` (a full expiration window before it can be
/// declared dead).
pub open spec fn timestamps_reconciled(
    pre: ClusterState,
    post: ClusterState,
    now: Timestamp,
) -> bool {
    &&& post.predecessor_timestamps@.dom() == post.pred_set()
    &&& forall|p: Seq<char>|
        post.pred_set().contains(p) ==> post.predecessor_timestamps@[p] == (if pre.pred_set()
            .contains(p) {
            pre.predecessor_timestamps@[p]
        } else {
            now
        })
}

impl ClusterState {
    /// Walks the membership ring from position `idx`, gathering up to
    /// `count` neighbors; `step` selects the direction (`1` forward,
    /// `-1` backward).
    pub fn gen_neighbor_list_from(&self, idx: usize, step: i32, count: u32, include_self: bool)
        -> (r: Vec<String>)
        requires
            self.wf(),
            self.members().len() > 0,
            idx < self.members().len(),
            step == 1i32 || step == -1i32,
        ensures
            id_views(r@) == ring_walk(
                self.members(),
                idx as int,
                step as int,
                count as int,
                include_self,
            ),
    {
        let ghost m = self.members();
        let len = self.membership_list.len();
        let mut out: Vec<String> = Vec::new();
        let mut curr: usize = if step == 1 {
            if idx + 1 == len {
                0
            } else {
                idx + 1
            }
        } else {
            if idx == 0 {
                len - 1
            } else {
                idx - 1
            }
        };
        let mut i: u32 = 0;
        while i < count
            invariant
                self.wf(),
                m == self.members(),
                len == self.membership_list@.len(),
                0 < len,
                idx < len,
                step == 1i32 || step == -1i32,
                i <= count,
                i as int <= len - 1,
                curr < len,
                curr as int == walk_pos(idx as int, step as int, len as int, i as int),
                out@.len() == i,
                forall|k: int|
                    0 <= k < i ==> id_views(out@)[k] == m[walk_pos(
                        idx as int,
                        step as int,
                        len as int,
                        k,
                    )],
            decreases count - i,
        {
            if curr == idx {
                assert(i as int == len - 1);
                let ghost outp = out@;
                if include_self {
                    out.push(self.membership_list[curr].clone());
                    proof {
                        assert(out@ == outp.push(self.membership_list@[curr as int]));
                        assert(id_views(out@)[len - 1] == m[idx as int]);
                    }
                }
                proof {
                    let r = ring_walk(m, idx as int, step as int, count as int, include_self);
                    assert(id_views(out@).len() == r.len());
                    assert forall|k: int| 0 <= k < r.len() implies id_views(out@)[k] == r[k] by {
                        if k < len - 1 {
                            if include_self {
                                assert(out@[k] == outp[k]);
                                assert(id_views(outp)[k] == outp[k]@);
                            }
                            assert(r[k] == m[walk_pos(idx as int, step as int, len as int, k)]);
                        } else {
                            assert(r[k] == m[idx as int]);
                        }
                    }
                    assert(id_views(out@) =~= r);
                }
                return out;
            }
            let ghost outp = out@;
            out.push(self.membership_list[curr].clone());
            proof {
                assert(out@ == outp.push(self.membership_list@[curr as int]));
                assert(id_views(out@)[i as int] == m[curr as int]);
                assert forall|k: int|
                    0 <= k < i + 1 implies id_views(out@)[k] == m[walk_pos(
                    idx as int,
                    step as int,
                    len as int,
                    k,
                )] by {
                    if k < i {
                        assert(out@[k] == outp[k]);
                        assert(id_views(outp)[k] == outp[k]@);
                    }
                }
            }
            let prev = curr;
            curr = if step == 1 {
                if curr + 1 == len {
                    0
                } else {
                    curr + 1
                }
            } else {
                if curr == 0 {
                    len - 1
                } else {
                    curr - 1
                }
            };
            proof {
                assert(prev as int == walk_pos(idx as int, step as int, len as int, i as int));
                if step == 1i32 {
                    assert(curr as int == succ_pos(idx as int, len as int, i as int + 1));
                } else {
                    assert(curr as int == pred_pos(idx as int, len as int, i as int + 1));
                }
                assert(curr as int == walk_pos(idx as int, step as int, len as int, i as int + 1));
            }
            i = i + 1;
        }
        proof {
            let r = ring_walk(m, idx as int, step as int, count as int, include_self);
            assert(id_views(out@).len() == r.len());
            assert forall|k: int| 0 <= k < r.len() implies id_views(out@)[k] == r[k] by {
                assert(r[k] == m[walk_pos(idx as int, step as int, len as int, k)]);
            }
            assert(id_views(out@) =~= r);
        }
        out
    }

    /// The neighbor list of this node in the given direction, up to
    /// `NUM_SUCCESSORS` entries, self excluded.  Fails when the
    /// membership list is empty or lacks this node.
    pub fn gen_neighbor_list(&self, step: i32) -> (r: Result<Vec<String>, Error>)
        requires
            self.wf(),
            step == 1i32 || step == -1i32,
        ensures
            r is Ok <==> (self.members().len() > 0 && self.members().contains(self.my_id@)),
            r matches Ok(v) ==> id_views(v@) == ring_walk(
                self.members(),
                index_of_member(self.members(), self.my_id@),
                step as int,
                NUM_SUCCESSORS as int,
                false,
            ),
            r matches Err(e) ==> e == (if self.members().len() == 0 {
                Error::EmptyMembership
            } else {
                Error::SelfMissing
            }),
    {
        let len = self.membership_list.len();
        if len == 0 {
            return Err(Error::EmptyMembership);
        }
        let (found, idx) = Self::find_position(&self.membership_list, &self.my_id);
        if !found {
            return Err(Error::SelfMissing);
        }
        proof {
            let w = index_of_member(self.members(), self.my_id@);
            assert(0 <= w < self.members().len() && self.members()[w] == self.my_id@);
            lemma_member_index_unique(self.members(), w, idx as int);
        }
        Ok(self.gen_neighbor_list_from(idx, step, NUM_SUCCESSORS, false))
    }
}


/// Everything `recalculate_neighbors` promises of the state it leaves
/// behind, relative to the state it started from.
pub open spec fn neighbors_recalculated(
    pre: ClusterState,
    post: ClusterState,
    now: Timestamp,
) -> bool {
    &&& post.successors() == spec_successors(pre.members(), pre.my_id@)
    &&& post.predecessors() == spec_predecessors(pre.members(), pre.my_id@)
    &&& timestamps_reconciled(pre, post, now)
    &&& post.members() == pre.members()
    &&& post.membership_list == pre.membership_list
    &&& post.my_id == pre.my_id
    &&& post.udp_to_tcp_map == pre.udp_to_tcp_map
    &&& post.all_file_owners == pre.all_file_owners
    &&& post.peer_list == pre.peer_list
    &&& post.my_ip_addr == pre.my_ip_addr
    &&& post.tcp_addr == pre.tcp_addr
    &&& post.is_joined == pre.is_joined
}

impl ClusterState {
    /// Recomputes the successor list from the membership list.
    pub fn recalculate_successors(&mut self) -> (r: Result<(), Error>)
        requires
            old(self).wf(),
        ensures
            final(self).wf(),
            r is Ok <==> (old(self).members().len() > 0 && old(self).members().contains(
                old(self).my_id@,
            )),
            r is Ok ==> final(self).successors() == spec_successors(
                old(self).members(),
                old(self).my_id@,
            ) && *final(self) == (ClusterState {
                successor_list: final(self).successor_list,
                ..*old(self)
            }),
            r is Err ==> *final(self) == *old(self),
            r matches Err(e) ==> e == (if old(self).members().len() == 0 {
                Error::EmptyMembership
            } else {
                Error::SelfMissing
            }),
    {
        let ghost pre = *self;
        match self.gen_neighbor_list(1) {
            Ok(succ) => {
                self.successor_list = succ;
                proof {
                    assert(self.pred_set() =~= pre.pred_set());
                }
                Ok(())
            },
            Err(e) => Err(e),
        }
    }

    /// Recomputes the predecessor list, then reconciles the timestamp
    /// table: entries of dropped predecessors are removed, and each new
    /// predecessor starts with a heartbeat observed at `now`.
    pub fn recalculate_predecessors(&mut self, now: Timestamp) -> (r: Result<(), Error>)
        requires
            old(self).wf(),
        ensures
            final(self).wf(),
            r is Ok <==> (old(self).members().len() > 0 && old(self).members().contains(
                old(self).my_id@,
            )),
            r is Ok ==> final(self).predecessors() == spec_predecessors(
                old(self).members(),
                old(self).my_id@,
            ) && timestamps_reconciled(*old(self), *final(self), now) && *final(self)
                == (ClusterState {
                predecessor_list: final(self).predecessor_list,
                predecessor_timestamps: final(self).predecessor_timestamps,
                ..*old(self)
            }),
            r is Err ==> *final(self) == *old(self),
            r matches Err(e) ==> e == (if old(self).members().len() == 0 {
                Error::EmptyMembership
            } else {
                Error::SelfMissing
            }),
    {
        let ghost pre = *self;
        let new_preds = match self.gen_neighbor_list(-1) {
            Ok(p) => p,
            Err(e) => {
                return Err(e);
            },
        };
        let ghost newp = id_views(new_preds@);
        let ghost oldp = pre.predecessors();
        let ghost dom0 = pre.predecessor_timestamps@.dom();
        proof {
            assert(dom0 == pre.pred_set());
        }
        // Drop the timestamp of every predecessor that is no longer one.
        let n1 = self.predecessor_list.len();
        let mut i: usize = 0;
        while i < n1
            invariant
                i <= n1,
                n1 == oldp.len(),
                *self == (ClusterState {
                    predecessor_timestamps: self.predecessor_timestamps,
                    ..pre
                }),
                newp == id_views(new_preds@),
                oldp == pre.predecessors(),
                forall|x: Seq<char>|
                    self.predecessor_timestamps@.dom().contains(x) ==> dom0.contains(x),
                forall|x: Seq<char>|
                    dom0.contains(x) && newp.contains(x)
                        ==> self.predecessor_timestamps@.dom().contains(x),
                forall|j: int|
                    0 <= j < i && !newp.contains(oldp[j])
                        ==> !self.predecessor_timestamps@.dom().contains(oldp[j]),
                forall|x: Seq<char>|
                    self.predecessor_timestamps@.dom().contains(x)
                        ==> self.predecessor_timestamps@[x] == pre.predecessor_timestamps@[x],
            decreases n1 - i,
        {
            let keep = crate::order::contains_id(&new_preds, &self.predecessor_list[i]);
            if !keep {
                let key = self.predecessor_list[i].clone();
                self.predecessor_timestamps.remove(key.as_str());
                proof {
                    assert(key@ == oldp[i as int]);
                }
            }
            proof {
                assert(id_views(self.predecessor_list@)[i as int] == oldp[i as int]);
            }
            i = i + 1;
        }
        let ghost mid = self.predecessor_timestamps@;
        proof {
            assert forall|x: Seq<char>| mid.dom().contains(x) implies (dom0.contains(x)
                && newp.contains(x)) by {
                if !newp.contains(x) {
                    assert(dom0.contains(x));
                    assert(pre.pred_set().contains(x));
                    let j = choose|j: int| 0 <= j < oldp.len() && oldp[j] == x;
                    assert(!self.predecessor_timestamps@.dom().contains(oldp[j]));
                }
            }
        }
        // Give every newly gained predecessor a fresh timestamp.
        let n2 = new_preds.len();
        let mut j: usize = 0;
        while j < n2
            invariant
                j <= n2,
                n2 == newp.len(),
                *self == (ClusterState {
                    predecessor_timestamps: self.predecessor_timestamps,
                    ..pre
                }),
                newp == id_views(new_preds@),
                oldp == pre.predecessors(),
                dom0 == pre.pred_set(),
                forall|x: Seq<char>|
                    mid.dom().contains(x) ==> (dom0.contains(x) && newp.contains(x)),
                forall|x: Seq<char>|
                    dom0.contains(x) && newp.contains(x) ==> mid.dom().contains(x),
                forall|x: Seq<char>| mid.dom().contains(x) ==> mid[x]
                    == pre.predecessor_timestamps@[x],
                forall|x: Seq<char>|
                    self.predecessor_timestamps@.dom().contains(x) ==> newp.contains(x),
                forall|x: Seq<char>|
                    mid.dom().contains(x) ==> self.predecessor_timestamps@.dom().contains(x),
                forall|t: int|
                    0 <= t < j ==> self.predecessor_timestamps@.dom().contains(newp[t]),
                forall|x: Seq<char>|
                    self.predecessor_timestamps@.dom().contains(x) && dom0.contains(x)
                        ==> self.predecessor_timestamps@[x] == pre.predecessor_timestamps@[x],
                forall|x: Seq<char>|
                    self.predecessor_timestamps@.dom().contains(x) && !dom0.contains(x)
                        ==> self.predecessor_timestamps@[x] == now,
            decreases n2 - j,
        {
            let ghost tsp = self.predecessor_timestamps@;
            let fresh = !crate::order::contains_id(&self.predecessor_list, &new_preds[j]);
            if fresh {
                let key = new_preds[j].clone();
                self.predecessor_timestamps.insert(key, now);
            }
            proof {
                assert(id_views(new_preds@)[j as int] == newp[j as int]);
                if fresh {
                    assert(!oldp.contains(newp[j as int]));
                    assert(!dom0.contains(newp[j as int]));
                } else {
                    assert(oldp.contains(newp[j as int]));
                    assert(dom0.contains(newp[j as int]));
                    assert(newp.contains(newp[j as int]));
                    assert(mid.dom().contains(newp[j as int]));
                }
                assert(self.predecessor_timestamps@.dom().contains(newp[j as int]));
            }
            j = j + 1;
        }
        self.predecessor_list = new_preds;
        proof {
            assert forall|x: Seq<char>|
                self.predecessor_timestamps@.dom().contains(x) <==> self.pred_set().contains(
                x,
            ) by {
                if self.pred_set().contains(x) {
                    let t = choose|t: int| 0 <= t < newp.len() && newp[t] == x;
                    assert(self.predecessor_timestamps@.dom().contains(newp[t]));
                }
            }
            assert(self.predecessor_timestamps@.dom() =~= self.pred_set());
            assert(self.members() == pre.members());
        }
        Ok(())
    }

    /// Recomputes predecessors (reconciling their timestamps at `now`),
    /// then successors.
    pub fn recalculate_neighbors(&mut self, now: Timestamp) -> (r: Result<(), Error>)
        requires
            old(self).wf(),
        ensures
            final(self).wf(),
            r is Ok <==> (old(self).members().len() > 0 && old(self).members().contains(
                old(self).my_id@,
            )),
            r is Ok ==> neighbors_recalculated(*old(self), *final(self), now),
            r is Err ==> *final(self) == *old(self),
            r matches Err(e) ==> e == (if old(self).members().len() == 0 {
                Error::EmptyMembership
            } else {
                Error::SelfMissing
            }),
    {
        match self.recalculate_predecessors(now) {
            Ok(()) => {},
            Err(e) => {
                return Err(e);
            },
        }
        match self.recalculate_successors() {
            Ok(()) => Ok(()),
            Err(e) => {
                proof {
                    assert(false);
                }
                Err(e)
            },
        }
    }
}

/// Recomputing neighbors is idempotent: running it a second time, at
/// any later instant, leaves the successor list, the predecessor list
/// and the whole timestamp table unchanged.
pub proof fn lemma_recalculate_neighbors_idempotent(
    s0: ClusterState,
    s1: ClusterState,
    s2: ClusterState,
    now1: Timestamp,
    now2: Timestamp,
)
    requires
        neighbors_recalculated(s0, s1, now1),
        neighbors_recalculated(s1, s2, now2),
    ensures
        s2.successors() == s1.successors(),
        s2.predecessors() == s1.predecessors(),
        s2.predecessor_timestamps@ == s1.predecessor_timestamps@,
{
    assert(s2.predecessor_timestamps@.dom() == s1.predecessor_timestamps@.dom());
    assert forall|p: Seq<char>| s2.predecessor_timestamps@.dom().contains(p) implies
    s2.predecessor_timestamps@[p] == s1.predecessor_timestamps@[p] by {
        assert(s2.pred_set().contains(p));
        assert(s1.pred_set().contains(p));
    }
    assert(s2.predecessor_timestamps@ =~= s1.predecessor_timestamps@);
}

/// In a ring of `n >= 2` live nodes the successor list of the node at
/// position `idx` holds exactly the next `min(NUM_SUCCESSORS, n - 1)`
/// identifiers in lexicographic order, wrapping around the end of the
/// membership list.
pub proof fn lemma_successors_next_on_ring(m: Seq<Seq<char>>, my: Seq<char>, idx: int)
    requires
        crate::order::sorted_ids(m),
        m.len() >= 2,
        0 <= idx < m.len(),
        m[idx] == my,
    ensures
        spec_successors(m, my).len() == (if NUM_SUCCESSORS as int <= m.len() - 1 {
            NUM_SUCCESSORS as int
        } else {
            m.len() - 1
        }),
        forall|k: int|
            0 <= k < spec_successors(m, my).len() ==> spec_successors(m, my)[k] == m[succ_pos(
                idx,
                m.len() as int,
                k,
            )],
{
    assert(0 <= idx < m.len() && m[idx] == my);
    lemma_member_index_unique(m, index_of_member(m, my), idx);
}


} // verus!
