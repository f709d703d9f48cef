//! The process-wide cluster state of one node.
//!
//! A single value carries the sorted membership list, the derived
//! successor and predecessor lists, the predecessor heartbeat
//! timestamps, the UDP-to-TCP address map, the external file-owners
//! map, the node's own identity, and the joined flag.

use crate::ids::Timestamp;
use crate::order::{id_views, lemma_lex_lt_irreflexive, lemma_lex_lt_total, lemma_lex_lt_trans, lex_lt, sorted_ids, str_lt};
use crate::smap::SMap;
use crate::Error;
use vstd::hash_map::StringHashMap;
use vstd::prelude::*;

verus! {

pub struct ClusterState {
    /// All known live members, sorted lexicographically, duplicate-free.
    pub membership_list: Vec<String>,
    /// Up to `NUM_SUCCESSORS` members following this node on the ring.
    pub successor_list: Vec<String>,
    /// Up to `NUM_SUCCESSORS` members preceding this node on the ring.
    pub predecessor_list: Vec<String>,
    /// Timestamp of the last heartbeat seen from each predecessor.
    pub predecessor_timestamps: StringHashMap<Timestamp>,
    /// UDP endpoint of a member to its TCP endpoint.
    pub udp_to_tcp_map: SMap<String>,
    /// External file-replication map: file name to owning members.
    pub all_file_owners: SMap<Vec<String>>,
    /// The statically configured join-broadcast endpoints.
    pub peer_list: Vec<String>,
    /// This node's identifier, set at `join`.
    pub my_id: String,
    /// This node's UDP endpoint.
    pub my_ip_addr: String,
    /// This node's TCP endpoint.
    pub tcp_addr: String,
    /// When false, maintenance is a no-op and inbound traffic is dropped.
    pub is_joined: bool,
}

impl ClusterState {
    pub open spec fn members(&self) -> Seq<Seq<char>> {
        id_views(self.membership_list@)
    }

    pub open spec fn successors(&self) -> Seq<Seq<char>> {
        id_views(self.successor_list@)
    }

    pub open spec fn predecessors(&self) -> Seq<Seq<char>> {
        id_views(self.predecessor_list@)
    }

    /// The predecessors as a set.
    pub open spec fn pred_set(&self) -> Set<Seq<char>> {
        self.predecessors().to_set()
    }

    /// The consistency the state keeps after every completed operation:
    /// the membership list is sorted and duplicate-free, the maps have
    /// distinct keys, and the predecessor-timestamp table has exactly
    /// the predecessors as its domain.
    pub open spec fn wf(&self) -> bool {
        &&& sorted_ids(self.members())
        &&& self.udp_to_tcp_map.wf()
        &&& self.all_file_owners.wf()
        &&& self.predecessor_timestamps@.dom() == self.pred_set()
    }

    /// A fresh, not-yet-joined node.
    pub fn new(my_ip_addr: String, tcp_addr: String, peer_list: Vec<String>) -> (r: Self)
        ensures
            r.wf(),
            !r.is_joined,
            r.members().len() == 0,
            r.successors().len() == 0,
            r.predecessors().len() == 0,
            r.predecessor_timestamps@.dom() == Set::<Seq<char>>::empty(),
            r.my_ip_addr == my_ip_addr,
            r.tcp_addr == tcp_addr,
            r.peer_list == peer_list,
    {
        let r = ClusterState {
            membership_list: Vec::new(),
            successor_list: Vec::new(),
            predecessor_list: Vec::new(),
            predecessor_timestamps: StringHashMap::new(),
            udp_to_tcp_map: SMap::new(),
            all_file_owners: SMap::new(),
            peer_list,
            my_id: String::new(),
            my_ip_addr,
            tcp_addr,
            is_joined: false,
        };
        proof {
            assert(r.predecessor_timestamps@.dom() =~= r.pred_set());
        }
        r
    }

    /// Binary search over the sorted membership list: whether `id` is
    /// present, and the position where it is or would be inserted.
    pub fn find_position(list: &Vec<String>, id: &String) -> (r: (bool, usize))
        requires
            sorted_ids(id_views(list@)),
        ensures
            r.1 <= list@.len(),
            forall|j: int| 0 <= j < r.1 ==> lex_lt(id_views(list@)[j], id@),
            forall|j: int| r.1 <= j < list@.len() ==> !lex_lt(id_views(list@)[j], id@),
            r.0 <==> (r.1 < list@.len() && id_views(list@)[r.1 as int] == id@),
            r.0 == id_views(list@).contains(id@),
    {
        let ghost v = id_views(list@);
        let n = list.len();
        let mut lo: usize = 0;
        let mut hi: usize = n;
        while lo < hi
            invariant
                lo <= hi <= n,
                n == list@.len(),
                sorted_ids(v),
                v == id_views(list@),
                forall|j: int| 0 <= j < lo ==> lex_lt(v[j], id@),
                forall|j: int| hi <= j < n ==> !lex_lt(v[j], id@),
            decreases hi - lo,
        {
            let mid = lo + (hi - lo) / 2;
            if str_lt(list[mid].as_str(), id.as_str()) {
                proof {
                    assert forall|j: int| 0 <= j <= mid implies lex_lt(v[j], id@) by {
                        if j < mid {
                            lemma_lex_lt_trans(v[j], v[mid as int], id@);
                        }
                    }
                }
                lo = mid + 1;
            } else {
                proof {
                    assert forall|j: int| mid <= j < n implies !lex_lt(v[j], id@) by {
                        if j > mid && lex_lt(v[j], id@) {
                            lemma_lex_lt_trans(v[mid as int], v[j], id@);
                        }
                    }
                }
                hi = mid;
            }
        }
        let found = lo < n && list[lo] == *id;
        proof {
            if found {
                assert(v[lo as int] == id@);
                assert(v.contains(id@));
            } else {
                assert forall|j: int| 0 <= j < n implies v[j] != id@ by {
                    if j < lo {
                        lemma_lex_lt_irreflexive(id@);
                        if v[j] == id@ {
                            assert(lex_lt(id@, id@));
                        }
                    } else if j == lo {
                        assert(v[lo as int] != id@);
                    } else {
                        if v[j] == id@ {
                            assert(lex_lt(v[lo as int], v[j]));
                            assert(!lex_lt(v[lo as int], id@));
                        }
                    }
                }
                if v.contains(id@) {
                    let w = choose|w: int| 0 <= w < v.len() && v[w] == id@;
                    assert(v[w] != id@);
                }
            }
        }
        (found, lo)
    }

    /// Inserts `new_id` into the membership list, keeping it sorted;
    /// inserting a present identifier changes nothing.
    pub fn insert_node(&mut self, new_id: &String)
        requires
            old(self).wf(),
        ensures
            final(self).wf(),
            forall|x: Seq<char>|
                final(self).members().contains(x) <==> (old(self).members().contains(x)
                    || x == new_id@),
            final(self).members().contains(new_id@),
            old(self).members().contains(new_id@) ==> final(self).membership_list == old(
                self,
            ).membership_list,
            *final(self) == (ClusterState {
                membership_list: final(self).membership_list,
                ..*old(self)
            }),
    {
        let ghost pre = *self;
        let (found, idx) = Self::find_position(&self.membership_list, new_id);
        if !found {
            let cloned = new_id.clone();
            self.membership_list.insert(idx, cloned);
            proof {
                let v = pre.members();
                let w = self.members();
                let n = v.len();
                assert forall|a: int| 0 <= a < w.len() implies w[a] == (if a < idx {
                    v[a]
                } else if a == idx {
                    new_id@
                } else {
                    v[a - 1]
                }) by {
                    assert(self.membership_list@ == pre.membership_list@.insert(
                        idx as int,
                        *new_id,
                    ));
                }
                assert forall|a: int, b: int| 0 <= a < b < w.len() implies lex_lt(
                    w[a],
                    w[b],
                ) by {
                    if b == idx {
                        assert(lex_lt(v[a], new_id@));
                    } else if a == idx {
                        assert(!lex_lt(v[b - 1], new_id@));
                        assert(v[b - 1] != new_id@);
                        lemma_lex_lt_total(v[b - 1], new_id@);
                    }
                }
                assert(sorted_ids(w));
                assert forall|x: Seq<char>| w.contains(x) implies (v.contains(x) || x
                    == new_id@) by {
                    let a = choose|a: int| 0 <= a < w.len() && w[a] == x;
                    if a < idx {
                        assert(v[a] == x);
                    } else if a > idx {
                        assert(v[a - 1] == x);
                    }
                }
                assert forall|x: Seq<char>| v.contains(x) implies w.contains(x) by {
                    let a = choose|a: int| 0 <= a < v.len() && v[a] == x;
                    if a < idx {
                        assert(w[a] == x);
                    } else {
                        assert(w[a + 1] == x);
                    }
                }
                assert(w[idx as int] == new_id@);
                assert(w.contains(new_id@));
                assert(self.pred_set() =~= pre.pred_set());
            }
        }
        proof {
            assert(self.pred_set() =~= pre.pred_set());
        }
    }

    /// Removes `id` from the membership list; returns whether an entry
    /// was removed.
    pub fn remove_node(&mut self, id: &String) -> (r: bool)
        requires
            old(self).wf(),
        ensures
            final(self).wf(),
            r == old(self).members().contains(id@),
            forall|x: Seq<char>|
                final(self).members().contains(x) <==> (old(self).members().contains(x)
                    && x != id@),
            !r ==> final(self).membership_list == old(self).membership_list,
            *final(self) == (ClusterState {
                membership_list: final(self).membership_list,
                ..*old(self)
            }),
    {
        let ghost pre = *self;
        let (found, idx) = Self::find_position(&self.membership_list, id);
        if found {
            self.membership_list.remove(idx);
            proof {
                let v = pre.members();
                let w = self.members();
                assert forall|a: int| 0 <= a < w.len() implies w[a] == (if a < idx {
                    v[a]
                } else {
                    v[a + 1]
                }) by {
                    assert(self.membership_list@ == pre.membership_list@.remove(idx as int));
                }
                assert forall|a: int, b: int| 0 <= a < b < w.len() implies lex_lt(
                    w[a],
                    w[b],
                ) by {
                    let a2: int = if a < idx { a } else { a + 1 };
                    let b2: int = if b < idx { b } else { b + 1 };
                    assert(lex_lt(v[a2], v[b2]));
                }
                assert(sorted_ids(w));
                assert forall|x: Seq<char>| w.contains(x) implies (v.contains(x) && x
                    != id@) by {
                    let a = choose|a: int| 0 <= a < w.len() && w[a] == x;
                    let a2: int = if a < idx { a } else { a + 1 };
                    assert(v[a2] == x);
                    if x == id@ {
                        if a2 < idx {
                            assert(lex_lt(v[a2], v[idx as int]));
                            lemma_lex_lt_irreflexive(id@);
                        } else {
                            assert(lex_lt(v[idx as int], v[a2]));
                            lemma_lex_lt_irreflexive(id@);
                        }
                    }
                }
                assert forall|x: Seq<char>| v.contains(x) && x != id@ implies w.contains(
                    x,
                ) by {
                    let a = choose|a: int| 0 <= a < v.len() && v[a] == x;
                    if a < idx {
                        assert(w[a] == x);
                    } else if a > idx {
                        assert(w[a - 1] == x);
                    }
                }
                assert(self.pred_set() =~= pre.pred_set());
            }
        }
        proof {
            assert(self.pred_set() =~= pre.pred_set());
        }
        found
    }

    /// `true` when this node is the first entry of the membership list.
    pub fn is_master(&self) -> (r: bool)
        ensures
            r == (self.members().len() > 0 && self.members()[0] == self.my_id@),
    {
        self.membership_list.len() > 0 && self.membership_list[0] == self.my_id
    }
}


/// The result of folding a pair list into an address map, later
/// entries winning on key conflicts.
pub open spec fn merge_str_pairs(
    m: Map<Seq<char>, String>,
    pairs: Seq<(String, String)>,
) -> Map<Seq<char>, String>
    decreases pairs.len(),
{
    if pairs.len() == 0 {
        m
    } else {
        merge_str_pairs(m.insert(pairs.first().0.view(), pairs.first().1), pairs.drop_first())
    }
}

/// `o` is listed among the owners that `m` records for file `k`.
pub open spec fn owner_has(m: &SMap<Vec<String>>, k: Seq<char>, o: Seq<char>) -> bool {
    m.contains_key(k) && id_views(m.spec_get(k)@).contains(o)
}

/// Some of the first `n` pairs carries file `k`.
pub open spec fn pairs_have_key_upto(
    pairs: Seq<(String, Vec<String>)>,
    n: int,
    k: Seq<char>,
) -> bool {
    exists|i: int| 0 <= i < n && pairs[i].0.view() == k
}

/// Some of the first `n` pairs lists `o` as an owner of file `k`.
pub open spec fn pairs_have_owner_upto(
    pairs: Seq<(String, Vec<String>)>,
    n: int,
    k: Seq<char>,
    o: Seq<char>,
) -> bool {
    exists|i: int|
        0 <= i < n && pairs[i].0.view() == k && id_views(pairs[i].1@).contains(o)
}

/// `o` is listed for file `k` somewhere in the pair list.
pub open spec fn pairs_have_owner(
    pairs: Seq<(String, Vec<String>)>,
    k: Seq<char>,
    o: Seq<char>,
) -> bool {
    pairs_have_owner_upto(pairs, pairs.len() as int, k, o)
}

impl ClusterState {
    /// Inserts every identifier of `list` into the membership list.
    pub fn merge_membership_list(&mut self, list: &Vec<String>)
        requires
            old(self).wf(),
        ensures
            final(self).wf(),
            forall|x: Seq<char>|
                final(self).members().contains(x) <==> (old(self).members().contains(x)
                    || id_views(list@).contains(x)),
            *final(self) == (ClusterState {
                membership_list: final(self).membership_list,
                ..*old(self)
            }),
    {
        let ghost pre = *self;
        let n = list.len();
        let mut i: usize = 0;
        while i < n
            invariant
                i <= n,
                n == list@.len(),
                self.wf(),
                forall|x: Seq<char>|
                    self.members().contains(x) <==> (pre.members().contains(x) || (
                    exists|k: int| 0 <= k < i && id_views(list@)[k] == x)),
                *self == (ClusterState { membership_list: self.membership_list, ..pre }),
            decreases n - i,
        {
            let ghost snap = *self;
            self.insert_node(&list[i]);
            proof {
                assert(id_views(list@)[i as int] == list@[i as int]@);
                assert forall|x: Seq<char>| self.members().contains(x) implies (
                pre.members().contains(x) || (exists|k: int|
                    0 <= k < i + 1 && id_views(list@)[k] == x)) by {
                    if !snap.members().contains(x) {
                        assert(x == list@[i as int]@);
                        assert(id_views(list@)[i as int] == x);
                    }
                }
                assert forall|x: Seq<char>|
                    (pre.members().contains(x) || (exists|k: int|
                        0 <= k < i + 1 && id_views(list@)[k] == x)) implies
                self.members().contains(x) by {
                    if !pre.members().contains(x) {
                        let k = choose|k: int| 0 <= k < i + 1 && id_views(list@)[k] == x;
                        if k < i {
                            assert(snap.members().contains(x));
                        } else {
                            assert(x == list@[i as int]@);
                        }
                    }
                }
            }
            i = i + 1;
        }
        proof {
            assert forall|x: Seq<char>|
                (exists|k: int| 0 <= k < n && id_views(list@)[k] == x) <==> id_views(
                    list@,
                ).contains(x) by {}
        }
    }

    /// Folds the given UDP-to-TCP entries into the address map; later
    /// entries win on conflict.
    pub fn merge_tcp_map(&mut self, entries: &Vec<(String, String)>)
        requires
            old(self).wf(),
        ensures
            final(self).wf(),
            final(self).udp_to_tcp_map.as_map() == merge_str_pairs(
                old(self).udp_to_tcp_map.as_map(),
                entries@,
            ),
            *final(self) == (ClusterState {
                udp_to_tcp_map: final(self).udp_to_tcp_map,
                ..*old(self)
            }),
    {
        let ghost pre = *self;
        proof {
            assert(entries@.skip(0) =~= entries@);
        }
        let n = entries.len();
        let mut i: usize = 0;
        while i < n
            invariant
                i <= n,
                n == entries@.len(),
                self.udp_to_tcp_map.wf(),
                merge_str_pairs(pre.udp_to_tcp_map.as_map(), entries@) == merge_str_pairs(
                    self.udp_to_tcp_map.as_map(),
                    entries@.skip(i as int),
                ),
                *self == (ClusterState { udp_to_tcp_map: self.udp_to_tcp_map, ..pre }),
            decreases n - i,
        {
            let ghost before = self.udp_to_tcp_map.as_map();
            let k = entries[i].0.clone();
            let v = entries[i].1.clone();
            self.udp_to_tcp_map.insert(k, v);
            proof {
                assert(entries@.skip(i as int).first() == entries@[i as int]);
                assert(entries@.skip(i as int).drop_first() =~= entries@.skip(i as int + 1));
            }
            i = i + 1;
        }
        proof {
            assert(entries@.skip(n as int) =~= Seq::<(String, String)>::empty());
            assert(self.pred_set() =~= pre.pred_set());
        }
    }

    /// Adds every identifier of `src` that `dst` lacks.
    pub fn union_owner_lists(dst: &mut Vec<String>, src: &Vec<String>)
        ensures
            forall|o: Seq<char>|
                id_views(old(dst)@).contains(o) ==> id_views(final(dst)@).contains(o),
            forall|t: int|
                0 <= t < src@.len() ==> id_views(final(dst)@).contains(id_views(src@)[t]),
            forall|o: Seq<char>|
                id_views(final(dst)@).contains(o) ==> (id_views(old(dst)@).contains(o)
                    || id_views(src@).contains(o)),
    {
        let ghost dst0 = dst@;
        let m = src.len();
        let mut j: usize = 0;
        while j < m
            invariant
                j <= m,
                m == src@.len(),
                forall|o: Seq<char>|
                    id_views(dst@).contains(o) ==> (id_views(dst0).contains(o) || (
                    exists|t: int| 0 <= t < j && id_views(src@)[t] == o)),
                forall|o: Seq<char>|
                    id_views(dst0).contains(o) ==> id_views(dst@).contains(o),
                forall|t: int| 0 <= t < j ==> id_views(dst@).contains(id_views(src@)[t]),
            decreases m - j,
        {
            let ghost curp = dst@;
            let present = crate::order::contains_id(dst, &src[j]);
            if !present {
                dst.push(src[j].clone());
            }
            proof {
                assert(id_views(src@)[j as int] == src@[j as int]@);
                if !present {
                    assert(dst@ == curp.push(src@[j as int]));
                    assert forall|o: Seq<char>| id_views(dst@).contains(o) implies (
                    id_views(curp).contains(o) || id_views(src@)[j as int] == o) by {
                        let t = choose|t: int|
                            0 <= t < id_views(dst@).len() && id_views(dst@)[t] == o;
                        if t < curp.len() {
                            assert(id_views(curp)[t] == o);
                        } else {
                            assert(dst@[t] == src@[j as int]);
                        }
                    }
                    assert forall|o: Seq<char>| id_views(curp).contains(o) implies id_views(
                        dst@,
                    ).contains(o) by {
                        let t = choose|t: int|
                            0 <= t < id_views(curp).len() && id_views(curp)[t] == o;
                        assert(id_views(dst@)[t] == o);
                    }
                    assert(id_views(dst@)[curp.len() as int] == src@[j as int]@);
                }
                assert(id_views(dst@).contains(id_views(src@)[j as int]));
                assert forall|o: Seq<char>| id_views(dst@).contains(o) implies (id_views(
                    dst0,
                ).contains(o) || (exists|t: int|
                    0 <= t < j + 1 && id_views(src@)[t] == o)) by {
                    if id_views(curp).contains(o) {
                        if !id_views(dst0).contains(o) {
                            let t = choose|t: int| 0 <= t < j && id_views(src@)[t] == o;
                            assert(0 <= t < j + 1 && id_views(src@)[t] == o);
                        }
                    } else {
                        assert(id_views(src@)[j as int] == o);
                    }
                }
            }
            j = j + 1;
        }
        proof {
            assert forall|o: Seq<char>| id_views(dst@).contains(o) implies (id_views(
                dst0,
            ).contains(o) || id_views(src@).contains(o)) by {
                if !id_views(dst0).contains(o) {
                    let t = choose|t: int| 0 <= t < m && id_views(src@)[t] == o;
                    assert(id_views(src@)[t] == o);
                    assert(id_views(src@).contains(o));
                }
            }
        }
    }

    /// Unions the given owner lists into the file-owners map, file by
    /// file.
    pub fn merge_all_file_owners(&mut self, new_owners: &Vec<(String, Vec<String>)>)
        requires
            old(self).wf(),
        ensures
            final(self).wf(),
            forall|k: Seq<char>|
                final(self).all_file_owners.contains_key(k) <==> (old(
                    self,
                ).all_file_owners.contains_key(k) || pairs_have_key_upto(
                    new_owners@,
                    new_owners@.len() as int,
                    k,
                )),
            forall|k: Seq<char>, o: Seq<char>|
                owner_has(&final(self).all_file_owners, k, o) <==> (owner_has(
                    &old(self).all_file_owners,
                    k,
                    o,
                ) || pairs_have_owner(new_owners@, k, o)),
            *final(self) == (ClusterState {
                all_file_owners: final(self).all_file_owners,
                ..*old(self)
            }),
    {
        let ghost pre = *self;
        let ghost pv = new_owners@;
        let n = new_owners.len();
        let mut i: usize = 0;
        while i < n
            invariant
                i <= n,
                n == pv.len(),
                pv == new_owners@,
                self.all_file_owners.wf(),
                forall|k: Seq<char>|
                    self.all_file_owners.contains_key(k) ==> (pre.all_file_owners.contains_key(
                        k,
                    ) || pairs_have_key_upto(pv, i as int, k)),
                forall|k: Seq<char>|
                    pre.all_file_owners.contains_key(k) ==> self.all_file_owners.contains_key(k),
                forall|j: int|
                    0 <= j < i ==> self.all_file_owners.contains_key(pv[j].0.view()),
                forall|k: Seq<char>, o: Seq<char>|
                    owner_has(&self.all_file_owners, k, o) ==> (owner_has(
                        &pre.all_file_owners,
                        k,
                        o,
                    ) || pairs_have_owner_upto(pv, i as int, k, o)),
                forall|k: Seq<char>, o: Seq<char>|
                    owner_has(&pre.all_file_owners, k, o) ==> owner_has(
                        &self.all_file_owners,
                        k,
                        o,
                    ),
                forall|j: int, o: Seq<char>|
                    0 <= j < i && id_views(pv[j].1@).contains(o) ==> owner_has(
                        &self.all_file_owners,
                        pv[j].0.view(),
                        o,
                    ),
                *self == (ClusterState { all_file_owners: self.all_file_owners, ..pre }),
            decreases n - i,
        {
            let ghost snap = self.all_file_owners;
            let fname = new_owners[i].0.clone();
            let mut cur: Vec<String> = match self.all_file_owners.get(&fname) {
                Some(v) => crate::order::clone_ids(v),
                None => Vec::new(),
            };
            let ghost cur0 = cur@;
            let srcv = &new_owners[i].1;
            Self::union_owner_lists(&mut cur, srcv);
            let ghost curg = cur@;
            proof {
                assert(srcv@ == pv[i as int].1@);
                assert(forall|o: Seq<char>|
                    id_views(cur0).contains(o) ==> id_views(curg).contains(o));
                assert(forall|o: Seq<char>|
                    id_views(curg).contains(o) ==> (id_views(cur0).contains(o) || id_views(
                        pv[i as int].1@,
                    ).contains(o)));
                assert forall|o: Seq<char>|
                    id_views(pv[i as int].1@).contains(o) implies id_views(curg).contains(
                    o,
                ) by {
                    let t = choose|t: int|
                        0 <= t < id_views(srcv@).len() && id_views(srcv@)[t] == o;
                    assert(id_views(curg).contains(id_views(srcv@)[t]));
                }
            }
            let ghost fk = pv[i as int].0.view();
            self.all_file_owners.insert(fname, cur);
            proof {
                assert(fname@ == fk);
                assert(srcv@ == pv[i as int].1@);
                assert(self.all_file_owners.spec_get(fk)@ == curg);
                if snap.contains_key(fk) {
                    assert(snap.spec_get(fk)@ == cur0);
                } else {
                    assert(cur0 =~= Seq::<String>::empty());
                }
                assert forall|k: Seq<char>|
                    #[trigger] self.all_file_owners.contains_key(k) implies (
                pre.all_file_owners.contains_key(k) || pairs_have_key_upto(
                    pv,
                    i as int + 1,
                    k,
                )) by {
                    if k == fk {
                        assert(pv[i as int].0.view() == k);
                        assert(pairs_have_key_upto(pv, i as int + 1, k));
                    } else {
                        assert(snap.contains_key(k));
                        if !pre.all_file_owners.contains_key(k) {
                            let j = choose|j: int| 0 <= j < i && pv[j].0.view() == k;
                            assert(pairs_have_key_upto(pv, i as int + 1, k));
                        }
                    }
                }
                assert forall|k: Seq<char>, o: Seq<char>|
                    #[trigger] owner_has(&self.all_file_owners, k, o) implies (owner_has(
                    &pre.all_file_owners,
                    k,
                    o,
                ) || pairs_have_owner_upto(pv, i as int + 1, k, o)) by {
                    if k == fk {
                        assert(id_views(curg).contains(o));
                        if id_views(cur0).contains(o) {
                            assert(owner_has(&snap, k, o));
                            if !owner_has(&pre.all_file_owners, k, o) {
                                let j = choose|j: int|
                                    0 <= j < i && pv[j].0.view() == k && id_views(
                                        pv[j].1@,
                                    ).contains(o);
                                assert(pairs_have_owner_upto(pv, i as int + 1, k, o));
                            }
                        } else {
                            assert(id_views(pv[i as int].1@).contains(o));
                            assert(pairs_have_owner_upto(pv, i as int + 1, k, o));
                        }
                    } else {
                        assert(self.all_file_owners.spec_get(k) == snap.spec_get(k));
                        assert(owner_has(&snap, k, o));
                        if !owner_has(&pre.all_file_owners, k, o) {
                            let j = choose|j: int|
                                0 <= j < i && pv[j].0.view() == k && id_views(
                                    pv[j].1@,
                                ).contains(o);
                            assert(pairs_have_owner_upto(pv, i as int + 1, k, o));
                        }
                    }
                }
                assert forall|k: Seq<char>, o: Seq<char>|
                    owner_has(&pre.all_file_owners, k, o) implies owner_has(
                    &self.all_file_owners,
                    k,
                    o,
                ) by {
                    assert(owner_has(&snap, k, o));
                    if k == fk {
                        assert(snap.contains_key(fk));
                        assert(snap.spec_get(fk)@ == cur0);
                        assert(id_views(snap.spec_get(fk)@).contains(o));
                        assert(id_views(cur0).contains(o));
                        assert(id_views(curg).contains(o));
                    } else {
                        assert(self.all_file_owners.spec_get(k) == snap.spec_get(k));
                    }
                }
                assert forall|j: int, o: Seq<char>|
                    0 <= j < i + 1 && id_views(pv[j].1@).contains(o) implies owner_has(
                    &self.all_file_owners,
                    pv[j].0.view(),
                    o,
                ) by {
                    if j == i {
                        assert(id_views(curg).contains(o));
                    } else {
                        assert(owner_has(&snap, pv[j].0.view(), o));
                        if pv[j].0.view() == fk {
                            assert(id_views(cur0).contains(o));
                            assert(id_views(curg).contains(o));
                        } else {
                            assert(self.all_file_owners.spec_get(pv[j].0.view())
                                == snap.spec_get(pv[j].0.view()));
                        }
                    }
                }
            }
            i = i + 1;
        }
        proof {
            assert(self.pred_set() =~= pre.pred_set());
            assert forall|k: Seq<char>|
                (pre.all_file_owners.contains_key(k) || pairs_have_key_upto(
                    pv,
                    n as int,
                    k,
                )) implies #[trigger] self.all_file_owners.contains_key(k) by {
                if !pre.all_file_owners.contains_key(k) {
                    let j = choose|j: int| 0 <= j < n && pv[j].0.view() == k;
                    assert(self.all_file_owners.contains_key(pv[j].0.view()));
                }
            }
            assert forall|k: Seq<char>, o: Seq<char>|
                (owner_has(&pre.all_file_owners, k, o) || pairs_have_owner(
                    pv,
                    k,
                    o,
                )) implies #[trigger] owner_has(&self.all_file_owners, k, o) by {
                if !owner_has(&pre.all_file_owners, k, o) {
                    let j = choose|j: int|
                        0 <= j < n && pv[j].0.view() == k && id_views(pv[j].1@).contains(o);
                    assert(owner_has(&self.all_file_owners, pv[j].0.view(), o));
                }
            }
        }
    }

    /// Resolves each UDP endpoint through the address map; fails on the
    /// first endpoint that has no entry.
    pub fn tcp_ips_from_udp_ips(&self, udp_ips: &Vec<String>) -> (r: Result<Vec<String>, Error>)
        requires
            self.wf(),
        ensures
            r is Ok <==> (forall|k: int|
                0 <= k < udp_ips@.len() ==> self.udp_to_tcp_map.contains_key(udp_ips@[k]@)),
            r matches Ok(v) ==> v@.len() == udp_ips@.len() && (forall|k: int|
                0 <= k < udp_ips@.len() ==> v@[k]@ == self.udp_to_tcp_map.spec_get(
                    udp_ips@[k]@,
                )@),
            r matches Err(e) ==> e == Error::MissingTcpEntry,
    {
        let n = udp_ips.len();
        let mut out: Vec<String> = Vec::new();
        let mut i: usize = 0;
        while i < n
            invariant
                i <= n,
                n == udp_ips@.len(),
                self.wf(),
                out@.len() == i,
                forall|k: int| 0 <= k < i ==> self.udp_to_tcp_map.contains_key(udp_ips@[k]@),
                forall|k: int|
                    0 <= k < i ==> out@[k]@ == self.udp_to_tcp_map.spec_get(udp_ips@[k]@)@,
            decreases n - i,
        {
            match self.udp_to_tcp_map.get(&udp_ips[i]) {
                Some(tcp) => {
                    out.push(tcp.clone());
                },
                None => {
                    return Err(Error::MissingTcpEntry);
                },
            }
            i = i + 1;
        }
        Ok(out)
    }

    /// `tcp` is the TCP endpoint that the address map records for the
    /// node with identifier `id`.
    pub open spec fn resolves_id(&self, id: Seq<char>, tcp: Seq<char>) -> bool {
        &&& crate::ids::has_sep(id)
        &&& self.udp_to_tcp_map.contains_key(crate::ids::ip_of(id))
        &&& tcp == self.udp_to_tcp_map.spec_get(crate::ids::ip_of(id))@
    }

    /// Resolves each identifier to its TCP endpoint: endpoint part
    /// first, then the address map.
    pub fn tcp_ips_from_ids(&self, ids: &Vec<String>) -> (r: Result<Vec<String>, Error>)
        requires
            self.wf(),
        ensures
            r matches Err(e) ==> e == Error::MalformedId || e == Error::MissingTcpEntry,
            r is Err ==> (exists|k: int|
                0 <= k < ids@.len() && !crate::ids::has_sep(ids@[k]@)) || (exists|k: int|
                0 <= k < ids@.len() && !self.udp_to_tcp_map.contains_key(
                    crate::ids::ip_of(ids@[k]@),
                )),
            r matches Ok(v) ==> v@.len() == ids@.len() && (forall|k: int|
                0 <= k < ids@.len() ==> self.resolves_id(ids@[k]@, v@[k]@)),
    {
        match crate::ids::ips_from_ids(ids) {
            Some(udp_ips) => {
                let r = self.tcp_ips_from_udp_ips(&udp_ips);
                proof {
                    if r is Err {
                        let k = choose|k: int|
                            0 <= k < udp_ips@.len() && !self.udp_to_tcp_map.contains_key(
                                udp_ips@[k]@,
                            );
                        assert(!self.udp_to_tcp_map.contains_key(crate::ids::ip_of(ids@[k]@)));
                    } else {
                        let v = r->Ok_0;
                        assert(udp_ips@.len() == ids@.len());
                        assert(v@.len() == udp_ips@.len());
                        assert(v@.len() == ids@.len());
                        assert forall|k: int| 0 <= k < ids@.len() implies self.resolves_id(
                            ids@[k]@,
                            v@[k]@,
                        ) by {
                            assert(udp_ips@[k]@ == crate::ids::ip_of(ids@[k]@));
                            assert(self.udp_to_tcp_map.contains_key(udp_ips@[k]@));
                            assert(v@[k]@ == self.udp_to_tcp_map.spec_get(udp_ips@[k]@)@);
                        }
                    }
                }
                r
            },
            None => {
                proof {
                    let k = choose|k: int| 0 <= k < ids@.len() && !crate::ids::has_sep(ids@[k]@);
                    assert(!crate::ids::has_sep(ids@[k]@));
                }
                Err(Error::MalformedId)
            },
        }
    }

    /// On leaving: mark not joined and empty the membership, successor
    /// and predecessor lists and the predecessor timestamps.  The
    /// address map keeps its (benignly stale) entries.
    pub fn clear_vars_on_leave(&mut self)
        requires
            old(self).wf(),
        ensures
            final(self).wf(),
            !final(self).is_joined,
            final(self).members().len() == 0,
            final(self).successors().len() == 0,
            final(self).predecessors().len() == 0,
            final(self).predecessor_timestamps@.dom() == Set::<Seq<char>>::empty(),
            final(self).udp_to_tcp_map == old(self).udp_to_tcp_map,
            final(self).all_file_owners == old(self).all_file_owners,
            final(self).my_id == old(self).my_id,
            final(self).my_ip_addr == old(self).my_ip_addr,
            final(self).tcp_addr == old(self).tcp_addr,
            final(self).peer_list == old(self).peer_list,
    {
        self.is_joined = false;
        self.membership_list.clear();
        self.successor_list.clear();
        self.predecessor_list.clear();
        self.predecessor_timestamps.clear();
        proof {
            assert(self.predecessor_timestamps@.dom() =~= self.pred_set());
            assert(self.predecessor_timestamps@.dom() =~= Set::<Seq<char>>::empty());
        }
    }

    /// A copy of the membership list, for display.
    pub fn membership_snapshot(&self) -> (r: Vec<String>)
        ensures
            id_views(r@) == self.members(),
    {
        let r = crate::order::clone_ids(&self.membership_list);
        proof {
            assert(id_views(r@) =~= self.members());
        }
        r
    }
}

} // verus!
