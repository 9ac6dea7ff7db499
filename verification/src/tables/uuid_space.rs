use crate::id_types::LocalId;
use crate::id_types::SessionId;
use crate::id_types::StableId;
use crate::tables::id_cluster::cluster_bounded;
use crate::tables::id_cluster::ClusterProperties;
use crate::tables::final_space::cluster_ref_equal;
use crate::tables::session_space::cluster_at;
use crate::tables::session_space::session_wf;
use crate::tables::session_space::valid_cluster_ref;
use crate::tables::session_space::ClusterRef;
use crate::tables::session_space::SessionView;
use crate::tables::session_space::Sessions;
use vstd::prelude::*;

verus! {

/// The base stable ID of the cluster that `r` denotes: its owner's identity
/// advanced by the base local's 0-based offset.
pub open spec fn cluster_base_stable(sessions: Seq<SessionView>, r: ClusterRef) -> int {
    sessions[r.session_space_ref.index as int].session_id + (-cluster_at(
        sessions,
        r,
    ).base_local_id@) - 1
}

/// The table's invariant relative to the session container: keys ascend
/// strictly, every entry denotes an existing bounded cluster of a
/// well-formed session, and each key is its cluster's base stable ID.
pub open spec fn us_wf(sessions: Seq<SessionView>, v: Seq<(int, ClusterRef)>) -> bool {
    &&& forall|p: int| 0 <= p < v.len() - 1 ==> (#[trigger] v[p]).0 < v[p + 1].0
    &&& forall|p: int|
        0 <= p < v.len() ==> valid_cluster_ref(sessions, (#[trigger] v[p]).1) && cluster_bounded(
            cluster_at(sessions, v[p].1),
        ) && session_wf(sessions[v[p].1.session_space_ref.index as int]) && v[p].0
            == cluster_base_stable(sessions, v[p].1)
}

/// Whether `p` is the position of the greatest key at or below `q`.
pub open spec fn is_us_floor(v: Seq<(int, ClusterRef)>, q: int, p: int) -> bool {
    &&& 0 <= p < v.len()
    &&& v[p].0 <= q
    &&& forall|r: int| 0 <= r < v.len() && (#[trigger] v[r]).0 <= q ==> v[r].0 <= v[p].0
}

/// In a strictly ascending table the keys at distinct positions differ.
pub proof fn lemma_us_keys_ascending(v: Seq<(int, ClusterRef)>, p: int, q: int)
    requires
        forall|r: int| 0 <= r < v.len() - 1 ==> (#[trigger] v[r]).0 < v[r + 1].0,
        0 <= p < q < v.len(),
    ensures
        v[p].0 < v[q].0,
    decreases q - p,
{
    assert(v[p].0 < v[p + 1].0);
    if p + 1 < q {
        lemma_us_keys_ascending(v, p + 1, q);
    }
}

/// An ordered map from each cluster's base stable ID to the cluster;
/// answers recompress and collision queries.
#[derive(Debug)]
pub struct UuidSpace {
    uuid_to_cluster: Vec<(StableId, ClusterRef)>,
}

impl UuidSpace {
    /// The entries in ascending key order.
    pub closed spec fn view(&self) -> Seq<(int, ClusterRef)> {
        Seq::new(
            self.uuid_to_cluster@.len(),
            |i: int| (self.uuid_to_cluster@[i].0@, self.uuid_to_cluster@[i].1),
        )
    }

    /// An empty table.
    pub fn new() -> (r: UuidSpace)
        ensures
            r@ =~= Seq::<(int, ClusterRef)>::empty(),
    {
        UuidSpace { uuid_to_cluster: Vec::new() }
    }

    /// How many clusters are registered.
    pub fn entry_count(&self) -> (r: usize)
        ensures
            r == self@.len(),
    {
        self.uuid_to_cluster.len()
    }

    /// The position at which `key` would keep the keys ascending.
    #[verifier::loop_isolation(false)]
    fn insert_position(&self, key: &StableId) -> (r: usize)
        requires
            forall|p: int| 0 <= p < self@.len() - 1 ==> (#[trigger] self@[p]).0 < self@[p + 1].0,
        ensures
            r <= self@.len(),
            forall|p: int| 0 <= p < r ==> (#[trigger] self@[p]).0 < key@,
            forall|p: int| r <= p < self@.len() ==> (#[trigger] self@[p]).0 >= key@,
    {
        let mut i: usize = 0;
        while i < self.uuid_to_cluster.len()
            invariant
                0 <= i <= self@.len(),
                forall|p: int| 0 <= p < i ==> (#[trigger] self@[p]).0 < key@,
            decreases self@.len() - i,
        {
            let (entry_key, _) = self.uuid_to_cluster[i];
            if !entry_key.lt(key) {
                proof {
                    assert forall|p: int| i <= p < self@.len() implies (#[trigger] self@[p]).0
                        >= key@ by {
                        if p > i {
                            lemma_us_keys_ascending(self@, i as int, p);
                        }
                    }
                }
                return i;
            }
            i = i + 1;
        }
        i
    }

    /// Registers a cluster under its base stable ID, keeping keys in
    /// ascending order. The key must be fresh.
    pub fn add_cluster(
        &mut self,
        session_id: SessionId,
        new_cluster_ref: ClusterRef,
        sessions: &Sessions,
    )
        requires
            forall|p: int| 0 <= p < old(self)@.len() - 1 ==> (#[trigger] old(self)@[p]).0 < old(
                self,
            )@[p + 1].0,
            valid_cluster_ref(sessions@, new_cluster_ref),
            session_id@ == sessions@[new_cluster_ref.session_space_ref.index as int].session_id,
            cluster_at(sessions@, new_cluster_ref).base_local_id@ < 0,
            session_id@ + (-cluster_at(sessions@, new_cluster_ref).base_local_id@) - 1
                <= u128::MAX,
            -cluster_at(sessions@, new_cluster_ref).base_local_id@ <= u64::MAX,
            forall|p: int|
                0 <= p < old(self)@.len() ==> (#[trigger] old(self)@[p]).0 != cluster_base_stable(
                    sessions@,
                    new_cluster_ref,
                ),
        ensures
            exists|p: int|
                0 <= p <= old(self)@.len() && final(self)@ == #[trigger] old(self)@.insert(
                    p,
                    (cluster_base_stable(sessions@, new_cluster_ref), new_cluster_ref),
                ),
            forall|p: int|
                0 <= p < final(self)@.len() - 1 ==> (#[trigger] final(self)@[p]).0
                    < final(self)@[p + 1].0,
    {
        let cluster = sessions.deref_cluster(new_cluster_ref);
        let offset: u64 = cluster.base_local_id.to_generation_count() - 1;
        let base_stable: StableId = session_id.stable_id().offset_by(offset);
        let ghost key = base_stable@;
        let i = self.insert_position(&base_stable);
        self.uuid_to_cluster.insert(i, (base_stable, new_cluster_ref));
        proof {
            assert(key == cluster_base_stable(sessions@, new_cluster_ref));
            assert(self@ =~= old(self)@.insert(i as int, (key, new_cluster_ref)));
            assert forall|p: int| 0 <= p < self@.len() - 1 implies (#[trigger] self@[p]).0 < self@[p
                + 1].0 by {
                assert(self@[p] == if p < i as int {
                    old(self)@[p]
                } else if p == i as int {
                    (key, new_cluster_ref)
                } else {
                    old(self)@[p - 1]
                });
                assert(self@[p + 1] == if p + 1 < i as int {
                    old(self)@[p + 1]
                } else if p + 1 == i as int {
                    (key, new_cluster_ref)
                } else {
                    old(self)@[p]
                });
                if p + 1 < i as int {
                    assert(old(self)@[p].0 < old(self)@[p + 1].0);
                } else if p + 1 > i as int && p != i as int {
                    assert(old(self)@[p - 1].0 < old(self)@[p].0);
                }
            }
        }
    }

    /// The cluster whose span includes the queried stable ID, with the
    /// originator's local aligned to the query. Reservation, not
    /// finalization, is what is checked.
    #[verifier::rlimit(60)]
    pub fn search(&self, query: StableId, sessions: &Sessions) -> (r: Option<
        (ClusterProperties, ClusterRef, LocalId),
    >)
        requires
            us_wf(sessions@, self@),
        ensures
            match r {
                Some((c, cref, loc)) => exists|p: int|
                    {
                        &&& #[trigger] is_us_floor(self@, query@, p)
                        &&& self@[p].1 == cref
                        &&& c == cluster_at(sessions@, cref)
                        &&& self@[p].0 <= query@ <= self@[p].0 + c.capacity
                        &&& loc@ == -(query@ - sessions@[cref.session_space_ref.index
                            as int].session_id) - 1
                    },
                None => forall|p: int|
                    #[trigger] is_us_floor(self@, query@, p) ==> query@ > self@[p].0 + cluster_at(
                        sessions@,
                        self@[p].1,
                    ).capacity,
            },
    {
        let p = match self.floor_index(query) {
            None => {
                return None;
            },
            Some(p) => p,
        };
        let (entry_key, cref) = self.uuid_to_cluster[p];
        let cluster = sessions.deref_cluster(cref);
        proof {
            assert(self@[p as int].0 == entry_key@);
            assert(cluster_bounded(cluster_at(sessions@, cref)));
            assert(session_wf(sessions@[cref.session_space_ref.index as int]));
            assert(entry_key@ == cluster_base_stable(sessions@, cref));
        }
        proof {
            let owner = sessions@[cref.session_space_ref.index as int];
            let k = cref.cluster_chain_index as int;
            assert(cluster_at(sessions@, cref) == owner.chain[k]);
            assert forall|ii: int| 0 <= ii < owner.chain.len() implies (
            #[trigger] owner.chain[ii]).capacity >= 0 by {
                assert(cluster_bounded(owner.chain[ii]));
            }
            crate::tables::session_space::lemma_caps_sum_take(owner.chain, k);
            crate::tables::session_space::lemma_caps_sum_take_le(owner.chain, k + 1);
            assert(owner.chain[k].base_local_id@ == -1 - crate::tables::session_space::caps_sum(
                owner.chain.take(k),
            ));
        }
        let cluster_max_stable = entry_key.offset_by(cluster.capacity);
        if query.lt(&cluster_max_stable) || query.eq_value(&cluster_max_stable) {
            proof {
                let owner = sessions@[cref.session_space_ref.index as int];
                let k = cref.cluster_chain_index as int;
                assert(cluster_at(sessions@, cref) == owner.chain[k]);
                assert forall|ii: int| 0 <= ii < owner.chain.len() implies (
                #[trigger] owner.chain[ii]).capacity >= 0 by {
                    assert(cluster_bounded(owner.chain[ii]));
                }
                crate::tables::session_space::lemma_caps_sum_take(owner.chain, k);
                crate::tables::session_space::lemma_caps_sum_take_le(owner.chain, k + 1);
                assert(owner.chain[k].base_local_id@ == -1 - crate::tables::session_space::caps_sum(
                    owner.chain.take(k),
                ));
            }
            let owner_sid = sessions.deref_session_space(cref.session_space_ref).session_id();
            let delta: u128 = query.distance_from(&owner_sid.stable_id());
            let originator_local = LocalId::from_generation_count((delta as u64) + 1);
            proof {
                lemma_us_floor_unique(self@, query@, p as int);
            }
            Some((cluster, cref, originator_local))
        } else {
            proof {
                lemma_us_floor_unique(self@, query@, p as int);
            }
            None
        }
    }

    /// Whether a foreign cluster's reserved span reaches into the stable
    /// range `[range_base, range_max]`: the floor cluster of `range_max` is
    /// checked, as the only candidate.
    pub fn range_collides(
        &self,
        originator: SessionId,
        sessions: &Sessions,
        range_base: StableId,
        range_max: StableId,
    ) -> (r: bool)
        requires
            us_wf(sessions@, self@),
        ensures
            r == (exists|p: int|
                {
                    &&& #[trigger] is_us_floor(self@, range_max@, p)
                    &&& sessions@[self@[p].1.session_space_ref.index as int].session_id
                        != originator@
                    &&& self@[p].0 + cluster_at(sessions@, self@[p].1).capacity - 1 >= range_base@
                }),
    {
        let p = match self.floor_index(range_max) {
            None => {
                return false;
            },
            Some(p) => p,
        };
        let (entry_key, cref) = self.uuid_to_cluster[p];
        let cluster = sessions.deref_cluster(cref);
        proof {
            assert(self@[p as int].0 == entry_key@);
            assert(cluster_bounded(cluster_at(sessions@, cref)));
            lemma_us_floor_unique(self@, range_max@, p as int);
        }
        let owner_sid = sessions.deref_session_space(cref.session_space_ref).session_id();
        if owner_sid.stable_id().eq_value(&originator.stable_id()) {
            return false;
        }
        let span_end = entry_key.offset_by(cluster.capacity - 1);
        range_base.lt(&span_end) || range_base.eq_value(&span_end)
    }

    /// The position of the greatest key at or below `query`, if any.
    #[verifier::loop_isolation(false)]
    #[verifier::rlimit(60)]
    fn floor_index(&self, query: StableId) -> (r: Option<usize>)
        requires
            forall|p: int|
                0 <= p < self@.len() - 1 ==> (#[trigger] self@[p]).0 < self@[p + 1].0,
        ensures
            match r {
                Some(p) => is_us_floor(self@, query@, p as int),
                None => forall|q: int| 0 <= q < self@.len() ==> (#[trigger] self@[q]).0 > query@,
            },
    {
        let mut lo: usize = 0;
        let mut hi: usize = self.uuid_to_cluster.len();
        while lo < hi
            invariant
                0 <= lo <= hi <= self@.len(),
                forall|q: int| 0 <= q < lo ==> (#[trigger] self@[q]).0 <= query@,
                forall|q: int| hi <= q < self@.len() ==> (#[trigger] self@[q]).0 > query@,
            decreases hi - lo,
        {
            let mid: usize = lo + (hi - lo) / 2;
            let (entry_key, _) = self.uuid_to_cluster[mid];
            if !query.lt(&entry_key) {
                proof {
                    assert forall|q: int| lo <= q <= mid implies (#[trigger] self@[q]).0
                        <= query@ by {
                        if q < mid {
                            lemma_us_keys_ascending(self@, q, mid as int);
                        }
                    }
                }
                lo = mid + 1;
            } else {
                proof {
                    assert forall|q: int| mid <= q < hi implies (#[trigger] self@[q]).0
                        > query@ by {
                        if q > mid {
                            lemma_us_keys_ascending(self@, mid as int, q);
                        }
                    }
                }
                hi = mid;
            }
        }
        if lo == 0 {
            return None;
        }
        proof {
            assert(self@[lo - 1].0 <= query@);
            assert forall|q: int| 0 <= q < self@.len() && (#[trigger] self@[q]).0
                <= query@ implies self@[q].0 <= self@[lo - 1].0 by {
                if q < lo - 1 {
                    lemma_us_keys_ascending(self@, q, lo - 1);
                }
            }
        }
        Some(lo - 1)
    }

    /// Whether some cluster is registered under exactly `key`.
    pub fn contains_key(&self, key: &StableId) -> (r: bool)
        requires
            forall|p: int| 0 <= p < self@.len() - 1 ==> (#[trigger] self@[p]).0 < self@[p + 1].0,
        ensures
            r == exists|p: int| 0 <= p < self@.len() && (#[trigger] self@[p]).0 == key@,
    {
        match self.floor_index(*key) {
            None => false,
            Some(p) => {
                let (entry_key, _) = self.uuid_to_cluster[p];
                proof {
                    assert(self@[p as int].0 == entry_key@);
                    if entry_key@ != key@ {
                        assert forall|q: int|
                            0 <= q < self@.len() implies (#[trigger] self@[q]).0 != key@ by {
                            if self@[q].0 == key@ {
                                assert(self@[q].0 <= self@[p as int].0);
                            }
                        }
                    }
                }
                entry_key.eq_value(key)
            },
        }
    }

    /// Whether the two tables list the same keys mapped to equal cluster
    /// positions.
    pub fn equals_test_only(
        &self,
        other: &UuidSpace,
        sessions_self: &Sessions,
        sessions_other: &Sessions,
    ) -> (r: bool)
        requires
            forall|p: int|
                0 <= p < self@.len() ==> (#[trigger] self@[p]).1.session_space_ref.index
                    < sessions_self@.len(),
            forall|p: int|
                0 <= p < other@.len() ==> (#[trigger] other@[p]).1.session_space_ref.index
                    < sessions_other@.len(),
        ensures
            r == us_equal(sessions_self@, self@, sessions_other@, other@),
    {
        if self.uuid_to_cluster.len() != other.uuid_to_cluster.len() {
            return false;
        }
        let mut p: usize = 0;
        while p < self.uuid_to_cluster.len()
            invariant
                self@.len() == other@.len(),
                0 <= p <= self@.len(),
                forall|q: int|
                    0 <= q < self@.len() ==> (#[trigger] self@[q]).1.session_space_ref.index
                        < sessions_self@.len(),
                forall|q: int|
                    0 <= q < other@.len() ==> (#[trigger] other@[q]).1.session_space_ref.index
                        < sessions_other@.len(),
                forall|q: int|
                    0 <= q < p ==> (#[trigger] self@[q]).0 == other@[q].0 && cluster_ref_equal(
                        sessions_self@,
                        self@[q].1,
                        sessions_other@,
                        other@[q].1,
                    ),
            decreases self@.len() - p,
        {
            let (key_a, ref_a) = self.uuid_to_cluster[p];
            let (key_b, ref_b) = other.uuid_to_cluster[p];
            proof {
                assert(self@[p as int] == (key_a@, ref_a));
                assert(other@[p as int] == (key_b@, ref_b));
            }
            let sid_a = sessions_self.deref_session_space(ref_a.session_space_ref).session_id();
            let sid_b = sessions_other.deref_session_space(ref_b.session_space_ref).session_id();
            if !(key_a.eq_value(&key_b) && sid_a.stable_id().eq_value(&sid_b.stable_id())
                && ref_a.cluster_chain_index == ref_b.cluster_chain_index) {
                proof {
                    assert(!((self@[p as int]).0 == other@[p as int].0 && cluster_ref_equal(
                        sessions_self@,
                        self@[p as int].1,
                        sessions_other@,
                        other@[p as int].1,
                    )));
                }
                return false;
            }
            p = p + 1;
        }
        true
    }
}

/// Under strictly ascending keys the floor position of a query is unique.
pub proof fn lemma_us_floor_unique(v: Seq<(int, ClusterRef)>, q: int, p: int)
    requires
        forall|r: int| 0 <= r < v.len() - 1 ==> (#[trigger] v[r]).0 < v[r + 1].0,
        is_us_floor(v, q, p),
    ensures
        forall|r: int| #[trigger] is_us_floor(v, q, r) ==> r == p,
{
    assert forall|r: int| #[trigger] is_us_floor(v, q, r) implies r == p by {
        if r < p {
            lemma_us_keys_ascending(v, r, p);
        }
        if p < r {
            lemma_us_keys_ascending(v, p, r);
        }
    }
}

/// Two tables agree when they list equal keys mapped to equal cluster
/// positions in the same order.
pub open spec fn us_equal(
    sa: Seq<SessionView>,
    a: Seq<(int, ClusterRef)>,
    sb: Seq<SessionView>,
    b: Seq<(int, ClusterRef)>,
) -> bool {
    &&& a.len() == b.len()
    &&& forall|p: int|
        0 <= p < a.len() ==> (#[trigger] a[p]).0 == b[p].0 && cluster_ref_equal(
            sa,
            a[p].1,
            sb,
            b[p].1,
        )
}

} // verus!
