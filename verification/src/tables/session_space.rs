use crate::id_types::FinalId;
use crate::id_types::LocalId;
use crate::id_types::SessionId;
use crate::tables::id_cluster::cluster_bounded;
use crate::tables::id_cluster::ClusterProperties;
use crate::tables::id_cluster::IdCluster;
use vstd::prelude::*;

verus! {

/// The ghost image of one session: its stable identity and its cluster
/// chain in insertion order.
pub ghost struct SessionView {
    /// The session's stable ID in compressed form.
    pub session_id: int,
    /// The session's clusters, oldest first.
    pub chain: Seq<ClusterProperties>,
}

/// The sum of the capacities of the clusters in `chain`.
pub open spec fn caps_sum(chain: Seq<ClusterProperties>) -> int
    decreases chain.len(),
{
    if chain.len() == 0 {
        0
    } else {
        caps_sum(chain.drop_last()) + chain.last().capacity
    }
}

/// Taking one more cluster adds its capacity to the sum.
pub proof fn lemma_caps_sum_take(chain: Seq<ClusterProperties>, k: int)
    requires
        0 <= k < chain.len(),
    ensures
        caps_sum(chain.take(k + 1)) == caps_sum(chain.take(k)) + chain[k].capacity,
{
    let taken = chain.take(k + 1);
    assert(taken.drop_last() =~= chain.take(k));
    assert(taken.last() == chain[k]);
}

/// The capacity sum never decreases as the chain is extended.
pub proof fn lemma_caps_sum_take_le(chain: Seq<ClusterProperties>, k: int)
    requires
        forall|i: int| 0 <= i < chain.len() ==> (#[trigger] chain[i]).capacity >= 0,
        0 <= k <= chain.len(),
    ensures
        caps_sum(chain.take(k)) <= caps_sum(chain),
    decreases chain.len() - k,
{
    if k < chain.len() {
        lemma_caps_sum_take(chain, k);
        lemma_caps_sum_take_le(chain, k + 1);
    } else {
        assert(chain.take(k) =~= chain);
    }
}

/// Locals are packed: each cluster's base local continues the previous
/// cluster's reserved span with no gap, starting at `-1`.
pub open spec fn chain_local_packed(chain: Seq<ClusterProperties>) -> bool {
    forall|k: int|
        0 <= k < chain.len() ==> (#[trigger] chain[k]).base_local_id@ == -1 - caps_sum(
            chain.take(k),
        )
}

/// Final runs of consecutive clusters in a chain do not overlap and ascend.
pub open spec fn chain_finals_ascending(chain: Seq<ClusterProperties>) -> bool {
    forall|k: int|
        0 <= k < chain.len() - 1 ==> (#[trigger] chain[k]).base_final_id@ + chain[k].capacity
            <= chain[k + 1].base_final_id@
}

/// Every cluster of the chain is within machine bounds and has finalized at
/// least one ID.
pub open spec fn chain_bounded(chain: Seq<ClusterProperties>) -> bool {
    forall|k: int|
        0 <= k < chain.len() ==> cluster_bounded(#[trigger] chain[k]) && chain[k].count >= 1
}

/// Whether the cluster at `k` covers `local`: the local lies within the
/// cluster's reserved span, or only its finalized span when
/// `include_allocated` is false.
pub open spec fn chain_covers(
    chain: Seq<ClusterProperties>,
    k: int,
    local: int,
    include_allocated: bool,
) -> bool {
    &&& 0 <= k < chain.len()
    &&& chain[k].base_local_id@ - (if include_allocated {
        chain[k].capacity as int
    } else {
        chain[k].count as int
    }) < local <= chain[k].base_local_id@
}

/// The final that the chain assigns to `local`, if some cluster covers it.
pub open spec fn spec_chain_convert(
    chain: Seq<ClusterProperties>,
    local: int,
    include_allocated: bool,
) -> Option<int> {
    if exists|k: int| chain_covers(chain, k, local, include_allocated) {
        let k = choose|k: int| chain_covers(chain, k, local, include_allocated);
        Some(chain[k].base_final_id@ + (chain[k].base_local_id@ - local))
    } else {
        None
    }
}

/// Whether the cluster at `k` has `f` within its reserved final run.
pub open spec fn chain_covers_final(chain: Seq<ClusterProperties>, k: int, f: int) -> bool {
    &&& 0 <= k < chain.len()
    &&& chain[k].base_final_id@ <= f < chain[k].base_final_id@ + chain[k].capacity
}

/// In a packed chain, later clusters lie strictly below earlier ones in
/// local space.
pub proof fn lemma_chain_locals_descending(chain: Seq<ClusterProperties>, k: int, l: int)
    requires
        chain_local_packed(chain),
        chain_bounded(chain),
        0 <= k < l < chain.len(),
    ensures
        chain[l].base_local_id@ <= chain[k].base_local_id@ - chain[k].capacity,
{
    assert(cluster_bounded(chain[k]));
    assert forall|i: int| 0 <= i < chain.len() implies (#[trigger] chain[i]).capacity >= 0 by {
        assert(cluster_bounded(chain[i]));
    }
    lemma_caps_sum_take(chain, k);
    lemma_caps_sum_take_mono(chain, k + 1, l);
    assert(chain[k].base_local_id@ == -1 - caps_sum(chain.take(k)));
    assert(chain[l].base_local_id@ == -1 - caps_sum(chain.take(l)));
}

/// At most one cluster of a packed chain covers a given local.
pub proof fn lemma_chain_covers_unique(
    chain: Seq<ClusterProperties>,
    a: int,
    b: int,
    local: int,
    include_allocated: bool,
)
    requires
        chain_local_packed(chain),
        chain_bounded(chain),
        chain_covers(chain, a, local, include_allocated),
        chain_covers(chain, b, local, include_allocated),
    ensures
        a == b,
{
    if a < b {
        lemma_chain_locals_descending(chain, a, b);
        assert(cluster_bounded(chain[a]));
    }
    if b < a {
        lemma_chain_locals_descending(chain, b, a);
        assert(cluster_bounded(chain[b]));
    }
}

/// The capacity sum grows with the prefix taken.
pub proof fn lemma_caps_sum_take_mono(chain: Seq<ClusterProperties>, a: int, b: int)
    requires
        forall|i: int| 0 <= i < chain.len() ==> (#[trigger] chain[i]).capacity >= 0,
        0 <= a <= b <= chain.len(),
    ensures
        caps_sum(chain.take(a)) <= caps_sum(chain.take(b)),
    decreases b - a,
{
    if a < b {
        lemma_caps_sum_take(chain, a);
        lemma_caps_sum_take_mono(chain, a + 1, b);
    }
}

/// A token for a registered session: an index into the session list, valid
/// for the compressor's lifetime.
#[derive(Clone, Copy, Debug, PartialEq, Eq, Structural)]
pub struct SessionSpaceRef {
    /// The session's position in the session list.
    pub index: usize,
}

impl SessionSpaceRef {
    /// The session's position in the session list.
    pub fn get_index(&self) -> (r: usize)
        ensures
            r == self.index,
    {
        self.index
    }

    /// Builds a reference from a session-list index.
    pub fn create_from_index(index: usize) -> (r: SessionSpaceRef)
        ensures
            r.index == index,
    {
        SessionSpaceRef { index }
    }

    /// Builds a reference from a non-negative session token.
    pub fn create_from_token(token: i64) -> (r: SessionSpaceRef)
        requires
            0 <= token <= usize::MAX,
        ensures
            r.index == token,
    {
        SessionSpaceRef { index: token as usize }
    }
}

/// A token for a cluster: the owning session and the cluster's position in
/// that session's chain.
#[derive(Clone, Copy, Debug, PartialEq, Eq, Structural)]
pub struct ClusterRef {
    /// The owning session.
    pub session_space_ref: SessionSpaceRef,
    /// The cluster's position in the owning session's chain.
    pub cluster_chain_index: usize,
}

impl ClusterRef {
    /// The owning session's reference.
    pub fn get_session_space_ref(&self) -> (r: SessionSpaceRef)
        ensures
            r == self.session_space_ref,
    {
        self.session_space_ref
    }
}

/// Whether `r` denotes a cluster that exists in `sessions`.
pub open spec fn valid_cluster_ref(sessions: Seq<SessionView>, r: ClusterRef) -> bool {
    &&& r.session_space_ref.index < sessions.len()
    &&& r.cluster_chain_index < sessions[r.session_space_ref.index as int].chain.len()
}

/// The cluster that `r` denotes.
pub open spec fn cluster_at(sessions: Seq<SessionView>, r: ClusterRef) -> ClusterProperties {
    sessions[r.session_space_ref.index as int].chain[r.cluster_chain_index as int]
}

/// The local/UUID space within an individual session: its identity and its
/// cluster chain, in insertion (and therefore local-ID) order.
#[derive(Debug)]
pub struct SessionSpace {
    session_id: SessionId,
    cluster_chain: Vec<IdCluster>,
}

impl SessionSpace {
    /// The ghost image of the session.
    pub closed spec fn view(&self) -> SessionView {
        SessionView {
            session_id: self.session_id@,
            chain: Seq::new(
                self.cluster_chain@.len(),
                |i: int| self.cluster_chain@[i].properties,
            ),
        }
    }

    /// A fresh session with an empty chain.
    pub fn new(session_id: SessionId) -> (r: SessionSpace)
        ensures
            r@.session_id == session_id@,
            r@.chain =~= Seq::<ClusterProperties>::empty(),
    {
        SessionSpace { session_id, cluster_chain: Vec::new() }
    }

    /// The session's stable identity.
    pub fn session_id(&self) -> (r: SessionId)
        ensures
            r@ == self@.session_id,
    {
        self.session_id
    }

    /// How many clusters the chain holds.
    pub fn cluster_count(&self) -> (r: usize)
        ensures
            r == self@.chain.len(),
    {
        self.cluster_chain.len()
    }

    /// The cluster at `index` in the chain.
    pub fn cluster_at_index(&self, index: usize) -> (r: ClusterProperties)
        requires
            index < self@.chain.len(),
        ensures
            r == self@.chain[index as int],
    {
        self.cluster_chain[index].properties
    }

    /// The chain's most recent cluster, if any.
    pub fn get_tail_cluster(&self, self_ref: SessionSpaceRef) -> (r: Option<ClusterRef>)
        ensures
            match r {
                Some(c) => {
                    &&& self@.chain.len() >= 1
                    &&& c.session_space_ref == self_ref
                    &&& c.cluster_chain_index == self@.chain.len() - 1
                },
                None => self@.chain.len() == 0,
            },
    {
        if self.cluster_chain.len() == 0 {
            return None;
        }
        Some(
            ClusterRef {
                session_space_ref: self_ref,
                cluster_chain_index: self.cluster_chain.len() - 1,
            },
        )
    }

    /// Appends a cluster with no finalized IDs to the chain.
    pub fn add_empty_cluster(
        &mut self,
        self_ref: SessionSpaceRef,
        base_final_id: FinalId,
        base_local_id: LocalId,
        capacity: u64,
    ) -> (r: ClusterRef)
        ensures
            final(self)@.session_id == old(self)@.session_id,
            final(self)@.chain == old(self)@.chain.push(
                ClusterProperties { base_final_id, base_local_id, capacity, count: 0 },
            ),
            r.session_space_ref == self_ref,
            r.cluster_chain_index == old(self)@.chain.len(),
    {
        self.add_cluster(self_ref, IdCluster::new(base_final_id, base_local_id, capacity, 0))
    }

    /// Appends a cluster to the chain.
    pub fn add_cluster(&mut self, self_ref: SessionSpaceRef, new_cluster: IdCluster) -> (r:
        ClusterRef)
        ensures
            final(self)@.session_id == old(self)@.session_id,
            final(self)@.chain == old(self)@.chain.push(new_cluster.properties),
            r.session_space_ref == self_ref,
            r.cluster_chain_index == old(self)@.chain.len(),
    {
        self.cluster_chain.push(new_cluster);
        proof {
            assert(self@.chain =~= old(self)@.chain.push(new_cluster.properties));
        }
        ClusterRef {
            session_space_ref: self_ref,
            cluster_chain_index: self.cluster_chain.len() - 1,
        }
    }


    /// Sets the finalized count of the cluster at `index` in the chain.
    pub fn set_cluster_count(&mut self, index: usize, count: u64)
        requires
            index < old(self)@.chain.len(),
        ensures
            final(self)@.session_id == old(self)@.session_id,
            final(self)@.chain == old(self)@.chain.update(
                index as int,
                (ClusterProperties { count, ..old(self)@.chain[index as int] }),
            ),
    {
        let cluster = &mut self.cluster_chain[index];
        IdCluster::set_count(cluster, count);
        proof {
            assert(self@.chain =~= old(self)@.chain.update(
                index as int,
                (ClusterProperties { count, ..old(self)@.chain[index as int] }),
            ));
        }
    }

    /// Sets the reserved capacity of the cluster at `index` in the chain.
    pub fn set_cluster_capacity(&mut self, index: usize, capacity: u64)
        requires
            index < old(self)@.chain.len(),
        ensures
            final(self)@.session_id == old(self)@.session_id,
            final(self)@.chain == old(self)@.chain.update(
                index as int,
                (ClusterProperties { capacity, ..old(self)@.chain[index as int] }),
            ),
    {
        let cluster = &mut self.cluster_chain[index];
        IdCluster::set_capacity(cluster, capacity);
        proof {
            assert(self@.chain =~= old(self)@.chain.update(
                index as int,
                (ClusterProperties { capacity, ..old(self)@.chain[index as int] }),
            ));
        }
    }

    /// The greatest stable ID the session has reserved.
    pub fn max_allocated_stable(&self) -> (r: crate::id_types::StableId)
        requires
            chain_local_packed(self@.chain),
            chain_bounded(self@.chain),
            0 <= self@.session_id < 0x04000000000000000000000000000000,
            1 + caps_sum(self@.chain) <= i64::MAX,
        ensures
            r@ == session_max_allocated_stable(self@),
    {
        if self.cluster_chain.len() == 0 {
            return self.session_id.stable_id();
        }
        let ghost chain = self@.chain;
        let n = self.cluster_chain.len();
        let tail = self.cluster_chain[n - 1].properties;
        proof {
            assert(cluster_bounded(chain[n - 1]));
            lemma_caps_sum_take(chain, n - 1);
            assert(chain.take(n - 1 + 1) =~= chain);
            assert forall|ii: int| 0 <= ii < chain.len() implies (#[trigger] chain[ii]).capacity
                >= 0 by {
                assert(cluster_bounded(chain[ii]));
            }
            lemma_caps_sum_take_le(chain, n - 1 as int);
        }
        self.session_id.stable_id().offset_by(tail.capacity - 1).offset_by(
            (tail.base_local_id.to_generation_count()) - 1,
        )
    }

    /// The final that the chain assigns to `search_local`, if a cluster
    /// covers it; reserved capacity counts only when `include_allocated`.
    pub fn try_convert_to_final(&self, search_local: LocalId, include_allocated: bool) -> (r:
        Option<FinalId>)
        requires
            chain_local_packed(self@.chain),
            chain_bounded(self@.chain),
            search_local@ < 0,
        ensures
            match r {
                Some(f) => spec_chain_convert(self@.chain, search_local@, include_allocated)
                    == Some(f@),
                None => spec_chain_convert(self@.chain, search_local@, include_allocated) is None,
            },
    {
        match self.get_cluster_by_local(search_local, include_allocated) {
            Some(found_cluster) => {
                let ghost chain = self@.chain;
                let ghost k = choose|k: int|
                    chain_covers(chain, k, search_local@, include_allocated);
                proof {
                    let j = choose|j: int|
                        0 <= j < chain.len() && chain[j] == found_cluster && chain_covers(
                            chain,
                            j,
                            search_local@,
                            include_allocated,
                        );
                    lemma_chain_covers_unique(chain, j, k, search_local@, include_allocated);
                    assert(chain[k] == found_cluster);
                    assert(cluster_bounded(chain[k]));
                }
                Some(found_cluster.get_allocated_final(search_local).unwrap())
            },
            None => None,
        }
    }

    /// The cluster covering `search_local`, if any; reserved capacity counts
    /// only when `include_allocated`.
    pub fn get_cluster_by_local(&self, search_local: LocalId, include_allocated: bool) -> (r:
        Option<ClusterProperties>)
        requires
            chain_local_packed(self@.chain),
            chain_bounded(self@.chain),
            search_local@ < 0,
        ensures
            match r {
                Some(c) => exists|k: int|
                    0 <= k < self@.chain.len() && self@.chain[k] == c && chain_covers(
                        self@.chain,
                        k,
                        search_local@,
                        include_allocated,
                    ),
                None => !exists|k: int|
                    chain_covers(self@.chain, k, search_local@, include_allocated),
            },
    {
        let ghost chain = self@.chain;
        let mut lo: usize = 0;
        let mut hi: usize = self.cluster_chain.len();
        while lo < hi
            invariant
                0 <= lo <= hi <= chain.len(),
                chain_local_packed(chain),
                chain_bounded(chain),
                chain == self@.chain,
                forall|k: int|
                    0 <= k < chain.len() && !(lo <= k < hi) ==> !chain_covers(
                        chain,
                        k,
                        search_local@,
                        include_allocated,
                    ),
            decreases hi - lo,
        {
            let mid: usize = lo + (hi - lo) / 2;
            let current = self.cluster_chain[mid].properties;
            proof {
                assert(cluster_bounded(chain[mid as int]));
            }
            let limit: u64 = if include_allocated {
                current.capacity
            } else {
                current.count
            };
            let cluster_last_local: i64 = current.base_local_id.id() - (limit as i64) + 1;
            if cluster_last_local > search_local.id() {
                proof {
                    assert forall|k: int| lo <= k <= mid implies !chain_covers(
                        chain,
                        k,
                        search_local@,
                        include_allocated,
                    ) by {
                        if k < mid {
                            lemma_chain_locals_descending(chain, k, mid as int);
                            assert(cluster_bounded(chain[k]));
                        }
                    }
                }
                lo = mid + 1;
            } else if current.base_local_id.id() < search_local.id() {
                proof {
                    assert forall|k: int| mid <= k < hi implies !chain_covers(
                        chain,
                        k,
                        search_local@,
                        include_allocated,
                    ) by {
                        if k > mid {
                            lemma_chain_locals_descending(chain, mid as int, k);
                            assert(cluster_bounded(chain[k]));
                        }
                    }
                }
                hi = mid;
            } else {
                proof {
                    assert(chain_covers(chain, mid as int, search_local@, include_allocated));
                }
                return Some(current);
            }
        }
        None
    }

    /// The cluster whose reserved final run includes `search_final`, if any.
    pub fn get_cluster_by_allocated_final(&self, search_final: FinalId) -> (r: Option<
        ClusterProperties,
    >)
        requires
            chain_finals_ascending(self@.chain),
            chain_bounded(self@.chain),
        ensures
            match r {
                Some(c) => exists|k: int|
                    0 <= k < self@.chain.len() && self@.chain[k] == c && chain_covers_final(
                        self@.chain,
                        k,
                        search_final@,
                    ),
                None => !exists|k: int| chain_covers_final(self@.chain, k, search_final@),
            },
    {
        let ghost chain = self@.chain;
        let mut lo: usize = 0;
        let mut hi: usize = self.cluster_chain.len();
        while lo < hi
            invariant
                0 <= lo <= hi <= chain.len(),
                chain_finals_ascending(chain),
                chain_bounded(chain),
                chain == self@.chain,
                forall|k: int|
                    0 <= k < chain.len() && !(lo <= k < hi) ==> !chain_covers_final(
                        chain,
                        k,
                        search_final@,
                    ),
            decreases hi - lo,
        {
            let mid: usize = lo + (hi - lo) / 2;
            let current = self.cluster_chain[mid].properties;
            proof {
                assert(cluster_bounded(chain[mid as int]));
            }
            let cluster_last_final: u64 = current.base_final_id.id() + (current.capacity - 1);
            if cluster_last_final < search_final.id() {
                proof {
                    assert forall|k: int| lo <= k <= mid implies !chain_covers_final(
                        chain,
                        k,
                        search_final@,
                    ) by {
                        if k < mid {
                            lemma_chain_finals_between(chain, k, mid as int);
                        }
                    }
                }
                lo = mid + 1;
            } else if current.base_final_id.id() > search_final.id() {
                proof {
                    assert forall|k: int| mid <= k < hi implies !chain_covers_final(
                        chain,
                        k,
                        search_final@,
                    ) by {
                        if k > mid {
                            lemma_chain_finals_between(chain, mid as int, k);
                        }
                    }
                }
                hi = mid;
            } else {
                proof {
                    assert(chain_covers_final(chain, mid as int, search_final@));
                }
                return Some(current);
            }
        }
        None
    }
}

/// In a chain with ascending final runs, a later cluster's run starts at or
/// after the end of an earlier cluster's run.
pub proof fn lemma_chain_finals_between(chain: Seq<ClusterProperties>, k: int, l: int)
    requires
        chain_finals_ascending(chain),
        chain_bounded(chain),
        0 <= k < l < chain.len(),
    ensures
        chain[k].base_final_id@ + chain[k].capacity <= chain[l].base_final_id@,
    decreases l - k,
{
    assert(cluster_bounded(chain[k]));
    if k + 1 < l {
        lemma_chain_finals_between(chain, k + 1, l);
        assert(cluster_bounded(chain[k + 1]));
    }
}

/// A session is well formed: its chain is packed, ascending, bounded, its
/// identity is a compressed UUID, and its locals fit in a signed 64-bit
/// integer.
pub open spec fn session_wf(s: SessionView) -> bool {
    &&& chain_local_packed(s.chain)
    &&& chain_finals_ascending(s.chain)
    &&& chain_bounded(s.chain)
    &&& 0 <= s.session_id < 0x04000000000000000000000000000000
    &&& 1 + caps_sum(s.chain) <= i64::MAX
}

/// Distinct sessions carry distinct identities.
pub open spec fn sessions_distinct(v: Seq<SessionView>) -> bool {
    forall|i: int, j: int|
        0 <= i < v.len() && 0 <= j < v.len() && i != j ==> (#[trigger] v[i]).session_id != (
        #[trigger] v[j]).session_id
}

/// The container's invariant: every session well formed, identities
/// distinct.
pub open spec fn sessions_wf(v: Seq<SessionView>) -> bool {
    &&& sessions_distinct(v)
    &&& forall|i: int| 0 <= i < v.len() ==> session_wf(#[trigger] v[i])
}

/// The greatest stable ID that the session has reserved: its own identity
/// when the chain is empty, else the stable ID aligned with the tail
/// cluster's last reserved local.
pub open spec fn session_max_allocated_stable(s: SessionView) -> int {
    if s.chain.len() == 0 {
        s.session_id
    } else {
        s.session_id + caps_sum(s.chain) - 1
    }
}

/// Whether `i` is the index of the session with the greatest identity at or
/// below `q`.
pub open spec fn is_session_floor(v: Seq<SessionView>, q: int, i: int) -> bool {
    &&& 0 <= i < v.len()
    &&& v[i].session_id <= q
    &&& forall|j: int| 0 <= j < v.len() && (#[trigger] v[j]).session_id <= q ==> v[j].session_id
        <= v[i].session_id
}

/// Whether some session's identity lies at or below `q`.
pub open spec fn has_session_floor(v: Seq<SessionView>, q: int) -> bool {
    exists|i: int| is_session_floor(v, q, i)
}

/// Whether `v` holds a session with identity `sid`.
pub open spec fn has_session(v: Seq<SessionView>, sid: int) -> bool {
    exists|i: int| 0 <= i < v.len() && (#[trigger] v[i]).session_id == sid
}

/// Two containers agree on finalized state: each session with a non-empty
/// chain in one has a counterpart with the same identity and chain in the
/// other.
pub open spec fn sessions_equal_finalized(a: Seq<SessionView>, b: Seq<SessionView>) -> bool {
    &&& forall|i: int|
        0 <= i < a.len() && (#[trigger] a[i]).chain.len() > 0 ==> exists|j: int|
            0 <= j < b.len() && (#[trigger] b[j]).session_id == a[i].session_id && b[j].chain
                == a[i].chain
    &&& forall|j: int|
        0 <= j < b.len() && (#[trigger] b[j]).chain.len() > 0 ==> exists|i: int|
            0 <= i < a.len() && (#[trigger] a[i]).session_id == b[j].session_id && a[i].chain
                == b[j].chain
}

/// Interns session identifiers and exclusively owns every session and
/// cluster; other tables refer into it by token.
#[derive(Debug)]
pub struct Sessions {
    session_list: Vec<SessionSpace>,
}

impl Sessions {
    /// The ghost image of the registered sessions, in registration order.
    pub closed spec fn view(&self) -> Seq<SessionView> {
        Seq::new(self.session_list@.len(), |i: int| self.session_list@[i]@)
    }

    /// An empty container.
    pub fn new() -> (r: Sessions)
        ensures
            r@ =~= Seq::<SessionView>::empty(),
    {
        Sessions { session_list: Vec::new() }
    }

    /// How many sessions are registered.
    pub fn get_session_count(&self) -> (r: usize)
        ensures
            r == self@.len(),
    {
        self.session_list.len()
    }

    /// How many sessions are registered.
    pub fn sessions_count(&self) -> (r: usize)
        ensures
            r == self@.len(),
    {
        self.session_list.len()
    }

    /// The session list and every chain fit in machine-sized containers.
    pub proof fn lemma_view_bounds(&self)
        ensures
            self@.len() <= usize::MAX,
            forall|j: int| 0 <= j < self@.len() ==> (#[trigger] self@[j]).chain.len() <= usize::MAX,
    {
        broadcast use vstd::std_specs::vec::axiom_spec_len;

        assert(self@.len() == self.session_list@.len());
        assert(vstd::std_specs::vec::spec_vec_len(&self.session_list) == self.session_list@.len());
        assert forall|j: int| 0 <= j < self@.len() implies (#[trigger] self@[j]).chain.len()
            <= usize::MAX by {
            assert(self@[j] == self.session_list@[j]@);
            assert(self@[j].chain.len() == self.session_list@[j].cluster_chain@.len());
            assert(vstd::std_specs::vec::spec_vec_len(&self.session_list@[j].cluster_chain)
                == self.session_list@[j].cluster_chain@.len());
        }
    }

    /// The token of the session with identity `session_id`, if registered.
    #[verifier::loop_isolation(false)]
    pub fn get(&self, session_id: SessionId) -> (r: Option<SessionSpaceRef>)
        ensures
            match r {
                Some(sref) => {
                    &&& sref.index < self@.len()
                    &&& self@[sref.index as int].session_id == session_id@
                },
                None => !has_session(self@, session_id@),
            },
    {
        let mut i: usize = 0;
        while i < self.session_list.len()
            invariant
                0 <= i <= self@.len(),
                forall|j: int| 0 <= j < i ==> (#[trigger] self@[j]).session_id != session_id@,
            decreases self@.len() - i,
        {
            if self.session_list[i].session_id().stable_id().eq_value(&session_id.stable_id()) {
                return Some(SessionSpaceRef { index: i });
            }
            i = i + 1;
        }
        None
    }

    /// The token of the session with identity `session_id`, registering it
    /// with an empty chain on first contact.
    pub fn get_or_create(&mut self, session_id: SessionId) -> (r: SessionSpaceRef)
        ensures
            r.index < final(self)@.len(),
            final(self)@[r.index as int].session_id == session_id@,
            if has_session(old(self)@, session_id@) {
                final(self)@ == old(self)@
            } else {
                &&& final(self)@ == old(self)@.push(
                    SessionView { session_id: session_id@, chain: Seq::empty() },
                )
                &&& r.index == old(self)@.len()
            },
    {
        match self.get(session_id) {
            Some(sref) => sref,
            None => {
                let index = self.session_list.len();
                self.session_list.push(SessionSpace::new(session_id));
                proof {
                    assert(self@ =~= old(self)@.push(
                        SessionView { session_id: session_id@, chain: Seq::empty() },
                    ));
                }
                SessionSpaceRef { index }
            },
        }
    }

    /// Borrows the session that `session_space_ref` denotes.
    pub fn deref_session_space(&self, session_space_ref: SessionSpaceRef) -> (r: &SessionSpace)
        requires
            session_space_ref.index < self@.len(),
        ensures
            r@ == self@[session_space_ref.index as int],
    {
        &self.session_list[session_space_ref.index]
    }

    /// Reads the cluster that `cluster_ref` denotes.
    pub fn deref_cluster(&self, cluster_ref: ClusterRef) -> (r: ClusterProperties)
        requires
            valid_cluster_ref(self@, cluster_ref),
        ensures
            r == cluster_at(self@, cluster_ref),
    {
        self.session_list[cluster_ref.session_space_ref.index].cluster_at_index(
            cluster_ref.cluster_chain_index,
        )
    }

    /// Appends a cluster with no finalized IDs to the session that
    /// `session_space_ref` denotes.
    pub fn append_empty_cluster(
        &mut self,
        session_space_ref: SessionSpaceRef,
        base_final_id: FinalId,
        base_local_id: LocalId,
        capacity: u64,
    ) -> (r: ClusterRef)
        requires
            session_space_ref.index < old(self)@.len(),
        ensures
            final(self)@ == old(self)@.update(
                session_space_ref.index as int,
                SessionView {
                    session_id: old(self)@[session_space_ref.index as int].session_id,
                    chain: old(self)@[session_space_ref.index as int].chain.push(
                        ClusterProperties { base_final_id, base_local_id, capacity, count: 0 },
                    ),
                },
            ),
            r.session_space_ref == session_space_ref,
            r.cluster_chain_index == old(self)@[session_space_ref.index as int].chain.len(),
    {
        let session = &mut self.session_list[session_space_ref.index];
        let r = SessionSpace::add_empty_cluster(
            session,
            session_space_ref,
            base_final_id,
            base_local_id,
            capacity,
        );
        proof {
            assert(self@ =~= old(self)@.update(
                session_space_ref.index as int,
                SessionView {
                    session_id: old(self)@[session_space_ref.index as int].session_id,
                    chain: old(self)@[session_space_ref.index as int].chain.push(
                        ClusterProperties { base_final_id, base_local_id, capacity, count: 0 },
                    ),
                },
            ));
        }
        r
    }

    /// Appends a cluster to the session that `session_space_ref` denotes.
    pub fn append_cluster(
        &mut self,
        session_space_ref: SessionSpaceRef,
        base_final_id: FinalId,
        base_local_id: LocalId,
        capacity: u64,
        count: u64,
    ) -> (r: ClusterRef)
        requires
            session_space_ref.index < old(self)@.len(),
        ensures
            final(self)@ == old(self)@.update(
                session_space_ref.index as int,
                SessionView {
                    session_id: old(self)@[session_space_ref.index as int].session_id,
                    chain: old(self)@[session_space_ref.index as int].chain.push(
                        ClusterProperties { base_final_id, base_local_id, capacity, count },
                    ),
                },
            ),
            r.session_space_ref == session_space_ref,
            r.cluster_chain_index == old(self)@[session_space_ref.index as int].chain.len(),
    {
        let session = &mut self.session_list[session_space_ref.index];
        let r = SessionSpace::add_cluster(
            session,
            session_space_ref,
            IdCluster::new(base_final_id, base_local_id, capacity, count),
        );
        proof {
            assert(self@ =~= old(self)@.update(
                session_space_ref.index as int,
                SessionView {
                    session_id: old(self)@[session_space_ref.index as int].session_id,
                    chain: old(self)@[session_space_ref.index as int].chain.push(
                        ClusterProperties { base_final_id, base_local_id, capacity, count },
                    ),
                },
            ));
        }
        r
    }

    /// Sets the finalized count of the cluster that `cluster_ref` denotes.
    pub fn set_cluster_count(&mut self, cluster_ref: ClusterRef, count: u64)
        requires
            valid_cluster_ref(old(self)@, cluster_ref),
        ensures
            final(self)@ == spec_update_cluster(
                old(self)@,
                cluster_ref,
                (ClusterProperties { count, ..cluster_at(old(self)@, cluster_ref) }),
            ),
    {
        let session = &mut self.session_list[cluster_ref.session_space_ref.index];
        SessionSpace::set_cluster_count(session, cluster_ref.cluster_chain_index, count);
        proof {
            assert(self@ =~= spec_update_cluster(
                old(self)@,
                cluster_ref,
                (ClusterProperties { count, ..cluster_at(old(self)@, cluster_ref) }),
            ));
        }
    }

    /// Sets the reserved capacity of the cluster that `cluster_ref` denotes.
    pub fn set_cluster_capacity(&mut self, cluster_ref: ClusterRef, capacity: u64)
        requires
            valid_cluster_ref(old(self)@, cluster_ref),
        ensures
            final(self)@ == spec_update_cluster(
                old(self)@,
                cluster_ref,
                (ClusterProperties { capacity, ..cluster_at(old(self)@, cluster_ref) }),
            ),
    {
        let session = &mut self.session_list[cluster_ref.session_space_ref.index];
        SessionSpace::set_cluster_capacity(session, cluster_ref.cluster_chain_index, capacity);
        proof {
            assert(self@ =~= spec_update_cluster(
                old(self)@,
                cluster_ref,
                (ClusterProperties { capacity, ..cluster_at(old(self)@, cluster_ref) }),
            ));
        }
    }

    /// Grows both the capacity and the count of the cluster that
    /// `cluster_ref` denotes.
    pub fn set_cluster_capacity_and_count(
        &mut self,
        cluster_ref: ClusterRef,
        capacity: u64,
        count: u64,
    )
        requires
            valid_cluster_ref(old(self)@, cluster_ref),
        ensures
            final(self)@ == spec_update_cluster(
                old(self)@,
                cluster_ref,
                (ClusterProperties { capacity, count, ..cluster_at(old(self)@, cluster_ref) }),
            ),
    {
        let session = &mut self.session_list[cluster_ref.session_space_ref.index];
        SessionSpace::set_cluster_capacity(session, cluster_ref.cluster_chain_index, capacity);
        SessionSpace::set_cluster_count(session, cluster_ref.cluster_chain_index, count);
        proof {
            let i = cluster_ref.session_space_ref.index as int;
            let k = cluster_ref.cluster_chain_index as int;
            assert(self@[i].chain =~= old(self)@[i].chain.update(
                k,
                (ClusterProperties { capacity, count, ..cluster_at(old(self)@, cluster_ref) }),
            ));
            assert(self@ =~= spec_update_cluster(
                old(self)@,
                cluster_ref,
                (ClusterProperties { capacity, count, ..cluster_at(old(self)@, cluster_ref) }),
            ));
        }
    }

    /// The index of the session with the greatest identity at or below
    /// `query`, if any.
    #[verifier::loop_isolation(false)]
    fn session_floor_index(&self, query: &crate::id_types::StableId) -> (r: Option<usize>)
        ensures
            match r {
                Some(b) => is_session_floor(self@, query@, b as int),
                None => forall|j: int|
                    0 <= j < self@.len() ==> (#[trigger] self@[j]).session_id > query@,
            },
    {
        let mut best: Option<usize> = None;
        let mut i: usize = 0;
        while i < self.session_list.len()
            invariant
                0 <= i <= self@.len(),
                match best {
                    Some(b) => {
                        &&& b < self@.len()
                        &&& self@[b as int].session_id <= query@
                        &&& forall|j: int|
                            0 <= j < i && (#[trigger] self@[j]).session_id <= query@
                                ==> self@[j].session_id <= self@[b as int].session_id
                    },
                    None => forall|j: int| 0 <= j < i ==> (#[trigger] self@[j]).session_id > query@,
                },
            decreases self@.len() - i,
        {
            let sid = self.session_list[i].session_id().stable_id();
            if !query.lt(&sid) {
                match best {
                    None => {
                        best = Some(i);
                    },
                    Some(b) => {
                        if self.session_list[b].session_id().stable_id().lt(&sid) {
                            best = Some(i);
                        }
                    },
                }
            }
            i = i + 1;
        }
        best
    }

    /// The cluster whose owning session's allocated stable span includes
    /// `query`, with the owner's token and the local of the owner aligned
    /// with `query`.
    #[verifier::rlimit(100)]
    #[verifier::spinoff_prover]
    pub fn get_containing_cluster(&self, query: &crate::id_types::StableId) -> (r: Option<
        (ClusterProperties, SessionSpaceRef, LocalId),
    >)
        requires
            sessions_wf(self@),
        ensures
            match r {
                Some((c, sref, loc)) => {
                    &&& is_session_floor(self@, query@, sref.index as int)
                    &&& loc@ == -(query@ - self@[sref.index as int].session_id) - 1
                    &&& exists|k: int|
                        0 <= k < self@[sref.index as int].chain.len()
                            && self@[sref.index as int].chain[k] == c && chain_covers(
                            self@[sref.index as int].chain,
                            k,
                            loc@,
                            true,
                        )
                },
                None => forall|i: int|
                    #[trigger] is_session_floor(self@, query@, i) ==> !exists|k: int|
                        #[trigger] chain_covers(
                            self@[i].chain,
                            k,
                            -(query@ - self@[i].session_id) - 1,
                            true,
                        ),
            },
    {
        let b = match self.session_floor_index(query) {
            None => {
                return None;
            },
            Some(b) => b,
        };
        let session = &self.session_list[b];
        let ghost sv = self@[b as int];
        proof {
            assert(session@ == sv);
            assert(session_wf(sv));
        }
        let max_allocated = session.max_allocated_stable();
        if query.lt(&max_allocated) || query.eq_value(&max_allocated) {
            let delta: u128 = query.distance_from(&session.session_id().stable_id());
            proof {
                if sv.chain.len() > 0 {
                    assert(session_max_allocated_stable(sv) == sv.session_id + caps_sum(sv.chain)
                        - 1);
                }
            }
            let aligned_local = LocalId::from_generation_count((delta as u64) + 1);
            match session.get_cluster_by_local(aligned_local, true) {
                Some(cluster_match) => Some(
                    (cluster_match, SessionSpaceRef { index: b }, aligned_local),
                ),
                None => {
                    proof {
                        lemma_session_floor_unique(self@, query@, b as int);
                    }
                    None
                },
            }
        } else {
            proof {
                lemma_session_floor_unique(self@, query@, b as int);
                assert forall|i2: int| #[trigger] is_session_floor(self@, query@, i2) implies !exists|
                    k: int,
                |
                    #[trigger] chain_covers(
                        self@[i2].chain,
                        k,
                        -(query@ - self@[i2].session_id) - 1,
                        true,
                    ) by {
                    assert(i2 == b as int);
                    if exists|k: int|
                        #[trigger] chain_covers(
                            self@[i2].chain,
                            k,
                            -(query@ - self@[i2].session_id) - 1,
                            true,
                        ) {
                        let k = choose|k: int|
                            #[trigger] chain_covers(
                                self@[i2].chain,
                                k,
                                -(query@ - self@[i2].session_id) - 1,
                                true,
                            );
                        lemma_cover_within_alloc(self@[i2], k, -(query@ - self@[i2].session_id) - 1);
                    }
                }
            }
            None
        }
    }

    /// Whether a foreign session's reserved stable span reaches into the
    /// range `[range_base, range_max]`: the floor session of `range_max` is
    /// checked, as the only candidate.
    pub fn range_collides(
        &self,
        originator: SessionId,
        range_base: &crate::id_types::StableId,
        range_max: &crate::id_types::StableId,
    ) -> (r: bool)
        requires
            sessions_wf(self@),
        ensures
            r == (exists|i: int|
                #[trigger] is_session_floor(self@, range_max@, i) && self@[i].session_id
                    != originator@ && range_base@ <= session_max_allocated_stable(self@[i])),
    {
        let b = match self.session_floor_index(range_max) {
            None => {
                return false;
            },
            Some(b) => b,
        };
        let session = &self.session_list[b];
        let ghost sv = self@[b as int];
        proof {
            assert(session@ == sv);
            assert(session_wf(sv));
            lemma_session_floor_unique(self@, range_max@, b as int);
        }
        if session.session_id().stable_id().eq_value(&originator.stable_id()) {
            return false;
        }
        let max_allocated = session.max_allocated_stable();
        range_base.lt(&max_allocated) || range_base.eq_value(&max_allocated)
    }

    /// Whether the two containers agree on finalized state: sessions with
    /// non-empty chains match pairwise by identity and chain.
    pub fn equals_test_only(&self, other: &Sessions) -> (r: bool)
        requires
            sessions_wf(self@),
            sessions_wf(other@),
        ensures
            r == sessions_equal_finalized(self@, other@),
    {
        if !self.half_equals(other) {
            return false;
        }
        if !other.half_equals(self) {
            return false;
        }
        true
    }

    /// Whether every session with a non-empty chain here has a counterpart
    /// in `other` with the same identity and chain.
    #[verifier::loop_isolation(false)]
    fn half_equals(&self, other: &Sessions) -> (r: bool)
        ensures
            r == (forall|i: int|
                0 <= i < self@.len() && (#[trigger] self@[i]).chain.len() > 0 ==> exists|j: int|
                    0 <= j < other@.len() && (#[trigger] other@[j]).session_id
                        == self@[i].session_id && other@[j].chain == self@[i].chain),
    {
        let mut i: usize = 0;
        while i < self.session_list.len()
            invariant
                0 <= i <= self@.len(),
                forall|i2: int|
                    0 <= i2 < i && (#[trigger] self@[i2]).chain.len() > 0 ==> exists|j: int|
                        0 <= j < other@.len() && (#[trigger] other@[j]).session_id
                            == self@[i2].session_id && other@[j].chain == self@[i2].chain,
            decreases self@.len() - i,
        {
            let session = &self.session_list[i];
            if session.cluster_count() > 0 {
                let mut found = false;
                let mut j: usize = 0;
                while j < other.session_list.len()
                    invariant
                        0 <= j <= other@.len(),
                        i < self@.len(),
                        found ==> exists|j2: int|
                            0 <= j2 < other@.len() && (#[trigger] other@[j2]).session_id
                                == self@[i as int].session_id && other@[j2].chain == self@[
                                i as int].chain,
                        !found ==> forall|j2: int|
                            0 <= j2 < j ==> !((#[trigger] other@[j2]).session_id == self@[
                            i as int].session_id && other@[j2].chain == self@[i as int].chain),
                    decreases other@.len() - j,
                {
                    let candidate = &other.session_list[j];
                    proof {
                        assert(candidate@ == other@[j as int]);
                        assert(session@ == self@[i as int]);
                    }
                    let ids_equal = candidate.session_id().stable_id().eq_value(
                        &session.session_id().stable_id(),
                    );
                    let chains_match = if ids_equal {
                        Sessions::chains_equal(session, candidate)
                    } else {
                        false
                    };
                    if ids_equal && chains_match {
                        found = true;
                        proof {
                            assert(other@[j as int].session_id == self@[i as int].session_id
                                && other@[j as int].chain == self@[i as int].chain);
                        }
                    } else {
                        proof {
                            assert(!(other@[j as int].session_id == self@[i as int].session_id
                                && other@[j as int].chain == self@[i as int].chain));
                        }
                    }
                    j = j + 1;
                }
                if !found {
                    proof {
                        assert(self@[i as int].chain.len() > 0);
                        assert(!exists|j2: int|
                            0 <= j2 < other@.len() && (#[trigger] other@[j2]).session_id == self@[
                            i as int].session_id && other@[j2].chain == self@[i as int].chain);
                    }
                    return false;
                }
            }
            i = i + 1;
        }
        true
    }

    /// Whether two sessions hold identical chains.
    #[verifier::loop_isolation(false)]
    fn chains_equal(a: &SessionSpace, b: &SessionSpace) -> (r: bool)
        ensures
            r == (a@.chain == b@.chain),
    {
        if a.cluster_count() != b.cluster_count() {
            proof {
                assert(a@.chain.len() != b@.chain.len());
            }
            return false;
        }
        let mut k: usize = 0;
        while k < a.cluster_count()
            invariant
                a@.chain.len() == b@.chain.len(),
                0 <= k <= a@.chain.len(),
                forall|k2: int| 0 <= k2 < k ==> a@.chain[k2] == b@.chain[k2],
            decreases a@.chain.len() - k,
        {
            let ca = a.cluster_at_index(k);
            let cb = b.cluster_at_index(k);
            if !(ca == cb) {
                return false;
            }
            k = k + 1;
        }
        proof {
            assert(a@.chain =~= b@.chain);
        }
        true
    }
}

/// The container with one cluster's data replaced.
pub open spec fn spec_update_cluster(
    v: Seq<SessionView>,
    r: ClusterRef,
    c: ClusterProperties,
) -> Seq<SessionView> {
    v.update(
        r.session_space_ref.index as int,
        SessionView {
            session_id: v[r.session_space_ref.index as int].session_id,
            chain: v[r.session_space_ref.index as int].chain.update(
                r.cluster_chain_index as int,
                c,
            ),
        },
    )
}

/// A cluster that covers the local aligned with a query keeps the query
/// within the session's reserved stable span.
pub proof fn lemma_cover_within_alloc(s: SessionView, k: int, local: int)
    requires
        session_wf(s),
        chain_covers(s.chain, k, local, true),
    ensures
        s.session_id - local - 1 <= session_max_allocated_stable(s),
{
    assert(cluster_bounded(s.chain[k]));
    assert forall|ii: int| 0 <= ii < s.chain.len() implies (#[trigger] s.chain[ii]).capacity
        >= 0 by {
        assert(cluster_bounded(s.chain[ii]));
    }
    lemma_caps_sum_take(s.chain, k);
    lemma_caps_sum_take_le(s.chain, k + 1);
}

/// Under distinct identities the floor session of a query is unique.
pub proof fn lemma_session_floor_unique(v: Seq<SessionView>, q: int, b: int)
    requires
        sessions_distinct(v),
        is_session_floor(v, q, b),
    ensures
        forall|i: int| #[trigger] is_session_floor(v, q, i) ==> i == b,
{
    assert forall|i: int| #[trigger] is_session_floor(v, q, i) implies i == b by {
        assert(v[i].session_id <= v[b].session_id);
        assert(v[b].session_id <= v[i].session_id);
    }
}

} // verus!
