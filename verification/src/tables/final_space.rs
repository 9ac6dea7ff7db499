use crate::id_types::FinalId;
use crate::tables::id_cluster::cluster_bounded;
use crate::tables::session_space::cluster_at;
use crate::tables::session_space::valid_cluster_ref;
use crate::tables::session_space::ClusterRef;
use crate::tables::session_space::SessionView;
use crate::tables::session_space::Sessions;
use vstd::prelude::*;

verus! {

/// Every reference in the list denotes an existing, bounded cluster.
pub open spec fn fs_valid(sessions: Seq<SessionView>, fs: Seq<ClusterRef>) -> bool {
    forall|p: int|
        0 <= p < fs.len() ==> valid_cluster_ref(sessions, #[trigger] fs[p]) && cluster_bounded(
            cluster_at(sessions, fs[p]),
        )
}

/// Consecutive clusters hold disjoint, ascending final runs.
pub open spec fn fs_finals_ascending(sessions: Seq<SessionView>, fs: Seq<ClusterRef>) -> bool {
    forall|p: int|
        0 <= p < fs.len() - 1 ==> cluster_at(sessions, #[trigger] fs[p]).base_final_id@
            + cluster_at(sessions, fs[p]).capacity <= cluster_at(
            sessions,
            fs[p + 1],
        ).base_final_id@
}

/// Whether the cluster at position `p` has `f` within its reserved final
/// run.
pub open spec fn fs_covers(
    sessions: Seq<SessionView>,
    fs: Seq<ClusterRef>,
    p: int,
    f: int,
) -> bool {
    &&& 0 <= p < fs.len()
    &&& cluster_at(sessions, fs[p]).base_final_id@ <= f < cluster_at(
        sessions,
        fs[p],
    ).base_final_id@ + cluster_at(sessions, fs[p]).capacity
}

/// In an ascending list, a later cluster's run starts at or after the end
/// of an earlier cluster's run.
pub proof fn lemma_fs_finals_between(
    sessions: Seq<SessionView>,
    fs: Seq<ClusterRef>,
    p: int,
    q: int,
)
    requires
        fs_valid(sessions, fs),
        fs_finals_ascending(sessions, fs),
        0 <= p < q < fs.len(),
    ensures
        cluster_at(sessions, fs[p]).base_final_id@ + cluster_at(sessions, fs[p]).capacity
            <= cluster_at(sessions, fs[q]).base_final_id@,
    decreases q - p,
{
    assert(cluster_bounded(cluster_at(sessions, fs[p])));
    if p + 1 < q {
        lemma_fs_finals_between(sessions, fs, p + 1, q);
        assert(cluster_bounded(cluster_at(sessions, fs[p + 1])));
    }
}

/// The global order of clusters from all sessions, ascending in base final
/// ID; binary-searchable.
#[derive(Debug)]
pub struct FinalSpace {
    clusters: Vec<ClusterRef>,
}

impl FinalSpace {
    /// The cluster references, in ascending final order.
    pub closed spec fn view(&self) -> Seq<ClusterRef> {
        self.clusters@
    }

    /// An empty final space.
    pub fn new() -> (r: FinalSpace)
        ensures
            r@ =~= Seq::<ClusterRef>::empty(),
    {
        FinalSpace { clusters: Vec::new() }
    }

    /// How many clusters have been registered.
    pub fn cluster_count(&self) -> (r: usize)
        ensures
            r == self@.len(),
    {
        self.clusters.len()
    }

    /// The cluster reference at `index` in final order.
    pub fn get_cluster_ref(&self, index: usize) -> (r: ClusterRef)
        requires
            index < self@.len(),
        ensures
            r == self@[index as int],
    {
        self.clusters[index]
    }

    /// Registers a newly created cluster at the top of the final order.
    pub fn add_cluster(&mut self, new_cluster_ref: ClusterRef, _sessions: &Sessions)
        ensures
            final(self)@ == old(self)@.push(new_cluster_ref),
    {
        self.clusters.push(new_cluster_ref);
    }

    /// Whether `cluster_ref` is the most recently registered cluster.
    pub fn is_last(&self, cluster_ref: ClusterRef) -> (r: bool)
        requires
            self@.len() > 0,
        ensures
            r == (cluster_ref == self@.last()),
    {
        let last = self.clusters[self.clusters.len() - 1];
        cluster_ref.session_space_ref.index == last.session_space_ref.index
            && cluster_ref.cluster_chain_index == last.cluster_chain_index
    }

    /// The most recently registered cluster, if any.
    pub fn get_tail_cluster(&self) -> (r: Option<ClusterRef>)
        ensures
            match r {
                Some(c) => self@.len() > 0 && c == self@.last(),
                None => self@.len() == 0,
            },
    {
        if self.clusters.len() == 0 {
            return None;
        }
        Some(self.clusters[self.clusters.len() - 1])
    }

    /// The cluster whose reserved final run could include `target_final`,
    /// found by binary search; the final may still exceed the cluster's
    /// finalized count.
    pub fn search(&self, target_final: FinalId, sessions: &Sessions) -> (r: Option<ClusterRef>)
        requires
            fs_valid(sessions@, self@),
            fs_finals_ascending(sessions@, self@),
        ensures
            match r {
                Some(c) => exists|p: int|
                    #[trigger] fs_covers(sessions@, self@, p, target_final@) && self@[p] == c,
                None => forall|p: int| !#[trigger] fs_covers(sessions@, self@, p, target_final@),
            },
    {
        let ghost fs = self@;
        let mut lo: usize = 0;
        let mut hi: usize = self.clusters.len();
        while lo < hi
            invariant
                0 <= lo <= hi <= fs.len(),
                fs == self@,
                fs_valid(sessions@, fs),
                fs_finals_ascending(sessions@, fs),
                forall|p: int|
                    0 <= p < fs.len() && !(lo <= p < hi) ==> !#[trigger] fs_covers(
                        sessions@,
                        fs,
                        p,
                        target_final@,
                    ),
            decreases hi - lo,
        {
            let mid: usize = lo + (hi - lo) / 2;
            let current = sessions.deref_cluster(self.clusters[mid]);
            proof {
                assert(cluster_bounded(cluster_at(sessions@, fs[mid as int])));
            }
            let cluster_max_final: u64 = current.base_final_id.id() + (current.capacity - 1);
            if cluster_max_final < target_final.id() {
                proof {
                    assert forall|p: int| lo <= p <= mid implies !fs_covers(
                        sessions@,
                        fs,
                        p,
                        target_final@,
                    ) by {
                        if p < mid {
                            lemma_fs_finals_between(sessions@, fs, p, mid as int);
                        }
                    }
                }
                lo = mid + 1;
            } else if current.base_final_id.id() > target_final.id() {
                proof {
                    assert forall|p: int| mid <= p < hi implies !fs_covers(
                        sessions@,
                        fs,
                        p,
                        target_final@,
                    ) by {
                        if p > mid {
                            lemma_fs_finals_between(sessions@, fs, mid as int, p);
                        }
                    }
                }
                hi = mid;
            } else {
                proof {
                    assert(fs_covers(sessions@, fs, mid as int, target_final@));
                }
                return Some(self.clusters[mid]);
            }
        }
        None
    }

    /// Whether the two final spaces list the same clusters in the same
    /// order, comparing each cluster by its owner's identity and its chain
    /// position.
    pub fn equals_test_only(
        &self,
        other: &FinalSpace,
        sessions_self: &Sessions,
        sessions_other: &Sessions,
    ) -> (r: bool)
        requires
            forall|p: int|
                0 <= p < self@.len() ==> (#[trigger] self@[p]).session_space_ref.index
                    < sessions_self@.len(),
            forall|p: int|
                0 <= p < other@.len() ==> (#[trigger] other@[p]).session_space_ref.index
                    < sessions_other@.len(),
        ensures
            r == fs_equal(sessions_self@, self@, sessions_other@, other@),
    {
        if self.clusters.len() != other.clusters.len() {
            return false;
        }
        let mut p: usize = 0;
        while p < self.clusters.len()
            invariant
                self@.len() == other@.len(),
                0 <= p <= self@.len(),
                forall|q: int|
                    0 <= q < self@.len() ==> (#[trigger] self@[q]).session_space_ref.index
                        < sessions_self@.len(),
                forall|q: int|
                    0 <= q < other@.len() ==> (#[trigger] other@[q]).session_space_ref.index
                        < sessions_other@.len(),
                forall|q: int|
                    0 <= q < p ==> cluster_ref_equal(
                        sessions_self@,
                        #[trigger] self@[q],
                        sessions_other@,
                        other@[q],
                    ),
            decreases self@.len() - p,
        {
            let a = self.clusters[p];
            let b = other.clusters[p];
            let sid_a = sessions_self.deref_session_space(a.session_space_ref).session_id();
            let sid_b = sessions_other.deref_session_space(b.session_space_ref).session_id();
            if !(sid_a.stable_id().eq_value(&sid_b.stable_id())
                && a.cluster_chain_index == b.cluster_chain_index) {
                return false;
            }
            p = p + 1;
        }
        true
    }
}

/// Two references stand for the same cluster position when their owners
/// share an identity and the chain positions agree.
pub open spec fn cluster_ref_equal(
    sa: Seq<SessionView>,
    a: ClusterRef,
    sb: Seq<SessionView>,
    b: ClusterRef,
) -> bool {
    &&& sa[a.session_space_ref.index as int].session_id == sb[b.session_space_ref.index
        as int].session_id
    &&& a.cluster_chain_index == b.cluster_chain_index
}

/// Two final spaces agree when they list equal cluster positions in the
/// same order.
pub open spec fn fs_equal(
    sa: Seq<SessionView>,
    a: Seq<ClusterRef>,
    sb: Seq<SessionView>,
    b: Seq<ClusterRef>,
) -> bool {
    &&& a.len() == b.len()
    &&& forall|p: int| 0 <= p < a.len() ==> cluster_ref_equal(sa, #[trigger] a[p], sb, b[p])
}

} // verus!
