use crate::errors::ClusterCapacityError;
use crate::errors::DecompressionError;
use crate::errors::DeserializationError;
use crate::errors::FinalizationError;
use crate::errors::NormalizationError;
use crate::errors::RecompressionError;
use crate::id_types::CompressedId;
use crate::id_types::FinalId;
use crate::id_types::LocalId;
use crate::id_types::OpSpaceId;
use crate::id_types::SessionId;
use crate::id_types::SessionSpaceId;
use crate::id_types::StableId;
use crate::tables::final_space::fs_covers;
use crate::tables::final_space::fs_equal;
use crate::tables::final_space::fs_finals_ascending;
use crate::tables::final_space::fs_valid;
use crate::tables::final_space::FinalSpace;
use crate::tables::id_cluster::cluster_bounded;
use crate::tables::id_cluster::ClusterProperties;
use crate::tables::session_space::caps_sum;
use crate::tables::session_space::chain_bounded;
use crate::tables::session_space::chain_covers;
use crate::tables::session_space::chain_covers_final;
use crate::tables::session_space::cluster_at;
use crate::tables::session_space::has_session;
use crate::tables::session_space::lemma_caps_sum_take;
use crate::tables::session_space::lemma_caps_sum_take_le;
use crate::tables::session_space::session_wf;
use crate::tables::session_space::sessions_distinct;
use crate::tables::session_space::sessions_equal_finalized;
use crate::tables::session_space::sessions_wf;
use crate::tables::session_space::spec_chain_convert;
use crate::tables::session_space::valid_cluster_ref;
use crate::tables::session_space::ClusterRef;
use crate::tables::session_space::SessionSpaceRef;
use crate::tables::session_space::SessionView;
use crate::tables::session_space::Sessions;
use crate::tables::session_space_normalizer::runs_contain;
use crate::tables::session_space_normalizer::runs_wf;
use crate::tables::session_space_normalizer::SessionSpaceNormalizer;
use crate::tables::uuid_space::cluster_base_stable;
use crate::tables::uuid_space::is_us_floor;
use crate::tables::uuid_space::us_equal;
use crate::tables::uuid_space::us_wf;
use crate::tables::uuid_space::UuidSpace;
use crate::persistence_utils::le_bytes_to_nat;
use crate::persistence_utils::nat_to_le_bytes;
use crate::persistence_utils::Deserializer;
use crate::tables::session_space_normalizer::deserialize_normalizer;
use crate::tables::session_space_normalizer::spec_parse_normalizer;
use crate::persistence_utils::write_u128_to_vec;
use crate::persistence_utils::write_u64_to_vec;
use crate::tables::session_space_normalizer::serialize_normalizer;
use crate::tables::session_space_normalizer::spec_serialized_normalizer;
use vstd::prelude::*;

verus! {

broadcast use crate::id_types::SessionId::lemma_view_bounds, crate::id_types::StableId::lemma_view_bounds, crate::id_types::FinalId::lemma_view_bounds, crate::id_types::SessionSpaceId::lemma_view_bounds, crate::id_types::OpSpaceId::lemma_view_bounds;


/// A descriptor of the IDs generated between two `take_next_range` calls:
/// the originating session and, unless empty, the first generation count
/// and the number of IDs.
pub struct IdRange {
    /// The originating session.
    pub id: SessionId,
    /// The first ID's generation count and the count of IDs, or `None` for
    /// an empty range.
    pub range: Option<(u64, u64)>,
}

/// Counters of allocation events since they were last read.
#[derive(Debug, Clone, Copy, PartialEq, Eq, Structural)]
pub struct TelemetryStats {
    /// IDs handed out as eager finals.
    pub eager_final_count: u64,
    /// IDs handed out as locals.
    pub local_id_count: u64,
    /// Tail clusters grown in place.
    pub expansion_count: u64,
    /// Clusters newly created.
    pub cluster_creation_count: u64,
}

/// The sum of the capacities of the clusters that `fs` lists, in order.
pub open spec fn fs_caps_sum(sessions: Seq<SessionView>, fs: Seq<ClusterRef>) -> int
    decreases fs.len(),
{
    if fs.len() == 0 {
        0
    } else {
        fs_caps_sum(sessions, fs.drop_last()) + cluster_at(sessions, fs.last()).capacity
    }
}

/// Taking one more cluster adds its capacity to the sum.
pub proof fn lemma_fs_caps_sum_take(sessions: Seq<SessionView>, fs: Seq<ClusterRef>, p: int)
    requires
        0 <= p < fs.len(),
    ensures
        fs_caps_sum(sessions, fs.take(p + 1)) == fs_caps_sum(sessions, fs.take(p)) + cluster_at(
            sessions,
            fs[p],
        ).capacity,
{
    let taken = fs.take(p + 1);
    assert(taken.drop_last() =~= fs.take(p));
    assert(taken.last() == fs[p]);
}

/// The distributed compressed-identifier allocator: issues IDs, batches
/// ranges, finalizes ranges, performs the three-space normalizations, and
/// serializes itself.
#[derive(Debug)]
pub struct IdCompressor {
    session_id: SessionId,
    local_session: SessionSpaceRef,
    generated_id_count: u64,
    next_range_base_generation_count: u64,
    sessions: Sessions,
    final_space: FinalSpace,
    final_id_limit: FinalId,
    uuid_space: UuidSpace,
    session_space_normalizer: SessionSpaceNormalizer,
    cluster_capacity: u64,
    telemetry_stats: TelemetryStats,
}

impl IdCompressor {
    /// The registered sessions, in registration order.
    pub closed spec fn sessions_view(&self) -> Seq<SessionView> {
        self.sessions@
    }

    /// The global cluster order by base final ID.
    pub closed spec fn fs_view(&self) -> Seq<ClusterRef> {
        self.final_space@
    }

    /// The ordered map from base stable IDs to clusters.
    pub closed spec fn us_view(&self) -> Seq<(int, ClusterRef)> {
        self.uuid_space@
    }

    /// The runs of locals handed out as locals.
    pub closed spec fn norm_view(&self) -> Seq<(int, int)> {
        self.session_space_normalizer@
    }

    /// The local session's identity, in compressed form.
    pub closed spec fn session_id_view(&self) -> int {
        self.session_id@
    }

    /// How many IDs the local session has generated.
    pub closed spec fn generated_count(&self) -> int {
        self.generated_id_count as int
    }

    /// The generation count that the next taken range will start at.
    pub closed spec fn next_range_base_gen(&self) -> int {
        self.next_range_base_generation_count as int
    }

    /// The capacity used for subsequent cluster creations or expansions.
    pub closed spec fn capacity_view(&self) -> int {
        self.cluster_capacity as int
    }

    /// The cached first final ID that no cluster has finalized.
    pub closed spec fn limit_view(&self) -> int {
        self.final_id_limit@
    }

    /// The token index of the local session.
    pub closed spec fn local_session_index(&self) -> int {
        self.local_session.index as int
    }

    /// The local session's chain.
    pub open spec fn local_chain(&self) -> Seq<ClusterProperties> {
        self.sessions_view()[0].chain
    }

    /// The first final ID that no cluster has reserved.
    pub open spec fn total_allocated(&self) -> int {
        fs_caps_sum(self.sessions_view(), self.fs_view())
    }

    /// The compressor's invariant: the cluster invariants of the data model
    /// hold across all four tables after every public operation.
    pub open spec fn wf(&self) -> bool {
        let v = self.sessions_view();
        &&& sessions_wf(v)
        &&& tables_wf(self.sessions_view(), self.fs_view(), self.us_view(), self.limit_view())
        &&& 1 <= v.len() <= i64::MAX
        &&& self.local_session_index() == 0
        &&& v[0].session_id == self.session_id_view()
        &&& 0 <= self.session_id_view() < 0x04000000000000000000000000000000
        &&& 0 <= self.generated_count() <= i64::MAX
        &&& 1 <= self.next_range_base_gen() <= self.generated_count() + 1
        &&& 1 <= self.capacity_view()
        &&& norm_ok(self.norm_view(), self.generated_count())
        &&& finals_bounded(v)
    }

    /// The default capacity used for new clusters.
    pub fn get_default_cluster_capacity() -> (r: u64)
        ensures
            r == 512,
    {
        512
    }

    /// Creates an empty compressor whose local session carries the supplied
    /// identity.
    pub fn new_with_session_id(session_id: SessionId) -> (r: IdCompressor)
        requires
            session_id@ < 0x04000000000000000000000000000000,
        ensures
            r.wf(),
            r.session_id_view() == session_id@,
            r.generated_count() == 0,
            r.next_range_base_gen() == 1,
            r.capacity_view() == 512,
            r.sessions_view() =~= seq![
                SessionView { session_id: session_id@, chain: Seq::empty() },
            ],
            r.fs_view() =~= Seq::<ClusterRef>::empty(),
            r.us_view() =~= Seq::<(int, ClusterRef)>::empty(),
            r.norm_view() =~= Seq::<(int, int)>::empty(),
            r.limit_view() == 0,
    {
        let mut sessions = Sessions::new();
        let local_session = sessions.get_or_create(session_id);
        let r = IdCompressor {
            session_id,
            local_session,
            generated_id_count: 0,
            next_range_base_generation_count: 1,
            sessions,
            final_space: FinalSpace::new(),
            final_id_limit: FinalId::from_id(0),
            uuid_space: UuidSpace::new(),
            session_space_normalizer: SessionSpaceNormalizer::new(),
            cluster_capacity: 512,
            telemetry_stats: TelemetryStats {
                eager_final_count: 0,
                local_id_count: 0,
                expansion_count: 0,
                cluster_creation_count: 0,
            },
        };
        proof {
            reveal(tables_wf);
            reveal(norm_ok);
        }
        r
    }

    /// Creates an empty compressor under a freshly drawn random session
    /// identity.
    pub fn new() -> (r: IdCompressor)
        ensures
            r.wf(),
            r.generated_count() == 0,
            r.next_range_base_gen() == 1,
            r.capacity_view() == 512,
            r.sessions_view() =~= seq![
                SessionView { session_id: r.session_id_view(), chain: Seq::empty() },
            ],
            r.fs_view() =~= Seq::<ClusterRef>::empty(),
            r.us_view() =~= Seq::<(int, ClusterRef)>::empty(),
            r.norm_view() =~= Seq::<(int, int)>::empty(),
            r.limit_view() == 0,
    {
        IdCompressor::new_with_session_id(SessionId::new())
    }

    /// The local session's identity.
    pub fn get_local_session_id(&self) -> (r: SessionId)
        ensures
            r@ == self.session_id_view(),
    {
        self.session_id
    }

    /// The capacity used for subsequent cluster creations or expansions.
    pub fn get_cluster_capacity(&self) -> (r: u64)
        ensures
            r == self.capacity_view(),
    {
        self.cluster_capacity
    }

    /// Sets the capacity used for subsequent cluster creations or
    /// expansions; zero is rejected and changes nothing.
    pub fn set_cluster_capacity(&mut self, new_cluster_capacity: u64) -> (r: Result<
        (),
        ClusterCapacityError,
    >)
        requires
            old(self).wf(),
        ensures
            final(self).wf(),
            if new_cluster_capacity < 1 {
                &&& r == Err::<(), ClusterCapacityError>(
                    ClusterCapacityError::InvalidClusterCapacity,
                )
                &&& *final(self) == *old(self)
            } else {
                &&& r == Ok::<(), ClusterCapacityError>(())
                &&& final(self).capacity_view() == new_cluster_capacity
                &&& unchanged_but_capacity(old(self), final(self))
            },
    {
        if new_cluster_capacity < 1 {
            Err(ClusterCapacityError::InvalidClusterCapacity)
        } else {
            self.cluster_capacity = new_cluster_capacity;
            Ok(())
        }
    }

    /// The counters of allocation events since they were last read; reading
    /// resets them.
    pub fn get_telemetry_stats(&mut self) -> (r: TelemetryStats)
        requires
            old(self).wf(),
        ensures
            final(self).wf(),
            unchanged_core(old(self), final(self)),
    {
        let stats = self.telemetry_stats;
        self.telemetry_stats = TelemetryStats {
            eager_final_count: 0,
            local_id_count: 0,
            expansion_count: 0,
            cluster_creation_count: 0,
        };
        stats
    }


    /// Issues the next ID: an eager final when the local tail cluster still
    /// has reserved capacity for this generation count, else a fresh local
    /// recorded in the normalizer.
    pub fn generate_next_id(&mut self) -> (r: SessionSpaceId)
        requires
            old(self).wf(),
            old(self).generated_count() < i64::MAX,
        ensures
            final(self).wf(),
            final(self).generated_count() == old(self).generated_count() + 1,
            final(self).session_id_view() == old(self).session_id_view(),
            final(self).sessions_view() == old(self).sessions_view(),
            final(self).fs_view() == old(self).fs_view(),
            final(self).us_view() == old(self).us_view(),
            final(self).limit_view() == old(self).limit_view(),
            final(self).capacity_view() == old(self).capacity_view(),
            final(self).next_range_base_gen() == old(self).next_range_base_gen(),
            match spec_eager_final(old(self).local_chain(), old(self).generated_count() + 1) {
                Some(f) => {
                    &&& r@ == f
                    &&& final(self).norm_view() == old(self).norm_view()
                },
                None => {
                    &&& r@ == -(old(self).generated_count() + 1)
                    &&& forall|x: int|
                        runs_contain(final(self).norm_view(), x) == (runs_contain(
                            old(self).norm_view(),
                            x,
                        ) || x == -(old(self).generated_count() + 1))
                },
            },
    {
        proof {
            reveal(norm_ok);
        }
        self.generated_id_count = self.generated_id_count + 1;
        let g = self.generated_id_count;
        let local_space = self.sessions.deref_session_space(self.local_session);
        let tail_count = local_space.cluster_count();
        if tail_count > 0 {
            let tail = local_space.cluster_at_index(tail_count - 1);
            proof {
                assert(session_wf(self.sessions_view()[0]));
                assert(cluster_bounded(self.local_chain()[tail_count - 1]));
            }
            let base_gen: u64 = tail.base_local_id.to_generation_count();
            if base_gen <= g {
                let cluster_offset: u64 = g - base_gen;
                if tail.capacity > cluster_offset {
                    // Space in the cluster: an eager final.
                    self.telemetry_stats.eager_final_count =
                        self.telemetry_stats.eager_final_count.wrapping_add(1);
                    proof {
                        assert(spec_eager_final(self.local_chain(), g as int) == Some(
                            tail.base_final_id@ + cluster_offset,
                        ));
                        assert(tail.base_final_id@ + cluster_offset < tail.base_final_id@
                            + tail.capacity <= u64::MAX);
                    }
                    let f = tail.base_final_id.offset_by(cluster_offset);
                    return SessionSpaceId::from_final(f);
                }
            }
        }
        // No reserved slot: a fresh local, recorded in the normalizer.
        self.telemetry_stats.local_id_count = self.telemetry_stats.local_id_count.wrapping_add(1);
        let new_local = LocalId::from_generation_count(g);
        self.session_space_normalizer.add_local_range(new_local, 1);
        SessionSpaceId::from_local(new_local)
    }

    /// Returns a descriptor of all IDs generated since the previous call,
    /// and advances the next range base past them.
    pub fn take_next_range(&mut self) -> (r: IdRange)
        requires
            old(self).wf(),
        ensures
            final(self).wf(),
            r.id@ == old(self).session_id_view(),
            final(self).session_id_view() == old(self).session_id_view(),
            final(self).sessions_view() == old(self).sessions_view(),
            final(self).fs_view() == old(self).fs_view(),
            final(self).us_view() == old(self).us_view(),
            final(self).norm_view() == old(self).norm_view(),
            final(self).limit_view() == old(self).limit_view(),
            final(self).capacity_view() == old(self).capacity_view(),
            final(self).generated_count() == old(self).generated_count(),
            if old(self).generated_count() == old(self).next_range_base_gen() - 1 {
                &&& r.range is None
                &&& final(self).next_range_base_gen() == old(self).next_range_base_gen()
            } else {
                &&& r.range == Some(
                    (
                        old(self).next_range_base_gen() as u64,
                        (old(self).generated_count() - old(self).next_range_base_gen() + 1) as u64,
                    ),
                )
                &&& final(self).next_range_base_gen() == old(self).generated_count() + 1
            },
    {
        let count: u64 = self.generated_id_count - (self.next_range_base_generation_count - 1);
        let range: Option<(u64, u64)> = if count == 0 {
            None
        } else {
            let next_range = Some((self.next_range_base_generation_count, count));
            self.next_range_base_generation_count = self.generated_id_count + 1;
            next_range
        };
        IdRange { id: self.session_id, range }
    }


    /// Recomputes the cached finalized limit from the last registered
    /// cluster.
    fn refresh_final_id_limit(&mut self)
        requires
            old(self).fs_view().len() > 0,
            valid_cluster_ref(old(self).sessions_view(), old(self).fs_view().last()),
            cluster_bounded(
                cluster_at(old(self).sessions_view(), old(self).fs_view().last()),
            ),
        ensures
            final(self).limit_view() == cluster_at(
                old(self).sessions_view(),
                old(self).fs_view().last(),
            ).base_final_id@ + cluster_at(old(self).sessions_view(), old(self).fs_view().last()).count,
            final(self).sessions_view() == old(self).sessions_view(),
            final(self).fs_view() == old(self).fs_view(),
            final(self).us_view() == old(self).us_view(),
            final(self).norm_view() == old(self).norm_view(),
            final(self).session_id_view() == old(self).session_id_view(),
            final(self).generated_count() == old(self).generated_count(),
            final(self).next_range_base_gen() == old(self).next_range_base_gen(),
            final(self).capacity_view() == old(self).capacity_view(),
            final(self).local_session_index() == old(self).local_session_index(),
    {
        let tail_ref = self.final_space.get_cluster_ref(self.final_space.cluster_count() - 1);
        proof {
            assert(tail_ref == self.fs_view().last());
        }
        let tail = self.sessions.deref_cluster(tail_ref);
        self.final_id_limit = tail.base_final_id.offset_by(tail.count);
    }

    /// Creates a cluster at the top of the final order for the session that
    /// `session_space_ref` denotes, and registers it in all three tables.
    #[verifier::rlimit(100)]
    #[verifier::spinoff_prover]
    fn create_cluster(
        &mut self,
        session_space_ref: SessionSpaceRef,
        session_id: SessionId,
        base_local: LocalId,
        capacity: u64,
        count: u64,
    ) -> (r: ClusterRef)
        requires
            old(self).wf(),
            session_space_ref.index < old(self).sessions_view().len(),
            old(self).sessions_view()[session_space_ref.index as int].session_id == session_id@,
            base_local@ == -1 - caps_sum(
                old(self).sessions_view()[session_space_ref.index as int].chain,
            ),
            1 <= count <= capacity,
            old(self).total_allocated() + capacity <= i64::MAX,
            1 + caps_sum(old(self).sessions_view()[session_space_ref.index as int].chain)
                + capacity <= i64::MAX,
            forall|p: int|
                0 <= p < old(self).us_view().len() ==> (#[trigger] old(self).us_view()[p]).0
                    != session_id@ + (-base_local@) - 1,
        ensures
            final(self).wf(),
            ({
                let i = session_space_ref.index as int;
                let v = old(self).sessions_view();
                let newc = final(self).sessions_view()[i].chain.last();
                &&& r == spec_cluster_ref(i, v[i].chain.len() as int)
                &&& newc.base_final_id@ == old(self).total_allocated()
                &&& newc.base_local_id@ == base_local@
                &&& newc.capacity == capacity
                &&& newc.count == count
                &&& final(self).sessions_view() == v.update(
                    i,
                    SessionView { session_id: v[i].session_id, chain: v[i].chain.push(newc) },
                )
                &&& final(self).fs_view() == old(self).fs_view().push(r)
                &&& exists|p: int|
                    0 <= p <= old(self).us_view().len() && final(self).us_view() == #[trigger] old(
                        self,
                    ).us_view().insert(p, (session_id@ + (-base_local@) - 1, r))
                &&& final(self).limit_view() == old(self).total_allocated() + count
                &&& final(self).total_allocated() == old(self).total_allocated() + capacity
            }),
            final(self).session_id_view() == old(self).session_id_view(),
            final(self).generated_count() == old(self).generated_count(),
            final(self).next_range_base_gen() == old(self).next_range_base_gen(),
            final(self).capacity_view() == old(self).capacity_view(),
            final(self).norm_view() == old(self).norm_view(),
    {
        let ghost v = self.sessions_view();
        let ghost fs = self.fs_view();
        let ghost us = self.us_view();
        let ghost old_limit = self.limit_view();
        let ghost i = session_space_ref.index as int;
        proof {
            lemma_total_is_tail_end(v, fs, us, old_limit);
            self.sessions.lemma_view_bounds();
        }
        // The next base final continues the top of the final order.
        let new_base_final: FinalId = match self.final_space.get_tail_cluster() {
            None => FinalId::from_id(0),
            Some(tail_ref) => {
                proof {
                    assert(cluster_bounded(cluster_at(v, fs.last())));
                }
                let tail = self.sessions.deref_cluster(tail_ref);
                tail.base_final_id.offset_by(tail.capacity)
            },
        };
        proof {
            assert(new_base_final@ == fs_caps_sum(v, fs));
        }
        let cref = self.sessions.append_cluster(
            session_space_ref,
            new_base_final,
            base_local,
            capacity,
            count,
        );
        let ghost newc = ClusterProperties {
            base_final_id: new_base_final,
            base_local_id: base_local,
            capacity,
            count,
        };
        let ghost v2 = self.sessions_view();
        self.final_space.add_cluster(cref, &self.sessions);
        self.uuid_space.add_cluster(session_id, cref, &self.sessions);
        self.final_id_limit = new_base_final.offset_by(count);
        proof {
            let fs2 = self.fs_view();
            let us2 = self.us_view();
            let limit2 = self.limit_view();
            let key = session_id@ + (-base_local@) - 1;
            assert(cluster_base_stable(v2, cref) == key);
            let ip = choose|p: int| 0 <= p <= us.len() && us2 == #[trigger] us.insert(p, (key, cref));
            assert(fs2 == fs.push(cref));
            lemma_register_cluster_wf(v, v2, fs, us, us2, ip, i, newc, cref, old_limit, limit2);
        }
        cref
    }


    /// Finalizes a range onto a session whose chain is empty: a fresh
    /// cluster of `capacity + count` reserved IDs.
    #[verifier::rlimit(100)]
    #[verifier::spinoff_prover]
    fn finalize_fresh_chain(
        &mut self,
        session_space_ref: SessionSpaceRef,
        session_id: SessionId,
        count: u64,
    ) -> (r: ClusterRef)
        requires
            old(self).wf(),
            session_space_ref.index < old(self).sessions_view().len(),
            old(self).sessions_view()[session_space_ref.index as int].session_id == session_id@,
            old(self).sessions_view()[session_space_ref.index as int].chain.len() == 0,
            1 <= count,
            1 + count + old(self).capacity_view() <= i64::MAX,
            old(self).total_allocated() + count + old(self).capacity_view() <= i64::MAX,
            forall|p: int|
                0 <= p < old(self).us_view().len() ==> (#[trigger] old(self).us_view()[p]).0
                    != session_id@,
        ensures
            final(self).wf(),
            IdCompressor::finalize_frame(old(self), final(self)),
            ({
                let i = session_space_ref.index as int;
                let v = old(self).sessions_view();
                let newc = final(self).sessions_view()[i].chain.last();
                &&& final(self).sessions_view().len() == v.len()
                &&& forall|j: int|
                    0 <= j < v.len() && j != i ==> final(self).sessions_view()[j] == #[trigger] v[j]
                &&& final(self).sessions_view()[i].session_id == session_id@
                &&& final(self).sessions_view()[i].chain.len() == 1
                &&& newc.base_final_id@ == old(self).total_allocated()
                &&& newc.base_local_id@ == -1
                &&& newc.capacity == old(self).capacity_view() + count
                &&& newc.count == count
                &&& final(self).fs_view() == old(self).fs_view().push(spec_cluster_ref(i, 0))
                &&& us_inserted(
                    old(self).us_view(),
                    final(self).us_view(),
                    session_id@,
                    spec_cluster_ref(i, 0),
                )
                &&& final(self).limit_view() == old(self).total_allocated() + count
            }),
    {
        let ghost v = self.sessions_view();
        let ghost fs = self.fs_view();
        let ghost us = self.us_view();
        let ghost limit = self.limit_view();
        let ghost sid = session_id@;
        let ghost i = session_space_ref.index as int;
        proof {
            assert(caps_sum(v[i].chain) == 0);
        }
        let base_local = LocalId::from_id(-1);
        let created = self.create_cluster(
            session_space_ref,
            session_id,
            base_local,
            self.cluster_capacity + count,
            count,
        );
        proof {
            let p1 = choose|p: int|
                0 <= p <= us.len() && self.us_view() == #[trigger] us.insert(
                    p,
                    (sid + (-base_local@) - 1, created),
                );
            assert(sid + (-base_local@) - 1 == sid);
            assert(created == spec_cluster_ref(i, 0));
            assert(us_inserted(us, self.us_view(), sid, spec_cluster_ref(i, 0)));
        }
        created
    }

    /// Finalizes a range that fits in the tail cluster's remaining
    /// capacity.
    #[verifier::rlimit(100)]
    #[verifier::spinoff_prover]
    fn finalize_fit(
        &mut self,
        session_space_ref: SessionSpaceRef,
        session_id: SessionId,
        count: u64,
    )
        requires
            old(self).wf(),
            session_space_ref.index < old(self).sessions_view().len(),
            old(self).sessions_view()[session_space_ref.index as int].session_id == session_id@,
            old(self).sessions_view()[session_space_ref.index as int].chain.len() >= 1,
            1 <= count,
            count <= old(self).sessions_view()[session_space_ref.index
                as int].chain.last().capacity - old(self).sessions_view()[session_space_ref.index
                as int].chain.last().count,
        ensures
            final(self).wf(),
            IdCompressor::finalize_frame(old(self), final(self)),
            IdCompressor::outcome_fit(old(self), final(self), session_id@, count as int),
    {
        let ghost v = self.sessions_view();
        let ghost fs = self.fs_view();
        let ghost us = self.us_view();
        let ghost limit = self.limit_view();
        let ghost i = session_space_ref.index as int;
        let session = self.sessions.deref_session_space(session_space_ref);
        let n = session.cluster_count();
        let tail = session.cluster_at_index(n - 1);
        proof {
            reveal(IdCompressor::outcome_fit);
            lemma_session_index_pin(v, session_id@, i);
            assert(session_wf(v[i]));
            assert(cluster_bounded(v[i].chain[n - 1]));
            self.sessions.lemma_view_bounds();
            lemma_chain_cluster_end_le_total(v, fs, us, limit, i, n - 1);
        }
        let cref = ClusterRef { session_space_ref, cluster_chain_index: n - 1 };
        let ghost c2 = ClusterProperties { count: (tail.count + count) as u64, ..tail };
        self.sessions.set_cluster_count(cref, tail.count + count);
        let ghost v2 = self.sessions_view();
        proof {
            lemma_last_cluster_facts(v, fs, us, limit);
            if fs.last() != spec_cluster_ref(i, n - 1) {
                lemma_last_cluster_preserved(v, v2, fs, us, limit, i, n - 1, c2);
            } else {
                assert(cluster_at(v2, fs.last()) == c2);
            }
        }
        self.refresh_final_id_limit();
        proof {
            lemma_update_cluster_wf(v, v2, fs, us, i, n - 1, c2, limit, self.limit_view());
        }
    }

    /// Finalizes an overflowing range while the tail cluster closes the
    /// final order: the cluster grows in place.
    #[verifier::rlimit(100)]
    #[verifier::spinoff_prover]
    fn finalize_expand(
        &mut self,
        session_space_ref: SessionSpaceRef,
        session_id: SessionId,
        first: u64,
        count: u64,
    )
        requires
            old(self).wf(),
            session_space_ref.index < old(self).sessions_view().len(),
            old(self).sessions_view()[session_space_ref.index as int].session_id == session_id@,
            old(self).sessions_view()[session_space_ref.index as int].chain.len() >= 1,
            1 <= count,
            count > old(self).sessions_view()[session_space_ref.index
                as int].chain.last().capacity - old(self).sessions_view()[session_space_ref.index
                as int].chain.last().count,
            old(self).fs_view().len() > 0,
            old(self).fs_view().last() == spec_cluster_ref(
                session_space_ref.index as int,
                old(self).sessions_view()[session_space_ref.index as int].chain.len() - 1,
            ),
            first == expected_next_gen(
                old(self).sessions_view(),
                old(self).sessions_view()[session_space_ref.index as int].session_id,
            ),
            old(self).can_finalize(first as int, count as int),
        ensures
            final(self).wf(),
            IdCompressor::finalize_frame(old(self), final(self)),
            IdCompressor::outcome_expand(old(self), final(self), session_id@, count as int),
    {
        let ghost v = self.sessions_view();
        let ghost fs = self.fs_view();
        let ghost us = self.us_view();
        let ghost limit = self.limit_view();
        let ghost i = session_space_ref.index as int;
        let session = self.sessions.deref_session_space(session_space_ref);
        let n = session.cluster_count();
        let tail = session.cluster_at_index(n - 1);
        proof {
            reveal(IdCompressor::outcome_expand);
            assert(session_wf(v[i]));
            assert(cluster_bounded(v[i].chain[n - 1]));
            self.sessions.lemma_view_bounds();
            lemma_session_index_pin(v, session_id@, i);
            assert forall|k2: int| 0 <= k2 < v[i].chain.len() implies (
            #[trigger] v[i].chain[k2]).capacity >= 0 by {
                assert(cluster_bounded(v[i].chain[k2]));
            }
            lemma_caps_sum_take(v[i].chain, n - 1);
            assert(v[i].chain.take(n - 1 + 1) =~= v[i].chain);
            lemma_total_is_tail_end(v, fs, us, limit);
            assert(cluster_at(v, fs.last()) == v[i].chain[n - 1]);
        }
        let remaining_capacity = tail.capacity - tail.count;
        let overflow = count - remaining_capacity;
        let expand = overflow + self.cluster_capacity;
        let cref = ClusterRef { session_space_ref, cluster_chain_index: n - 1 };
        let ghost c2 = ClusterProperties {
            capacity: (tail.capacity + expand) as u64,
            count: (tail.count + count) as u64,
            ..tail
        };
        self.sessions.set_cluster_capacity_and_count(
            cref,
            tail.capacity + expand,
            tail.count + count,
        );
        let ghost v2 = self.sessions_view();
        proof {
            lemma_last_cluster_facts(v, fs, us, limit);
            assert(cluster_at(v2, fs.last()) == c2);
        }
        self.refresh_final_id_limit();
        proof {
            lemma_update_cluster_wf(v, v2, fs, us, i, n - 1, c2, limit, self.limit_view());
        }
    }

    /// Fills the tail cluster of a session's chain to its capacity.
    #[verifier::rlimit(100)]
    #[verifier::spinoff_prover]
    fn fill_tail(&mut self, session_space_ref: SessionSpaceRef, session_id: SessionId)
        requires
            old(self).wf(),
            session_space_ref.index < old(self).sessions_view().len(),
            old(self).sessions_view()[session_space_ref.index as int].session_id == session_id@,
            old(self).sessions_view()[session_space_ref.index as int].chain.len() >= 1,
        ensures
            final(self).wf(),
            IdCompressor::finalize_frame(old(self), final(self)),
            ({
                let v = old(self).sessions_view();
                let i = session_space_ref.index as int;
                let k = v[i].chain.len() - 1;
                let tail = v[i].chain.last();
                &&& final(self).sessions_view()
                    == crate::tables::session_space::spec_update_cluster(
                    v,
                    spec_cluster_ref(i, k),
                    (ClusterProperties { count: tail.capacity, ..tail }),
                )
                &&& final(self).fs_view() == old(self).fs_view()
                &&& final(self).us_view() == old(self).us_view()
                &&& final(self).total_allocated() == old(self).total_allocated()
            }),
    {
        let ghost v = self.sessions_view();
        let ghost fs = self.fs_view();
        let ghost us = self.us_view();
        let ghost limit = self.limit_view();
        let ghost i = session_space_ref.index as int;
        let session = self.sessions.deref_session_space(session_space_ref);
        let n = session.cluster_count();
        let tail = session.cluster_at_index(n - 1);
        proof {
            assert(session_wf(v[i]));
            assert(cluster_bounded(v[i].chain[n - 1]));
            self.sessions.lemma_view_bounds();
            lemma_chain_cluster_end_le_total(v, fs, us, limit, i, n - 1);
        }
        let cref = ClusterRef { session_space_ref, cluster_chain_index: n - 1 };
        let ghost c2 = ClusterProperties { count: tail.capacity, ..tail };
        self.sessions.set_cluster_count(cref, tail.capacity);
        let ghost v2 = self.sessions_view();
        proof {
            lemma_last_cluster_facts(v, fs, us, limit);
            if fs.last() != spec_cluster_ref(i, n - 1) {
                lemma_last_cluster_preserved(v, v2, fs, us, limit, i, n - 1, c2);
            } else {
                assert(cluster_at(v2, fs.last()) == c2);
            }
        }
        self.refresh_final_id_limit();
        proof {
            lemma_update_cluster_wf(v, v2, fs, us, i, n - 1, c2, limit, self.limit_view());
            lemma_total_preserved_under_count_update(v, v2, fs, us, limit, i, n - 1, c2);
        }
    }

    /// Finalizes an overflowing range while the tail cluster is buried in
    /// the final order: the tail fills and the overflow spills into a new
    /// cluster.
    #[verifier::rlimit(100)]
    #[verifier::spinoff_prover]
    fn finalize_spill(
        &mut self,
        session_space_ref: SessionSpaceRef,
        session_id: SessionId,
        first: u64,
        count: u64,
    )
        requires
            old(self).wf(),
            session_space_ref.index < old(self).sessions_view().len(),
            old(self).sessions_view()[session_space_ref.index as int].session_id == session_id@,
            old(self).sessions_view()[session_space_ref.index as int].chain.len() >= 1,
            1 <= count,
            count > old(self).sessions_view()[session_space_ref.index
                as int].chain.last().capacity - old(self).sessions_view()[session_space_ref.index
                as int].chain.last().count,
            first == expected_next_gen(old(self).sessions_view(), session_id@),
            old(self).can_finalize(first as int, count as int),
            !old(self).spec_collides(session_id@, first as int, count as int),
        ensures
            final(self).wf(),
            IdCompressor::finalize_frame(old(self), final(self)),
            IdCompressor::outcome_spill(old(self), final(self), session_id@, count as int) || old(
                self,
            ).fs_view().last() == spec_cluster_ref(
                session_space_ref.index as int,
                old(self).sessions_view()[session_space_ref.index as int].chain.len() - 1,
            ),
    {
        let ghost v = self.sessions_view();
        let ghost fs = self.fs_view();
        let ghost us = self.us_view();
        let ghost limit = self.limit_view();
        let ghost sid = session_id@;
        let ghost i = session_space_ref.index as int;
        let session = self.sessions.deref_session_space(session_space_ref);
        let n = session.cluster_count();
        let tail = session.cluster_at_index(n - 1);
        let ghost chain = v[i].chain;
        proof {
            reveal(IdCompressor::outcome_spill);
            assert(session_wf(v[i]));
            assert(cluster_bounded(chain[n - 1]));
            self.sessions.lemma_view_bounds();
            lemma_session_index_pin(v, sid, i);
            assert forall|k2: int| 0 <= k2 < chain.len() implies (
            #[trigger] chain[k2]).capacity >= 0 by {
                assert(cluster_bounded(chain[k2]));
            }
            lemma_caps_sum_take(chain, n - 1);
            assert(chain.take(n - 1 + 1) =~= chain);
        }
        let remaining_capacity = tail.capacity - tail.count;
        let overflow = count - remaining_capacity;
        let new_claimed_final_count = overflow + self.cluster_capacity;
        self.fill_tail(session_space_ref, session_id);
        let ghost v2 = self.sessions_view();
        proof {
            assert(v2[i].chain.take(v2[i].chain.len() - 1) =~= chain.take(n - 1));
            assert(caps_sum(v2[i].chain) == caps_sum(chain)) by {
                assert(v2[i].chain.drop_last() =~= chain.drop_last());
            }
            lemma_fresh_key_from_no_collision(
                old(self),
                i,
                sid,
                first as int,
                count as int,
                sid + caps_sum(chain),
            );
            self.sessions.lemma_view_bounds();
        }
        let new_base_local = LocalId::from_id(tail.base_local_id.id() - (tail.capacity as i64));
        let ghost us_mid = self.us_view();
        let spilled = self.create_cluster(
            session_space_ref,
            session_id,
            new_base_local,
            new_claimed_final_count,
            overflow,
        );
        proof {
            if fs.last() != spec_cluster_ref(i, n - 1) {
                let p1 = choose|p: int|
                    0 <= p <= us_mid.len() && self.us_view() == #[trigger] us_mid.insert(
                        p,
                        (sid + (-new_base_local@) - 1, spilled),
                    );
                assert(us_mid == us);
                assert(sid + (-new_base_local@) - 1 == sid + (-chain[n - 1].base_local_id@)
                    + chain[n - 1].capacity - 1);
                assert(spilled == spec_cluster_ref(i, (n - 1) + 1));
                assert(us_inserted(
                    us,
                    self.us_view(),
                    sid + (-chain[n - 1].base_local_id@) + chain[n - 1].capacity - 1,
                    spec_cluster_ref(i, (n - 1) + 1),
                ));
                assert(IdCompressor::outcome_spill(old(self), self, sid, count as int));
            }
        }
    }

    /// Finalizes a non-empty range onto a session that already holds a
    /// chain, rejecting ranges that do not catenate exactly onto its
    /// finalized prefix.
    #[verifier::rlimit(100)]
    #[verifier::spinoff_prover]
    fn finalize_onto_chain(
        &mut self,
        session_space_ref: SessionSpaceRef,
        session_id: SessionId,
        first: u64,
        count: u64,
    ) -> (r: Result<(), FinalizationError>)
        requires
            old(self).wf(),
            session_space_ref.index < old(self).sessions_view().len(),
            old(self).sessions_view()[session_space_ref.index as int].session_id == session_id@,
            old(self).sessions_view()[session_space_ref.index as int].chain.len() >= 1,
            1 <= count,
            old(self).can_finalize(first as int, count as int),
            !old(self).spec_collides(session_id@, first as int, count as int),
        ensures
            final(self).wf(),
            if first != expected_next_gen(old(self).sessions_view(), session_id@) {
                &&& r == Err::<(), FinalizationError>(FinalizationError::RangeFinalizedOutOfOrder)
                &&& *final(self) == *old(self)
            } else {
                &&& r == Ok::<(), FinalizationError>(())
                &&& IdCompressor::finalize_frame(old(self), final(self))
                &&& IdCompressor::outcome_onto_chain(
                    old(self),
                    final(self),
                    session_id@,
                    count as int,
                )
            },
    {
        let ghost v = self.sessions_view();
        let ghost fs = self.fs_view();
        let ghost us = self.us_view();
        let ghost limit = self.limit_view();
        let ghost sid = session_id@;
        let ghost i = session_space_ref.index as int;
        proof {
            lemma_session_index_pin(v, sid, i);
            self.sessions.lemma_view_bounds();
        }
        let session = self.sessions.deref_session_space(session_space_ref);
        let n = session.cluster_count();
        let tail = session.cluster_at_index(n - 1);
        let ghost chain = v[i].chain;
        proof {
            assert(session_wf(v[i]));
            assert(cluster_bounded(chain[n - 1]));
            assert(chain[n - 1].base_local_id@ == -1 - caps_sum(chain.take(n - 1)));
            assert forall|k2: int| 0 <= k2 < chain.len() implies (
            #[trigger] chain[k2]).capacity >= 0 by {
                assert(cluster_bounded(chain[k2]));
            }
            lemma_caps_sum_take(chain, n - 1);
            assert(chain.take(n - 1 + 1) =~= chain);
        }
        let tail_base_gen = tail.base_local_id.to_generation_count();
        if first != tail_base_gen + tail.count {
            return Err(FinalizationError::RangeFinalizedOutOfOrder);
        }
        let remaining_capacity = tail.capacity - tail.count;
        if count <= remaining_capacity {
            self.finalize_fit(session_space_ref, session_id, count);
            Ok(())
        } else {
            let cref = ClusterRef { session_space_ref, cluster_chain_index: n - 1 };
            proof {
                lemma_chain_cluster_end_le_total(v, fs, us, limit, i, n - 1);
            }
            if self.final_space.is_last(cref) {
                self.finalize_expand(session_space_ref, session_id, first, count);
                Ok(())
            } else {
                self.finalize_spill(session_space_ref, session_id, first, count);
                Ok(())
            }
        }
    }


    /// Interns a session the compressor has never seen, with an empty
    /// chain.
    #[verifier::rlimit(100)]
    #[verifier::spinoff_prover]
    fn intern_session(&mut self, session_id: SessionId) -> (r: SessionSpaceRef)
        requires
            old(self).wf(),
            !has_session(old(self).sessions_view(), session_id@),
            old(self).sessions_view().len() < i64::MAX,
        ensures
            final(self).wf(),
            IdCompressor::finalize_frame(old(self), final(self)),
            final(self).sessions_view() == old(self).sessions_view().push(
                SessionView { session_id: session_id@, chain: Seq::empty() },
            ),
            final(self).fs_view() == old(self).fs_view(),
            final(self).us_view() == old(self).us_view(),
            final(self).limit_view() == old(self).limit_view(),
            final(self).total_allocated() == old(self).total_allocated(),
            r.index == old(self).sessions_view().len(),
    {
        let ghost v = self.sessions_view();
        let ghost fs = self.fs_view();
        let ghost us = self.us_view();
        let ghost limit = self.limit_view();
        proof {
            use_type_invariant(&session_id);
            session_id.lemma_well_formed_bounds();
        }
        let session_space_ref = self.sessions.get_or_create(session_id);
        proof {
            lemma_session_push_keeps_tables(v, fs, us, limit, session_id@);
            lemma_tables_wf_elim_fs(v, fs, us, limit);
            lemma_fs_caps_sum_congruence_on_push(v, self.sessions_view(), fs);
            let v_mid = self.sessions_view();
            assert(finals_bounded(v_mid)) by {
                assert forall|i2: int, k2: int|
                    0 <= i2 < v_mid.len() && 0 <= k2 < v_mid[i2].chain.len() implies (
                #[trigger] v_mid[i2].chain[k2]).base_final_id@ + v_mid[i2].chain[k2].capacity
                    <= i64::MAX by {
                    assert(i2 < v.len());
                    assert(v_mid[i2] == v[i2]);
                    assert(v[i2].chain[k2].base_final_id@ + v[i2].chain[k2].capacity <= i64::MAX);
                }
            }
        }
        session_space_ref
    }

    /// Finalizes a non-empty range for a session the compressor has never
    /// seen: interns the session and gives it a fresh chain.
    #[verifier::rlimit(100)]
    #[verifier::spinoff_prover]
    fn finalize_missing_session(&mut self, session_id: SessionId, count: u64)
        requires
            old(self).wf(),
            !has_session(old(self).sessions_view(), session_id@),
            1 <= count,
            old(self).can_finalize(1, count as int),
            !old(self).spec_collides(session_id@, 1, count as int),
        ensures
            final(self).wf(),
            IdCompressor::finalize_frame(old(self), final(self)),
            IdCompressor::outcome_fresh(old(self), final(self), session_id@, count as int),
    {
        let ghost v = self.sessions_view();
        let ghost sid = session_id@;
        let session_space_ref = self.intern_session(session_id);
        proof {
            assert(caps_sum(self.sessions_view()[session_space_ref.index as int].chain) == 0);
            lemma_fresh_key_missing(old(self), sid, 1, count as int);
        }
        self.finalize_fresh_chain(session_space_ref, session_id, count);
        proof {
            let v_mid = v.push(SessionView { session_id: sid, chain: Seq::empty() });
            assert forall|j: int| 0 <= j < v.len() && j != v.len() as int implies self.sessions_view()[j]
                == #[trigger] v[j] by {
                assert(self.sessions_view()[j] == v_mid[j]);
            }
            lemma_outcome_fresh_intro(old(self), self, sid, count as int, v.len() as int);
        }
    }

    /// Whether registering the range could overlap a foreign cluster.
    #[verifier::rlimit(100)]
    #[verifier::spinoff_prover]
    fn check_collision(&self, session_id: SessionId, first: u64, count: u64) -> (r: bool)
        requires
            self.wf(),
            1 <= first,
            first + count + self.capacity_view() <= i64::MAX,
        ensures
            r == self.spec_collides(session_id@, first as int, count as int),
    {
        let ghost v = self.sessions_view();
        let ghost fs = self.fs_view();
        let ghost us = self.us_view();
        proof {
            use_type_invariant(&session_id);
            session_id.lemma_well_formed_bounds();
            lemma_tables_wf_elim_us(v, fs, us, self.limit_view());
        }
        let range_base_local = LocalId::from_generation_count(first);
        let range_base_stable = session_id.stable_from_local_offset(range_base_local);
        let range_max_stable = range_base_stable.offset_by(count + self.cluster_capacity);
        proof {
            lemma_collides_matches(
                &*self,
                session_id@,
                first as int,
                count as int,
                range_base_stable@,
                range_max_stable@,
            );
        }
        self.uuid_space.range_collides(
            session_id,
            &self.sessions,
            range_base_stable,
            range_max_stable,
        )
    }

    /// Applies a peer's range of newly issued IDs to the shared cluster
    /// tables, in the agreed total order. Empty ranges are accepted and
    /// discarded; a zero count, a possible cluster collision, and a range
    /// that does not catenate exactly onto the session's finalized prefix
    /// are rejected, and rejection leaves the compressor unchanged.
    #[verifier::rlimit(100)]
    #[verifier::spinoff_prover]
    pub fn finalize_range(&mut self, range: &IdRange) -> (r: Result<(), FinalizationError>)
        requires
            old(self).wf(),
            match range.range {
                Some((first, count)) => count == 0 || old(self).can_finalize(
                    first as int,
                    count as int,
                ),
                None => true,
            },
        ensures
            final(self).wf(),
            ({
                let sid = range.id@;
                match range.range {
                    None => r == Ok::<(), FinalizationError>(()) && *final(self) == *old(self),
                    Some((first, count)) => {
                        if count == 0 {
                            &&& r == Err::<(), FinalizationError>(FinalizationError::InvalidRange)
                            &&& *final(self) == *old(self)
                        } else if old(self).spec_collides(sid, first as int, count as int) {
                            &&& r == Err::<(), FinalizationError>(
                                FinalizationError::ClusterCollision,
                            )
                            &&& *final(self) == *old(self)
                        } else if first != expected_next_gen(old(self).sessions_view(), sid) {
                            &&& r == Err::<(), FinalizationError>(
                                FinalizationError::RangeFinalizedOutOfOrder,
                            )
                            &&& *final(self) == *old(self)
                        } else {
                            &&& r == Ok::<(), FinalizationError>(())
                            &&& IdCompressor::finalize_frame(old(self), final(self))
                            &&& (if !has_session(old(self).sessions_view(), sid) || old(
                                self,
                            ).sessions_view()[session_index_of(
                                old(self).sessions_view(),
                                sid,
                            )].chain.len() == 0 {
                                IdCompressor::outcome_fresh(
                                    old(self),
                                    final(self),
                                    sid,
                                    count as int,
                                )
                            } else {
                                IdCompressor::outcome_onto_chain(
                                    old(self),
                                    final(self),
                                    sid,
                                    count as int,
                                )
                            })
                        }
                    },
                }
            }),
    {
        let session_id = range.id;
        let (first, count) = match range.range {
            None => {
                return Ok(());
            },
            Some((_, 0)) => {
                return Err(FinalizationError::InvalidRange);
            },
            Some(rc) => rc,
        };
        let ghost v = self.sessions_view();
        let ghost fs = self.fs_view();
        let ghost us = self.us_view();
        let ghost limit = self.limit_view();
        let ghost sid = session_id@;
        // Collision check over the maximum new-cluster extent.
        if self.check_collision(session_id, first, count) {
            return Err(FinalizationError::ClusterCollision);
        }
        match self.sessions.get(session_id) {
            None => {
                if first != 1 {
                    return Err(FinalizationError::RangeFinalizedOutOfOrder);
                }
                self.finalize_missing_session(session_id, count);
                Ok(())
            },
            Some(session_space_ref) => {
                let ghost i = session_space_ref.index as int;
                proof {
                    lemma_session_index_pin(v, sid, i);
                }
                let session = self.sessions.deref_session_space(session_space_ref);
                let n = session.cluster_count();
                if n == 0 {
                    if first != 1 {
                        return Err(FinalizationError::RangeFinalizedOutOfOrder);
                    }
                    proof {
                        assert(caps_sum(v[i].chain) == 0);
                        lemma_fresh_key_from_no_collision(
                            old(self),
                            i,
                            sid,
                            first as int,
                            count as int,
                            sid,
                        );
                    }
                    self.finalize_fresh_chain(session_space_ref, session_id, count);
                    proof {
                        reveal(IdCompressor::outcome_fresh);
                        assert(us_inserted(us, self.us_view(), sid, spec_cluster_ref(i, 0)));
                        assert(IdCompressor::outcome_fresh(old(self), self, sid, count as int));
                    }
                    return Ok(());
                }
                self.finalize_onto_chain(session_space_ref, session_id, first, count)
            },
        }
    }


    /// Rewrites a session-space ID for transmission: finals pass through;
    /// locals must have been handed out as locals, and become finals where
    /// the local chain has already reserved a slot for them.
    pub fn normalize_to_op_space(&self, id: SessionSpaceId) -> (r: Result<
        OpSpaceId,
        NormalizationError,
    >)
        requires
            self.wf(),
        ensures
            id@ >= 0 ==> r is Ok && (id@ >= 0 ==> r->Ok_0@ == id@),
            id@ < 0 && !runs_contain(self.norm_view(), id@) ==> r == Err::<
                OpSpaceId,
                NormalizationError,
            >(NormalizationError::UnknownSessionSpaceId),
            id@ < 0 && runs_contain(self.norm_view(), id@) ==> match r {
                Ok(op) => spec_chain_convert(self.local_chain(), id@, true) == Some(op@)
                    || (spec_chain_convert(self.local_chain(), id@, true) is None && op@ == id@),
                Err(_) => false,
            },
    {
        match id.to_space() {
            CompressedId::Final(final_id) => Ok(OpSpaceId::from_final(final_id)),
            CompressedId::Local(local_id) => {
                proof {
                    reveal(norm_ok);
                }
                if !self.session_space_normalizer.contains(local_id) {
                    Err(NormalizationError::UnknownSessionSpaceId)
                } else {
                    proof {
                        assert(session_wf(self.sessions_view()[0]));
                    }
                    let local_session_space = self.sessions.deref_session_space(
                        SessionSpaceRef::create_from_index(0),
                    );
                    match local_session_space.try_convert_to_final(local_id, true) {
                        Some(converted_final) => {
                            proof {
                                lemma_chain_convert_bounded(self.local_chain(), id@);
                            }
                            Ok(OpSpaceId::from_final(converted_final))
                        },
                        None => Ok(OpSpaceId::from_local(local_id)),
                    }
                }
            },
        }
    }

    /// Rewrites a local-form op-space ID from the session that
    /// `originator_ref` denotes into the local session's view.
    #[verifier::rlimit(100)]
    #[verifier::spinoff_prover]
    fn normalize_local_to_session(&self, local_to_normalize: LocalId, originator_ref: SessionSpaceRef) -> (r:
        Result<SessionSpaceId, NormalizationError>)
        requires
            self.wf(),
            originator_ref.index < self.sessions_view().len(),
            local_to_normalize@ < 0,
        ensures
            self.spec_normalize_local(local_to_normalize@, originator_ref.index as int, r),
    {
        proof {
            reveal(norm_ok);
            assert(session_wf(self.sessions_view()[originator_ref.index as int]));
        }
        if originator_ref.get_index() == 0 {
            if self.session_space_normalizer.contains(local_to_normalize) {
                Ok(SessionSpaceId::from_local(local_to_normalize))
            } else if local_to_normalize.to_generation_count() <= self.generated_id_count {
                // An eager final: its cluster must exist.
                proof {
                    assert(session_wf(self.sessions_view()[0]));
                }
                match self.sessions.deref_session_space(
                    originator_ref,
                ).try_convert_to_final(local_to_normalize, true) {
                    None => Err(NormalizationError::NoAllocatedFinal),
                    Some(allocated_final) => {
                        proof {
                            lemma_chain_convert_bounded(self.local_chain(), local_to_normalize@);
                        }
                        Ok(SessionSpaceId::from_final(allocated_final))
                    },
                }
            } else {
                Err(NormalizationError::UnallocatedLocal)
            }
        } else {
            // A local from a foreign session.
            match self.sessions.deref_session_space(originator_ref).try_convert_to_final(
                local_to_normalize,
                false,
            ) {
                Some(final_id) => {
                    proof {
                        lemma_chain_convert_bounded(
                            self.sessions_view()[originator_ref.index as int].chain,
                            local_to_normalize@,
                        );
                    }
                    Ok(SessionSpaceId::from_final(final_id))
                },
                None => Err(NormalizationError::UnfinalizedForeignLocal),
            }
        }
    }

    /// Rewrites a final-form op-space ID into the local session's view: the
    /// aligned local where the local chain covers the final and the
    /// normalizer still holds that local, else the final itself when it has
    /// been allocated here, and the exact error sub-case otherwise.
    #[verifier::rlimit(100)]
    #[verifier::spinoff_prover]
    fn normalize_final_to_session(&self, final_to_normalize: FinalId) -> (r: Result<
        SessionSpaceId,
        NormalizationError,
    >)
        requires
            self.wf(),
            final_to_normalize@ <= i64::MAX,
        ensures
            forall|k: int|
                #[trigger] chain_covers_final(self.local_chain(), k, final_to_normalize@)
                    ==> self.spec_normalize_covered_final(final_to_normalize@, k, r),
            (forall|k: int|
                !#[trigger] chain_covers_final(self.local_chain(), k, final_to_normalize@))
                ==> self.spec_normalize_uncovered_final(final_to_normalize@, r),
    {
        proof {
            reveal(norm_ok);
            assert(session_wf(self.sessions_view()[0]));
        }
        match self.sessions.deref_session_space(
            SessionSpaceRef::create_from_index(0),
        ).get_cluster_by_allocated_final(final_to_normalize) {
            Some(containing_cluster) => {
                proof {
                    let chain = self.local_chain();
                    let k = choose|k: int|
                        0 <= k < chain.len() && chain[k] == containing_cluster
                            && chain_covers_final(chain, k, final_to_normalize@);
                    assert(cluster_bounded(chain[k]));
                    assert forall|k2: int| #[trigger] chain_covers_final(
                        chain,
                        k2,
                        final_to_normalize@,
                    ) implies chain[k2] == containing_cluster by {
                        lemma_chain_covers_final_unique(chain, k2, k, final_to_normalize@);
                    }
                }
                match containing_cluster.get_aligned_local(final_to_normalize) {
                    None => Err(NormalizationError::NoAlignedLocal),
                    Some(aligned_local) => {
                        proof {
                            let chain = self.local_chain();
                            let k = choose|k: int|
                                0 <= k < chain.len() && chain[k] == containing_cluster
                                    && chain_covers_final(chain, k, final_to_normalize@);
                            lemma_aligned_local_bounded(chain, k, final_to_normalize@);
                        }
                        if self.session_space_normalizer.contains(aligned_local) {
                            Ok(SessionSpaceId::from_local(aligned_local))
                        } else if aligned_local.to_generation_count()
                            <= self.generated_id_count {
                            Ok(SessionSpaceId::from_final(final_to_normalize))
                        } else {
                            Err(NormalizationError::UngeneratedId)
                        }
                    },
                }
            },
            None => {
                // Not in the local chain: valid only below the
                // finalized limit.
                if final_to_normalize.id() >= self.final_id_limit.id() {
                    Err(NormalizationError::UnFinalizedForeignFinal)
                } else {
                    Ok(SessionSpaceId::from_final(final_to_normalize))
                }
            },
        }
    }

    /// Rewrites an op-space ID from `originator` into the local session's
    /// view, given the originator's token.
    pub fn normalize_to_session_space_with_token(&self, id: OpSpaceId, originator_token: i64) -> (r:
        Result<SessionSpaceId, NormalizationError>)
        requires
            self.wf(),
        ensures
            originator_token < 0 || originator_token >= self.sessions_view().len() ==> r == Err::<
                SessionSpaceId,
                NormalizationError,
            >(NormalizationError::UnknownSessionToken),
            0 <= originator_token < self.sessions_view().len() && id@ < 0
                ==> self.spec_normalize_local(id@, originator_token as int, r),
            0 <= originator_token < self.sessions_view().len() && id@ >= 0 ==> {
                &&& forall|k: int|
                    #[trigger] chain_covers_final(self.local_chain(), k, id@)
                        ==> self.spec_normalize_covered_final(id@, k, r)
                &&& (forall|k: int| !#[trigger] chain_covers_final(self.local_chain(), k, id@))
                    ==> self.spec_normalize_uncovered_final(id@, r)
            },
    {
        if originator_token < 0 || originator_token as u64 >= self.sessions.sessions_count() as u64 {
            return Err(NormalizationError::UnknownSessionToken);
        }
        let originator_ref = SessionSpaceRef::create_from_token(originator_token);
        match id.to_space() {
            CompressedId::Local(local_to_normalize) => {
                self.normalize_local_to_session(local_to_normalize, originator_ref)
            },
            CompressedId::Final(final_to_normalize) => {
                self.normalize_final_to_session(final_to_normalize)
            },
        }
    }

    /// Rewrites an op-space ID from `originator` into the local session's
    /// view.
    pub fn normalize_to_session_space(&self, id: OpSpaceId, originator: SessionId) -> (r: Result<
        SessionSpaceId,
        NormalizationError,
    >)
        requires
            self.wf(),
        ensures
            !has_session(self.sessions_view(), originator@) && id@ < 0 ==> r == Err::<
                SessionSpaceId,
                NormalizationError,
            >(NormalizationError::UnknownSessionId),
            has_session(self.sessions_view(), originator@) && id@ < 0
                ==> self.spec_normalize_local(
                id@,
                session_index_of(self.sessions_view(), originator@),
                r,
            ),
            id@ >= 0 ==> {
                &&& forall|k: int|
                    #[trigger] chain_covers_final(self.local_chain(), k, id@)
                        ==> self.spec_normalize_covered_final(id@, k, r)
                &&& (forall|k: int| !#[trigger] chain_covers_final(self.local_chain(), k, id@))
                    ==> self.spec_normalize_uncovered_final(id@, r)
            },
    {
        match self.sessions.get(originator) {
            None => {
                if id.is_final() {
                    // A final is globally meaningful; the originator is not
                    // needed to interpret it.
                    self.normalize_to_session_space_with_token(id, 0)
                } else {
                    Err(NormalizationError::UnknownSessionId)
                }
            },
            Some(sref) => {
                proof {
                    assert(self.sessions_view().len() <= i64::MAX);
                    lemma_session_index_pin(
                        self.sessions_view(),
                        originator@,
                        sref.index as int,
                    );
                }
                self.normalize_to_session_space_with_token(id, sref.get_index() as i64)
            },
        }
    }

    /// Maps a final session-space ID to the stable ID it stands for: the
    /// owner-aligned stable ID where a cluster covers the final, the exact
    /// error sub-case otherwise.
    #[verifier::rlimit(100)]
    #[verifier::spinoff_prover]
    fn decompress_final(&self, final_id: FinalId) -> (r: Result<StableId, DecompressionError>)
        requires
            self.wf(),
        ensures
            !(exists|p: int|
                fs_covers(self.sessions_view(), self.fs_view(), p, final_id@)) ==> r == Err::<
                StableId,
                DecompressionError,
            >(DecompressionError::UnallocatedFinalId),
            forall|p: int|
                #[trigger] fs_covers(self.sessions_view(), self.fs_view(), p, final_id@)
                    ==> self.spec_decompress_covered(final_id@, p, r),
    {
        let ghost v = self.sessions_view();
        let ghost fs = self.fs_view();
        proof {
            reveal(norm_ok);
            lemma_tables_wf_elim_fs(v, fs, self.us_view(), self.limit_view());
            lemma_fs_ascending_from_tiling(v, fs, self.us_view(), self.limit_view());
        }
        match self.final_space.search(final_id, &self.sessions) {
            None => Err(DecompressionError::UnallocatedFinalId),
            Some(cluster_ref) => {
                let containing_cluster = self.sessions.deref_cluster(cluster_ref);
                let ghost i = cluster_ref.session_space_ref.index as int;
                proof {
                    assert(valid_cluster_ref(v, cluster_ref));
                    assert(session_wf(v[i]));
                    self.sessions.lemma_view_bounds();
                    let p0 = choose|p: int|
                        #[trigger] fs_covers(v, fs, p, final_id@) && fs[p] == cluster_ref;
                    assert forall|p: int| #[trigger] fs_covers(v, fs, p, final_id@) implies fs[p]
                        == cluster_ref by {
                        lemma_fs_covers_unique(v, fs, p, p0, final_id@);
                    }
                }
                match containing_cluster.get_aligned_local(final_id) {
                    None => Err(DecompressionError::NoAlignedLocal),
                    Some(aligned_local) => {
                        proof {
                            let chain = v[i].chain;
                            let k = cluster_ref.cluster_chain_index as int;
                            lemma_aligned_local_bounded(chain, k, final_id@);
                        }
                        let is_past_count = {
                            let max_local_gen = containing_cluster.base_local_id.to_generation_count() + (containing_cluster.count - 1);
                            aligned_local.to_generation_count() > max_local_gen
                        };
                        if is_past_count {
                            if cluster_ref.get_session_space_ref().get_index() == 0 {
                                if self.session_space_normalizer.contains(aligned_local) {
                                    return Err(DecompressionError::UnobtainableId);
                                }
                                if aligned_local.to_generation_count()
                                    > self.generated_id_count {
                                    return Err(DecompressionError::UngeneratedFinalId);
                                }
                            } else {
                                return Err(DecompressionError::UnfinalizedId);
                            }
                        }
                        let owner = self.sessions.deref_session_space(
                            cluster_ref.get_session_space_ref(),
                        );
                        Ok(owner.session_id().stable_from_local_offset(aligned_local))
                    },
                }
            },
        }
    }

    /// Maps a session-space ID to the stable ID it stands for.
    pub fn decompress(&self, id: SessionSpaceId) -> (r: Result<StableId, DecompressionError>)
        requires
            self.wf(),
        ensures
            id@ < 0 ==> if runs_contain(self.norm_view(), id@) {
                match r {
                    Ok(stable) => stable@ == self.session_id_view() + (-id@) - 1,
                    Err(_) => false,
                }
            } else {
                r == Err::<StableId, DecompressionError>(DecompressionError::UnobtainableId)
            },
            id@ >= 0 && !(exists|p: int|
                fs_covers(self.sessions_view(), self.fs_view(), p, id@)) ==> r == Err::<
                StableId,
                DecompressionError,
            >(DecompressionError::UnallocatedFinalId),
            id@ >= 0 ==> forall|p: int|
                #[trigger] fs_covers(self.sessions_view(), self.fs_view(), p, id@)
                    ==> self.spec_decompress_covered(id@, p, r),
    {
        proof {
            reveal(norm_ok);
        }
        match id.to_space() {
            CompressedId::Final(final_id) => self.decompress_final(final_id),
            CompressedId::Local(local_id) => {
                if !self.session_space_normalizer.contains(local_id) {
                    return Err(DecompressionError::UnobtainableId);
                }
                Ok(self.session_id.stable_from_local_offset(local_id))
            },
        }
    }

    /// Maps a stable ID back to its most local session-space form.
    #[verifier::rlimit(100)]
    #[verifier::spinoff_prover]
    pub fn recompress(&self, id: StableId) -> (r: Result<SessionSpaceId, RecompressionError>)
        requires
            self.wf(),
        ensures
            (forall|p: int|
                #[trigger] is_us_floor(self.us_view(), id@, p) ==> id@ > self.us_view()[p].0
                    + cluster_at(self.sessions_view(), self.us_view()[p].1).capacity)
                ==> self.spec_recompress_uncovered(id@, r),
            forall|p: int|
                #[trigger] is_us_floor(self.us_view(), id@, p) && id@ <= self.us_view()[p].0
                    + cluster_at(self.sessions_view(), self.us_view()[p].1).capacity
                    ==> self.spec_recompress_covered(id@, p, r),
    {
        let ghost v = self.sessions_view();
        let ghost us = self.us_view();
        proof {
            reveal(norm_ok);
            lemma_tables_wf_elim_us(v, self.fs_view(), us, self.limit_view());
        }
        match self.uuid_space.search(id, &self.sessions) {
            None => {
                let session_as_stable = self.session_id.stable_id();
                if id.ge(&session_as_stable) {
                    let distance: u128 = id.distance_from(&session_as_stable);
                    if distance < self.generated_id_count as u128 {
                        let local_equivalent = LocalId::from_generation_count(
                            (distance + 1) as u64,
                        );
                        if self.session_space_normalizer.contains(local_equivalent) {
                            return Ok(SessionSpaceId::from_local(local_equivalent));
                        }
                    }
                }
                Err(RecompressionError::UnallocatedStableId)
            },
            Some((cluster, cluster_ref, originator_local)) => {
                proof {
                    assert(valid_cluster_ref(v, cluster_ref));
                    assert(session_wf(v[cluster_ref.session_space_ref.index as int]));
                    assert(cluster_bounded(cluster));
                    let p0 = choose|p: int|
                        {
                            &&& #[trigger] is_us_floor(us, id@, p)
                            &&& us[p].1 == cluster_ref
                            &&& cluster == cluster_at(v, cluster_ref)
                            &&& us[p].0 <= id@ <= us[p].0 + cluster.capacity
                            &&& originator_local@ == -(id@ - v[cluster_ref.session_space_ref.index
                                as int].session_id) - 1
                        };
                    crate::tables::uuid_space::lemma_us_floor_unique(us, id@, p0);
                    assert(us[p0].0 == cluster_base_stable(v, cluster_ref));
                }
                if cluster_ref.get_session_space_ref().get_index() == 0 {
                    if self.session_space_normalizer.contains(originator_local) {
                        Ok(SessionSpaceId::from_local(originator_local))
                    } else if originator_local.to_generation_count() <= self.generated_id_count {
                        match cluster.get_allocated_final(originator_local) {
                            None => Err(RecompressionError::NoAllocatedFinal),
                            Some(allocated_final) => {
                                proof {
                                    lemma_allocated_final_bounded(
                                        v[cluster_ref.session_space_ref.index as int].chain,
                                        cluster_ref.cluster_chain_index as int,
                                        originator_local@,
                                    );
                                }
                                Ok(SessionSpaceId::from_final(allocated_final))
                            },
                        }
                    } else {
                        Err(RecompressionError::UngeneratedStableId)
                    }
                } else {
                    let finalized_gen_limit = cluster.base_local_id.to_generation_count()
                        + cluster.count;
                    if originator_local.to_generation_count() < finalized_gen_limit {
                        match cluster.get_allocated_final(originator_local) {
                            None => Err(RecompressionError::NoAllocatedFinal),
                            Some(allocated_final) => {
                                proof {
                                    lemma_allocated_final_bounded(
                                        v[cluster_ref.session_space_ref.index as int].chain,
                                        cluster_ref.cluster_chain_index as int,
                                        originator_local@,
                                    );
                                }
                                Ok(SessionSpaceId::from_final(allocated_final))
                            },
                        }
                    } else {
                        Err(RecompressionError::UnfinalizedForeignId)
                    }
                }
            },
        }
    }

    /// Whether two compressors agree: always on finalized state, and on the
    /// local counters as well when `compare_local_state` is set.
    pub fn equals_test_only(&self, other: &IdCompressor, compare_local_state: bool) -> (r: bool)
        requires
            self.wf(),
            other.wf(),
        ensures
            r == ({
                &&& self.limit_view() == other.limit_view()
                &&& sessions_equal_finalized(self.sessions_view(), other.sessions_view())
                &&& fs_equal(
                    self.sessions_view(),
                    self.fs_view(),
                    other.sessions_view(),
                    other.fs_view(),
                )
                &&& us_equal(
                    self.sessions_view(),
                    self.us_view(),
                    other.sessions_view(),
                    other.us_view(),
                )
                &&& self.capacity_view() == other.capacity_view()
                &&& (compare_local_state ==> {
                    &&& self.session_id_view() == other.session_id_view()
                    &&& self.generated_count() == other.generated_count()
                    &&& self.next_range_base_gen() == other.next_range_base_gen()
                    &&& self.norm_view() == other.norm_view()
                })
            }),
    {
        proof {
            lemma_tables_wf_elim_fs(
                self.sessions_view(),
                self.fs_view(),
                self.us_view(),
                self.limit_view(),
            );
            lemma_tables_wf_elim_fs(
                other.sessions_view(),
                other.fs_view(),
                other.us_view(),
                other.limit_view(),
            );
            lemma_tables_wf_elim_us(
                self.sessions_view(),
                self.fs_view(),
                self.us_view(),
                self.limit_view(),
            );
            lemma_tables_wf_elim_us(
                other.sessions_view(),
                other.fs_view(),
                other.us_view(),
                other.limit_view(),
            );
        }
        if !(self.final_id_limit.id() == other.final_id_limit.id()
            && self.sessions.equals_test_only(&other.sessions) && self.final_space.equals_test_only(
            &other.final_space,
            &self.sessions,
            &other.sessions,
        ) && self.uuid_space.equals_test_only(&other.uuid_space, &self.sessions, &other.sessions)
            && self.cluster_capacity == other.cluster_capacity) {
            false
        } else if compare_local_state && !(self.session_id.stable_id().eq_value(
            &other.session_id.stable_id(),
        ) && self.generated_id_count == other.generated_id_count
            && self.next_range_base_generation_count == other.next_range_base_generation_count
            && self.session_space_normalizer.equals(&other.session_space_normalizer)) {
            false
        } else {
            true
        }
    }


    /// How many IDs the local session has generated so far.
    pub fn generated_count_value(&self) -> (r: u64)
        ensures
            r == self.generated_count(),
    {
        self.generated_id_count
    }

    /// The first final ID that no cluster has reserved.
    pub fn total_allocated_value(&self) -> (r: u64)
        requires
            self.wf(),
        ensures
            r == self.total_allocated(),
    {
        proof {
            lemma_total_is_tail_end(
                self.sessions_view(),
                self.fs_view(),
                self.us_view(),
                self.limit_view(),
            );
        }
        match self.final_space.get_tail_cluster() {
            None => 0,
            Some(tail_ref) => {
                proof {
                    assert(cluster_bounded(cluster_at(self.sessions_view(), tail_ref)));
                }
                let tail = self.sessions.deref_cluster(tail_ref);
                tail.base_final_id.id() + tail.capacity
            },
        }
    }

    /// The token of the supplied session, if the compressor has seen it;
    /// valid for the compressor's lifetime.
    pub fn get_session_token_from_session_id(&self, session_id: SessionId) -> (r: Result<
        i64,
        NormalizationError,
    >)
        requires
            self.wf(),
        ensures
            match r {
                Ok(token) => 0 <= token < self.sessions_view().len()
                    && self.sessions_view()[token as int].session_id == session_id@,
                Err(e) => e == NormalizationError::NoTokenForSession && !has_session(
                    self.sessions_view(),
                    session_id@,
                ),
            },
    {
        match self.sessions.get(session_id) {
            None => Err(NormalizationError::NoTokenForSession),
            Some(session_space_ref) => {
                Ok(session_space_ref.get_index() as i64)
            },
        }
    }

    /// The identity of the session that `token` denotes.
    pub fn get_session_id_from_session_token(&self, token: usize) -> (r: Result<
        SessionId,
        NormalizationError,
    >)
        requires
            self.wf(),
        ensures
            match r {
                Ok(sid) => token < self.sessions_view().len() && sid@ == self.sessions_view()[
                    token as int].session_id,
                Err(e) => e == NormalizationError::UnknownSessionToken && token
                    >= self.sessions_view().len(),
            },
    {
        if token >= self.sessions.sessions_count() {
            return Err(NormalizationError::UnknownSessionToken);
        }
        Ok(self.sessions.deref_session_space(SessionSpaceRef::create_from_index(token)).session_id())
    }
}

/// Whether the final order lists the cluster at chain position `k` of
/// session `i`.
pub open spec fn fs_has_ref(fs: Seq<ClusterRef>, i: int, k: int) -> bool {
    exists|p: int| 0 <= p < fs.len() && #[trigger] fs[p] == spec_cluster_ref(i, k)
}

/// Whether the uuid order lists the cluster at chain position `k` of
/// session `i`.
pub open spec fn us_has_ref(us: Seq<(int, ClusterRef)>, i: int, k: int) -> bool {
    exists|p: int| 0 <= p < us.len() && (#[trigger] us[p]).1 == spec_cluster_ref(i, k)
}

/// Whether `b` is `a` with one entry `(key, cref)` inserted at some
/// position.
pub open spec fn us_inserted(
    a: Seq<(int, ClusterRef)>,
    b: Seq<(int, ClusterRef)>,
    key: int,
    cref: ClusterRef,
) -> bool {
    exists|p: int| 0 <= p <= a.len() && b == #[trigger] a.insert(p, (key, cref))
}

/// The table invariants: sessions well formed; the final order lists each
/// cluster exactly once with base final IDs tiled by capacity; the uuid
/// order lists each cluster exactly once under its base stable ID; the
/// finalized limit caches the end of the last cluster's finalized run.
#[verifier::opaque]
pub open spec fn tables_wf(
    v: Seq<SessionView>,
    fs: Seq<ClusterRef>,
    us: Seq<(int, ClusterRef)>,
    limit: int,
) -> bool {
    &&& fs_valid(v, fs)
    &&& forall|p: int, q: int|
        0 <= p < fs.len() && 0 <= q < fs.len() && p != q ==> #[trigger] fs[p] != #[trigger] fs[q]
    &&& forall|i: int, k: int|
        0 <= i < v.len() && 0 <= k < v[i].chain.len() ==> #[trigger] fs_has_ref(fs, i, k)
    &&& forall|p: int|
        0 <= p < fs.len() ==> cluster_at(v, #[trigger] fs[p]).base_final_id@ == fs_caps_sum(
            v,
            fs.take(p),
        )
    &&& us_wf(v, us)
    &&& forall|i: int, k: int|
        0 <= i < v.len() && 0 <= k < v[i].chain.len() ==> #[trigger] us_has_ref(us, i, k)
    &&& limit == (if fs.len() == 0 {
        0
    } else {
        cluster_at(v, fs.last()).base_final_id@ + cluster_at(v, fs.last()).count
    })
}

/// The normalizer invariants: runs well formed and holding only generated
/// locals.
#[verifier::opaque]
pub open spec fn norm_ok(norm: Seq<(int, int)>, generated: int) -> bool {
    &&& runs_wf(norm)
    &&& norm.len() > 0 ==> norm.last().0 - norm.last().1 + 1 >= -generated
}

/// Every reserved final fits in a signed 64-bit identifier.
pub open spec fn finals_bounded(v: Seq<SessionView>) -> bool {
    forall|i: int, k: int|
        0 <= i < v.len() && 0 <= k < v[i].chain.len() ==> (#[trigger] v[i].chain[k]).base_final_id@
            + v[i].chain[k].capacity <= i64::MAX
}

/// The eager final that generation count `g` receives from the tail
/// cluster of `chain`, if the tail still has reserved capacity for it.
pub open spec fn spec_eager_final(chain: Seq<ClusterProperties>, g: int) -> Option<int> {
    if chain.len() > 0 && -chain.last().base_local_id@ <= g < -chain.last().base_local_id@
        + chain.last().capacity {
        Some(chain.last().base_final_id@ + (g - (-chain.last().base_local_id@)))
    } else {
        None
    }
}

/// The reference denoting the cluster at chain position `k` of session `i`.
pub open spec fn spec_cluster_ref(i: int, k: int) -> ClusterRef {
    ClusterRef {
        session_space_ref: SessionSpaceRef { index: i as usize },
        cluster_chain_index: k as usize,
    }
}

/// Everything but the cluster capacity and telemetry agrees between the
/// two compressors.
pub open spec fn unchanged_but_capacity(a: &IdCompressor, b: &IdCompressor) -> bool {
    &&& b.session_id_view() == a.session_id_view()
    &&& b.generated_count() == a.generated_count()
    &&& b.next_range_base_gen() == a.next_range_base_gen()
    &&& b.sessions_view() == a.sessions_view()
    &&& b.fs_view() == a.fs_view()
    &&& b.us_view() == a.us_view()
    &&& b.norm_view() == a.norm_view()
    &&& b.limit_view() == a.limit_view()
}

/// Everything but telemetry agrees between the two compressors.
pub open spec fn unchanged_core(a: &IdCompressor, b: &IdCompressor) -> bool {
    &&& unchanged_but_capacity(a, b)
    &&& b.capacity_view() == a.capacity_view()
}

/// The capacity sum over a prefix never exceeds the sum over the whole
/// list.
pub proof fn lemma_fs_caps_sum_take_mono(sessions: Seq<SessionView>, fs: Seq<ClusterRef>, a: int, b: int)
    requires
        fs_valid(sessions, fs),
        0 <= a <= b <= fs.len(),
    ensures
        fs_caps_sum(sessions, fs.take(a)) <= fs_caps_sum(sessions, fs.take(b)),
    decreases b - a,
{
    if a < b {
        lemma_fs_caps_sum_take(sessions, fs, a);
        assert(cluster_bounded(cluster_at(sessions, fs[a])));
        lemma_fs_caps_sum_take_mono(sessions, fs, a + 1, b);
    }
}

/// The whole list is its own prefix.
pub proof fn lemma_fs_caps_sum_take_all(sessions: Seq<SessionView>, fs: Seq<ClusterRef>)
    ensures
        fs_caps_sum(sessions, fs.take(fs.len() as int)) == fs_caps_sum(sessions, fs),
{
    assert(fs.take(fs.len() as int) =~= fs);
}

/// Cluster data is unaffected by session changes that leave every chain
/// prefix in place: updating session `i` by appending to or updating the
/// tail of its chain preserves every cluster that a valid old reference
/// denotes, except the updated position itself.
pub proof fn lemma_fs_caps_sum_congruence(
    va: Seq<SessionView>,
    vb: Seq<SessionView>,
    fs: Seq<ClusterRef>,
)
    requires
        forall|p: int|
            0 <= p < fs.len() ==> cluster_at(vb, #[trigger] fs[p]) == cluster_at(va, fs[p]),
    ensures
        fs_caps_sum(vb, fs) == fs_caps_sum(va, fs),
    decreases fs.len(),
{
    if fs.len() > 0 {
        assert(forall|p: int|
            0 <= p < fs.len() - 1 ==> cluster_at(vb, #[trigger] fs.drop_last()[p]) == cluster_at(
                va,
                fs.drop_last()[p],
            ));
        lemma_fs_caps_sum_congruence(va, vb, fs.drop_last());
    }
}

/// In a strictly ascending key table, some key at or below `hi` implies a
/// floor position for `hi`.
pub proof fn lemma_us_floor_exists(us: Seq<(int, ClusterRef)>, hi: int, p0: int)
    requires
        forall|r: int| 0 <= r < us.len() - 1 ==> (#[trigger] us[r]).0 < us[r + 1].0,
        0 <= p0 < us.len(),
        us[p0].0 <= hi,
    ensures
        exists|q: int| #[trigger] is_us_floor(us, hi, q),
    decreases us.len() - p0,
{
    if p0 + 1 < us.len() && us[p0 + 1].0 <= hi {
        lemma_us_floor_exists(us, hi, p0 + 1);
    } else {
        assert forall|r: int| 0 <= r < us.len() && (#[trigger] us[r]).0 <= hi implies us[r].0
            <= us[p0].0 by {
            if r > p0 + 1 {
                crate::tables::uuid_space::lemma_us_keys_ascending(us, p0 + 1, r);
            } else if r < p0 {
                crate::tables::uuid_space::lemma_us_keys_ascending(us, r, p0);
            }
        }
        assert(is_us_floor(us, hi, p0));
    }
}


/// After appending a fresh cluster to session `i` and pushing its reference,
/// the final order stays valid, duplicate-free, complete and tiled.
#[verifier::rlimit(100)]
#[verifier::spinoff_prover]
pub proof fn lemma_fs_after_push(
    v: Seq<SessionView>,
    v2: Seq<SessionView>,
    fs: Seq<ClusterRef>,
    i: int,
    newc: ClusterProperties,
    cref: ClusterRef,
)
    requires
        v.len() <= usize::MAX,
        forall|j: int| 0 <= j < v.len() ==> (#[trigger] v[j]).chain.len() <= usize::MAX,
        fs_valid(v, fs),
        forall|p: int, q: int|
            0 <= p < fs.len() && 0 <= q < fs.len() && p != q ==> #[trigger] fs[p] != #[trigger] fs[q],
        forall|i2: int, k2: int|
            0 <= i2 < v.len() && 0 <= k2 < v[i2].chain.len() ==> #[trigger] fs_has_ref(fs, i2, k2),
        forall|p: int|
            0 <= p < fs.len() ==> cluster_at(v, #[trigger] fs[p]).base_final_id@ == fs_caps_sum(
                v,
                fs.take(p),
            ),
        0 <= i < v.len(),
        v2 == v.update(
            i,
            SessionView { session_id: v[i].session_id, chain: v[i].chain.push(newc) },
        ),
        cref == spec_cluster_ref(i, v[i].chain.len() as int),
        newc.base_final_id@ == fs_caps_sum(v, fs),
        cluster_bounded(newc),
    ensures
        fs_valid(v2, fs.push(cref)),
        forall|p: int, q: int|
            0 <= p < fs.push(cref).len() && 0 <= q < fs.push(cref).len() && p != q ==> #[trigger] fs.push(
                cref,
            )[p] != #[trigger] fs.push(cref)[q],
        forall|i2: int, k2: int|
            0 <= i2 < v2.len() && 0 <= k2 < v2[i2].chain.len() ==> #[trigger] fs_has_ref(
                fs.push(cref),
                i2,
                k2,
            ),
        forall|p: int|
            0 <= p < fs.push(cref).len() ==> cluster_at(
                v2,
                #[trigger] fs.push(cref)[p],
            ).base_final_id@ == fs_caps_sum(v2, fs.push(cref).take(p)),
{
    let fs2 = fs.push(cref);
    assert(cluster_at(v2, cref) == newc);
    assert forall|p: int| 0 <= p < fs.len() implies cluster_at(v2, #[trigger] fs[p]) == cluster_at(
        v,
        fs[p],
    ) by {
        assert(valid_cluster_ref(v, fs[p]));
    }
    assert(fs_valid(v2, fs2)) by {
        assert forall|p: int| 0 <= p < fs2.len() implies valid_cluster_ref(v2, #[trigger] fs2[p])
            && cluster_bounded(cluster_at(v2, fs2[p])) by {
            if p < fs.len() {
                assert(fs2[p] == fs[p]);
                assert(valid_cluster_ref(v, fs[p]));
                assert(cluster_at(v2, fs[p]) == cluster_at(v, fs[p]));
            } else {
                assert(fs2[p] == cref);
            }
        }
    }
    assert forall|p: int, q: int|
        0 <= p < fs2.len() && 0 <= q < fs2.len() && p != q implies (#[trigger] fs2[p]) != (
    #[trigger] fs2[q]) by {
        if p < fs.len() && q < fs.len() {
            assert(fs[p] != fs[q]);
        } else if p < fs.len() {
            assert(valid_cluster_ref(v, fs[p]));
        } else if q < fs.len() {
            assert(valid_cluster_ref(v, fs[q]));
        }
    }
    assert forall|i2: int, k2: int|
        0 <= i2 < v2.len() && 0 <= k2 < v2[i2].chain.len() implies #[trigger] fs_has_ref(
        fs2,
        i2,
        k2,
    ) by {
        if i2 == i && k2 == v[i].chain.len() {
            assert(fs2[fs.len() as int] == spec_cluster_ref(i2, k2));
        } else {
            assert(0 <= i2 < v.len() && 0 <= k2 < v[i2].chain.len());
            assert(fs_has_ref(fs, i2, k2));
            let p = choose|p: int| 0 <= p < fs.len() && #[trigger] fs[p] == spec_cluster_ref(i2, k2);
            assert(fs2[p] == spec_cluster_ref(i2, k2));
        }
    }
    assert forall|p: int| 0 <= p < fs2.len() implies cluster_at(
        v2,
        #[trigger] fs2[p],
    ).base_final_id@ == fs_caps_sum(v2, fs2.take(p)) by {
        if p < fs.len() {
            assert(fs2.take(p) =~= fs.take(p));
            assert(cluster_at(v2, fs[p]) == cluster_at(v, fs[p]));
            assert(forall|q: int|
                0 <= q < fs.take(p).len() ==> cluster_at(v2, #[trigger] fs.take(p)[q])
                    == cluster_at(v, fs.take(p)[q]));
            lemma_fs_caps_sum_congruence(v, v2, fs.take(p));
        } else {
            assert(fs2.take(p) =~= fs);
            lemma_fs_caps_sum_congruence(v, v2, fs);
        }
    }
}

/// After inserting the fresh cluster's entry, the uuid order stays well
/// formed and complete.
#[verifier::rlimit(100)]
#[verifier::spinoff_prover]
pub proof fn lemma_us_after_insert(
    v: Seq<SessionView>,
    v2: Seq<SessionView>,
    us: Seq<(int, ClusterRef)>,
    us2: Seq<(int, ClusterRef)>,
    ip: int,
    i: int,
    newc: ClusterProperties,
    cref: ClusterRef,
    key: int,
)
    requires
        v.len() <= usize::MAX,
        forall|j: int| 0 <= j < v.len() ==> (#[trigger] v[j]).chain.len() <= usize::MAX,
        forall|i2: int, k2: int|
            0 <= i2 < v.len() && 0 <= k2 < v[i2].chain.len() ==> #[trigger] us_has_ref(us, i2, k2),
        0 <= i < v.len(),
        v2 == v.update(
            i,
            SessionView { session_id: v[i].session_id, chain: v[i].chain.push(newc) },
        ),
        cref == spec_cluster_ref(i, v[i].chain.len() as int),
        0 <= ip <= us.len(),
        us2 == us.insert(ip, (key, cref)),
    ensures
        forall|i2: int, k2: int|
            0 <= i2 < v2.len() && 0 <= k2 < v2[i2].chain.len() ==> #[trigger] us_has_ref(
                us2,
                i2,
                k2,
            ),
{
    assert forall|i2: int, k2: int|
        0 <= i2 < v2.len() && 0 <= k2 < v2[i2].chain.len() implies #[trigger] us_has_ref(
        us2,
        i2,
        k2,
    ) by {
        if i2 == i && k2 == v[i].chain.len() {
            assert(us2[ip] == (key, cref));
            assert(us2[ip].1 == spec_cluster_ref(i2, k2));
        } else {
            assert(0 <= i2 < v.len() && 0 <= k2 < v[i2].chain.len());
            assert(us_has_ref(us, i2, k2));
            let p = choose|p: int|
                0 <= p < us.len() && (#[trigger] us[p]).1 == spec_cluster_ref(i2, k2);
            if p < ip {
                assert(us2[p] == us[p]);
            } else {
                assert(us2[p + 1] == us[p]);
            }
        }
    }
}


/// The inserted entry and every shifted old entry satisfy the uuid-order
/// invariant against the updated sessions.
#[verifier::rlimit(100)]
#[verifier::spinoff_prover]
pub proof fn lemma_us_wf_after_insert(
    v: Seq<SessionView>,
    v2: Seq<SessionView>,
    us: Seq<(int, ClusterRef)>,
    us2: Seq<(int, ClusterRef)>,
    ip: int,
    i: int,
    newc: ClusterProperties,
    cref: ClusterRef,
    key: int,
)
    requires
        v.len() <= usize::MAX,
        forall|j: int| 0 <= j < v.len() ==> (#[trigger] v[j]).chain.len() <= usize::MAX,
        us_wf(v, us),
        0 <= i < v.len(),
        v2 == v.update(
            i,
            SessionView { session_id: v[i].session_id, chain: v[i].chain.push(newc) },
        ),
        session_wf(v2[i]),
        cref == spec_cluster_ref(i, v[i].chain.len() as int),
        cluster_bounded(newc),
        key == v[i].session_id + (-newc.base_local_id@) - 1,
        0 <= ip <= us.len(),
        us2 == us.insert(ip, (key, cref)),
        forall|p: int| 0 <= p < us2.len() - 1 ==> (#[trigger] us2[p]).0 < us2[p + 1].0,
    ensures
        us_wf(v2, us2),
{
    assert(cluster_at(v2, cref) == newc);
    assert forall|p: int| 0 <= p < us.len() implies cluster_at(v2, (#[trigger] us[p]).1)
        == cluster_at(v, us[p].1) && valid_cluster_ref(v2, us[p].1) by {
        assert(valid_cluster_ref(v, us[p].1));
    }
    assert forall|p: int| 0 <= p < us2.len() implies valid_cluster_ref(v2, (#[trigger] us2[p]).1)
        && cluster_bounded(cluster_at(v2, us2[p].1)) && session_wf(
        v2[us2[p].1.session_space_ref.index as int],
    ) && us2[p].0 == cluster_base_stable(v2, us2[p].1) by {
        if p < ip {
            assert(us2[p] == us[p]);
            if us[p].1.session_space_ref.index as int == i {
                assert(session_wf(v2[i]));
            } else {
                assert(v2[us[p].1.session_space_ref.index as int] == v[us[
                    p].1.session_space_ref.index as int]);
            }
        } else if p == ip {
            assert(us2[p] == (key, cref));
        } else {
            assert(us2[p] == us[p - 1]);
            if us[p - 1].1.session_space_ref.index as int == i {
                assert(session_wf(v2[i]));
            } else {
                assert(v2[us[p - 1].1.session_space_ref.index as int] == v[us[p
                    - 1].1.session_space_ref.index as int]);
            }
        }
    }
}


/// The index of the session with identity `sid`.
pub open spec fn session_index_of(v: Seq<SessionView>, sid: int) -> int {
    choose|i: int| 0 <= i < v.len() && (#[trigger] v[i]).session_id == sid
}

/// The generation count at which the next finalized range of `sid` must
/// start: one past the session's finalized locals.
pub open spec fn expected_next_gen(v: Seq<SessionView>, sid: int) -> int {
    if has_session(v, sid) {
        let chain = v[session_index_of(v, sid)].chain;
        if chain.len() == 0 {
            1
        } else {
            -chain.last().base_local_id@ + chain.last().count
        }
    } else {
        1
    }
}

impl IdCompressor {
    /// Whether registering a range of `count` IDs at `first` for `sid`
    /// could overlap a foreign cluster: the floor cluster of the maximum
    /// new-cluster extent belongs to another session and reaches the range
    /// base.
    /// The top of the stable span that a finalization of `count` IDs at
    /// `first` could reserve.
    pub open spec fn spec_collides_hi(&self, sid: int, first: int, count: int) -> int {
        sid + first - 1 + count + self.capacity_view()
    }

    #[verifier::opaque]
    pub open spec fn spec_collides(&self, sid: int, first: int, count: int) -> bool {
        let lo = sid + first - 1;
        let hi = self.spec_collides_hi(sid, first, count);
        exists|p: int|
            {
                &&& #[trigger] is_us_floor(self.us_view(), hi, p)
                &&& self.sessions_view()[self.us_view()[p].1.session_space_ref.index
                    as int].session_id != sid
                &&& self.us_view()[p].0 + cluster_at(
                    self.sessions_view(),
                    self.us_view()[p].1,
                ).capacity - 1 >= lo
            }
    }

    /// What `decompress` returns for a final that the cluster at final-order
    /// position `p` covers: the owner-aligned stable ID where the final lies
    /// within the cluster's finalized run (or was generated by the local
    /// session as an eager final), and the exact error sub-case otherwise.
    pub open spec fn spec_decompress_covered(
        &self,
        f: int,
        p: int,
        r: Result<StableId, DecompressionError>,
    ) -> bool {
        let v = self.sessions_view();
        let cref = self.fs_view()[p];
        let cl = cluster_at(v, cref);
        let owner = v[cref.session_space_ref.index as int].session_id;
        let local = cl.base_local_id@ - (f - cl.base_final_id@);
        if f < cl.base_final_id@ + cl.count {
            match r {
                Ok(stable) => stable@ == owner + (-local) - 1,
                Err(_) => false,
            }
        } else if cref.session_space_ref.index == 0 {
            if runs_contain(self.norm_view(), local) {
                r == Err::<StableId, DecompressionError>(DecompressionError::UnobtainableId)
            } else if -local > self.generated_count() {
                r == Err::<StableId, DecompressionError>(DecompressionError::UngeneratedFinalId)
            } else {
                match r {
                    Ok(stable) => stable@ == owner + (-local) - 1,
                    Err(_) => false,
                }
            }
        } else {
            r == Err::<StableId, DecompressionError>(DecompressionError::UnfinalizedId)
        }
    }

    /// What `recompress` returns for a stable ID that no registered
    /// cluster's span reaches: the local form of a locally generated,
    /// never-finalized ID, or `UnallocatedStableId`.
    pub open spec fn spec_recompress_uncovered(
        &self,
        s: int,
        r: Result<SessionSpaceId, RecompressionError>,
    ) -> bool {
        let local = -(s - self.session_id_view()) - 1;
        if self.session_id_view() <= s < self.session_id_view() + self.generated_count()
            && runs_contain(self.norm_view(), local) {
            match r {
                Ok(x) => x@ == local,
                Err(_) => false,
            }
        } else {
            r == Err::<SessionSpaceId, RecompressionError>(
                RecompressionError::UnallocatedStableId,
            )
        }
    }

    /// What `recompress` returns for a stable ID within reach of the floor
    /// cluster at table position `p`: the local form where the owner is the
    /// local session and the normalizer still holds the aligned local, the
    /// allocated final where one exists, and the exact error sub-case
    /// otherwise.
    pub open spec fn spec_recompress_covered(
        &self,
        s: int,
        p: int,
        r: Result<SessionSpaceId, RecompressionError>,
    ) -> bool {
        let v = self.sessions_view();
        let key = self.us_view()[p].0;
        let cref = self.us_view()[p].1;
        let cl = cluster_at(v, cref);
        let owner = v[cref.session_space_ref.index as int].session_id;
        let local = -(s - owner) - 1;
        if cref.session_space_ref.index == 0 {
            if runs_contain(self.norm_view(), local) {
                match r {
                    Ok(x) => x@ == local,
                    Err(_) => false,
                }
            } else if -local <= self.generated_count() {
                if s - key < cl.capacity {
                    match r {
                        Ok(x) => x@ == cl.base_final_id@ + (s - key),
                        Err(_) => false,
                    }
                } else {
                    r == Err::<SessionSpaceId, RecompressionError>(
                        RecompressionError::NoAllocatedFinal,
                    )
                }
            } else {
                r == Err::<SessionSpaceId, RecompressionError>(
                    RecompressionError::UngeneratedStableId,
                )
            }
        } else {
            if s - key < cl.count {
                if s - key < cl.capacity {
                    match r {
                        Ok(x) => x@ == cl.base_final_id@ + (s - key),
                        Err(_) => false,
                    }
                } else {
                    r == Err::<SessionSpaceId, RecompressionError>(
                        RecompressionError::NoAllocatedFinal,
                    )
                }
            } else {
                r == Err::<SessionSpaceId, RecompressionError>(
                    RecompressionError::UnfinalizedForeignId,
                )
            }
        }
    }

    /// What `normalize_to_session_space_with_token` returns for a local-form
    /// op-space ID `l` from the session at token `t`: the local itself where
    /// the normalizer still holds it, the chain-converted final where the
    /// originator's chain reserves one, and the exact error sub-case
    /// otherwise.
    pub open spec fn spec_normalize_local(
        &self,
        l: int,
        t: int,
        r: Result<SessionSpaceId, NormalizationError>,
    ) -> bool {
        let chain = self.sessions_view()[t].chain;
        if t == 0 {
            if runs_contain(self.norm_view(), l) {
                match r {
                    Ok(x) => x@ == l,
                    Err(_) => false,
                }
            } else if -l <= self.generated_count() {
                match spec_chain_convert(chain, l, true) {
                    Some(f) => match r {
                        Ok(x) => x@ == f,
                        Err(_) => false,
                    },
                    None => r == Err::<SessionSpaceId, NormalizationError>(
                        NormalizationError::NoAllocatedFinal,
                    ),
                }
            } else {
                r == Err::<SessionSpaceId, NormalizationError>(
                    NormalizationError::UnallocatedLocal,
                )
            }
        } else {
            match spec_chain_convert(chain, l, false) {
                Some(f) => match r {
                    Ok(x) => x@ == f,
                    Err(_) => false,
                },
                None => r == Err::<SessionSpaceId, NormalizationError>(
                    NormalizationError::UnfinalizedForeignLocal,
                ),
            }
        }
    }

    /// What `normalize_to_session_space_with_token` returns for a final-form
    /// op-space ID `f` that the local chain's cluster at position `k`
    /// covers: the aligned local where the normalizer still holds it, the
    /// final itself where the local session has generated that far, and
    /// `UngeneratedId` otherwise.
    pub open spec fn spec_normalize_covered_final(
        &self,
        f: int,
        k: int,
        r: Result<SessionSpaceId, NormalizationError>,
    ) -> bool {
        let chain = self.local_chain();
        let local = chain[k].base_local_id@ - (f - chain[k].base_final_id@);
        if runs_contain(self.norm_view(), local) {
            match r {
                Ok(x) => x@ == local,
                Err(_) => false,
            }
        } else if -local <= self.generated_count() {
            match r {
                Ok(x) => x@ == f,
                Err(_) => false,
            }
        } else {
            r == Err::<SessionSpaceId, NormalizationError>(NormalizationError::UngeneratedId)
        }
    }

    /// What `normalize_to_session_space_with_token` returns for a final-form
    /// op-space ID `f` that no local-chain cluster covers: the final itself
    /// when it lies below the finalized limit, else
    /// `UnFinalizedForeignFinal`.
    pub open spec fn spec_normalize_uncovered_final(
        &self,
        f: int,
        r: Result<SessionSpaceId, NormalizationError>,
    ) -> bool {
        if f >= self.limit_view() {
            r == Err::<SessionSpaceId, NormalizationError>(
                NormalizationError::UnFinalizedForeignFinal,
            )
        } else {
            match r {
                Ok(x) => x@ == f,
                Err(_) => false,
            }
        }
    }

    /// The machine limits under which one finalization step cannot
    /// overflow.
    pub open spec fn can_finalize(&self, first: int, count: int) -> bool {
        &&& 1 <= first
        &&& first + count + self.capacity_view() <= i64::MAX
        &&& self.total_allocated() + count + self.capacity_view() <= i64::MAX
        &&& self.sessions_view().len() < i64::MAX
    }

    /// All views and counters agree between the two compressors.
    pub open spec fn views_unchanged(a: &IdCompressor, b: &IdCompressor) -> bool {
        unchanged_core(a, b)
    }

    /// The common frame of every successful finalization: only the tables
    /// change.
    pub open spec fn finalize_frame(a: &IdCompressor, b: &IdCompressor) -> bool {
        &&& b.session_id_view() == a.session_id_view()
        &&& b.generated_count() == a.generated_count()
        &&& b.next_range_base_gen() == a.next_range_base_gen()
        &&& b.norm_view() == a.norm_view()
        &&& b.capacity_view() == a.capacity_view()
    }

    /// A successful finalization onto a fresh chain: one new cluster of
    /// `capacity + count` reserved IDs, `count` of them finalized, at the
    /// top of the final order.
    #[verifier::opaque]
    pub open spec fn outcome_fresh(a: &IdCompressor, b: &IdCompressor, sid: int, count: int) -> bool {
        let v = a.sessions_view();
        let existed = has_session(v, sid);
        let i = if existed {
            session_index_of(v, sid)
        } else {
            v.len() as int
        };
        let newc = b.sessions_view()[i].chain.last();
        &&& (existed ==> v[i].chain.len() == 0)
        &&& b.sessions_view().len() == (if existed {
            v.len() as int
        } else {
            v.len() + 1 as int
        })
        &&& forall|j: int| 0 <= j < v.len() && j != i ==> b.sessions_view()[j] == #[trigger] v[j]
        &&& b.sessions_view()[i].session_id == sid
        &&& b.sessions_view()[i].chain.len() == 1
        &&& newc.base_final_id@ == a.total_allocated()
        &&& newc.base_local_id@ == -1
        &&& newc.capacity == a.capacity_view() + count
        &&& newc.count == count
        &&& b.fs_view() == a.fs_view().push(spec_cluster_ref(i, 0))
        &&& us_inserted(a.us_view(), b.us_view(), sid, spec_cluster_ref(i, 0))
        &&& b.limit_view() == a.total_allocated() + count
    }

    /// A successful finalization that fits in the tail cluster's remaining
    /// capacity: only its finalized count grows.
    #[verifier::opaque]
    pub open spec fn outcome_fit(a: &IdCompressor, b: &IdCompressor, sid: int, count: int) -> bool {
        let v = a.sessions_view();
        let i = session_index_of(v, sid);
        let k = v[i].chain.len() - 1;
        let tail = v[i].chain.last();
        &&& count <= tail.capacity - tail.count
        &&& b.sessions_view() == crate::tables::session_space::spec_update_cluster(
            v,
            spec_cluster_ref(i, k),
            (ClusterProperties { count: (tail.count + count) as u64, ..tail }),
        )
        &&& b.fs_view() == a.fs_view()
        &&& b.us_view() == a.us_view()
        &&& b.limit_view() == cluster_at(b.sessions_view(), a.fs_view().last()).base_final_id@
            + cluster_at(b.sessions_view(), a.fs_view().last()).count
    }

    /// A successful finalization that overflows the tail cluster while it
    /// is also the top of the final order: the cluster grows in place by
    /// the overflow plus the configured capacity.
    #[verifier::opaque]
    pub open spec fn outcome_expand(a: &IdCompressor, b: &IdCompressor, sid: int, count: int) -> bool {
        let v = a.sessions_view();
        let i = session_index_of(v, sid);
        let k = v[i].chain.len() - 1;
        let tail = v[i].chain.last();
        let expand = count - (tail.capacity - tail.count) + a.capacity_view();
        &&& count > tail.capacity - tail.count
        &&& a.fs_view().last() == spec_cluster_ref(i, k)
        &&& b.sessions_view() == crate::tables::session_space::spec_update_cluster(
            v,
            spec_cluster_ref(i, k),
            (ClusterProperties {
                capacity: (tail.capacity + expand) as u64,
                count: (tail.count + count) as u64,
                ..tail
            }),
        )
        &&& b.fs_view() == a.fs_view()
        &&& b.us_view() == a.us_view()
        &&& b.limit_view() == tail.base_final_id@ + tail.count + count
    }

    /// A successful finalization that overflows a tail cluster buried in
    /// the final order: the tail fills and the overflow spills into a new
    /// cluster at the top of the final order.
    #[verifier::opaque]
    pub open spec fn outcome_spill(a: &IdCompressor, b: &IdCompressor, sid: int, count: int) -> bool {
        let v = a.sessions_view();
        let i = session_index_of(v, sid);
        let k = v[i].chain.len() - 1;
        let tail = v[i].chain.last();
        let overflow = count - (tail.capacity - tail.count);
        let newc = b.sessions_view()[i].chain.last();
        &&& count > tail.capacity - tail.count
        &&& a.fs_view().last() != spec_cluster_ref(i, k)
        &&& b.sessions_view().len() == v.len()
        &&& forall|j: int| 0 <= j < v.len() && j != i ==> b.sessions_view()[j] == #[trigger] v[j]
        &&& b.sessions_view()[i].session_id == sid
        &&& b.sessions_view()[i].chain == v[i].chain.update(
            k,
            (ClusterProperties { count: tail.capacity, ..tail }),
        ).push(newc)
        &&& newc.base_final_id@ == a.total_allocated()
        &&& newc.base_local_id@ == tail.base_local_id@ - tail.capacity
        &&& newc.capacity == overflow + a.capacity_view()
        &&& newc.count == overflow
        &&& b.fs_view() == a.fs_view().push(spec_cluster_ref(i, k + 1))
        &&& us_inserted(
            a.us_view(),
            b.us_view(),
            sid + (-tail.base_local_id@) + tail.capacity - 1,
            spec_cluster_ref(i, k + 1),
        )
        &&& b.limit_view() == a.total_allocated() + overflow
    }

    /// Which outcome a successful finalization onto a non-empty chain
    /// takes, decided by the old state alone: the range fits in the tail
    /// cluster's remaining capacity, or the tail closes the final order and
    /// expands in place, or the overflow spills into a new cluster.
    pub open spec fn outcome_onto_chain(
        a: &IdCompressor,
        b: &IdCompressor,
        sid: int,
        count: int,
    ) -> bool {
        let v = a.sessions_view();
        let i = session_index_of(v, sid);
        let k = v[i].chain.len() - 1;
        let tail = v[i].chain.last();
        if count <= tail.capacity - tail.count {
            IdCompressor::outcome_fit(a, b, sid, count)
        } else if a.fs_view().last() == spec_cluster_ref(i, k) {
            IdCompressor::outcome_expand(a, b, sid, count)
        } else {
            IdCompressor::outcome_spill(a, b, sid, count)
        }
    }
}


/// Interning a fresh session with an empty chain disturbs no table
/// invariant.
#[verifier::rlimit(100)]
#[verifier::spinoff_prover]
pub proof fn lemma_session_push_keeps_tables(
    v: Seq<SessionView>,
    fs: Seq<ClusterRef>,
    us: Seq<(int, ClusterRef)>,
    limit: int,
    sid: int,
)
    requires
        sessions_wf(v),
        tables_wf(v, fs, us, limit),
        0 <= sid < 0x04000000000000000000000000000000,
    ensures
        sessions_wf(v.push(SessionView { session_id: sid, chain: Seq::empty() })) || has_session(
            v,
            sid,
        ),
        tables_wf(v.push(SessionView { session_id: sid, chain: Seq::empty() }), fs, us, limit),
{
    let v2 = v.push(SessionView { session_id: sid, chain: Seq::empty() });
    lemma_tables_wf_elim(v, fs, us, limit);
    if !has_session(v, sid) {
        assert forall|a: int, b: int|
            0 <= a < v2.len() && 0 <= b < v2.len() && a != b implies (#[trigger] v2[a]).session_id
            != (#[trigger] v2[b]).session_id by {
            if a < v.len() && b < v.len() {
                assert(v[a].session_id != v[b].session_id);
            } else if a < v.len() {
                assert(v2[a] == v[a]);
            } else if b < v.len() {
                assert(v2[b] == v[b]);
            }
        }
        assert forall|j: int| 0 <= j < v2.len() implies session_wf(#[trigger] v2[j]) by {
            if j < v.len() {
                assert(v2[j] == v[j]);
                assert(session_wf(v[j]));
            } else {
                assert(v2[j].chain.len() == 0);
            }
        }
    }
    assert forall|p: int| 0 <= p < fs.len() implies cluster_at(v2, #[trigger] fs[p]) == cluster_at(
        v,
        fs[p],
    ) && valid_cluster_ref(v2, fs[p]) by {
        assert(valid_cluster_ref(v, fs[p]));
        assert(v2[fs[p].session_space_ref.index as int] == v[fs[p].session_space_ref.index as int]);
    }
    assert(fs_valid(v2, fs)) by {
        assert forall|p: int| 0 <= p < fs.len() implies valid_cluster_ref(v2, #[trigger] fs[p])
            && cluster_bounded(cluster_at(v2, fs[p])) by {
            assert(cluster_bounded(cluster_at(v, fs[p])));
        }
    }
    assert forall|p: int| 0 <= p < fs.len() implies cluster_at(v2, #[trigger] fs[p]).base_final_id@
        == fs_caps_sum(v2, fs.take(p)) by {
        assert(forall|q: int|
            0 <= q < fs.take(p).len() ==> cluster_at(v2, #[trigger] fs.take(p)[q]) == cluster_at(
                v,
                fs.take(p)[q],
            ));
        lemma_fs_caps_sum_congruence(v, v2, fs.take(p));
    }
    assert(us_wf(v2, us)) by {
        assert forall|p: int| 0 <= p < us.len() implies valid_cluster_ref(v2, (#[trigger] us[p]).1)
            && cluster_bounded(cluster_at(v2, us[p].1)) && session_wf(
            v2[us[p].1.session_space_ref.index as int],
        ) && us[p].0 == cluster_base_stable(v2, us[p].1) by {
            assert(valid_cluster_ref(v, us[p].1));
            assert(v2[us[p].1.session_space_ref.index as int] == v[us[
                p].1.session_space_ref.index as int]);
            assert(cluster_at(v2, us[p].1) == cluster_at(v, us[p].1));
        }
    }
    assert forall|i2: int, k2: int|
        0 <= i2 < v2.len() && 0 <= k2 < v2[i2].chain.len() implies #[trigger] fs_has_ref(
        fs,
        i2,
        k2,
    ) && us_has_ref(us, i2, k2) by {
        if i2 < v.len() {
            assert(v2[i2] == v[i2]);
        }
    }
    if fs.len() > 0 {
        assert(cluster_at(v2, fs.last()) == cluster_at(v, fs.last()));
    }
    lemma_tables_wf_intro(v2, fs, us, limit);
}

/// Pushing a session leaves the reserved total unchanged.
pub proof fn lemma_fs_caps_sum_congruence_on_push(
    v: Seq<SessionView>,
    v2: Seq<SessionView>,
    fs: Seq<ClusterRef>,
)
    requires
        fs_valid(v, fs),
        v2.len() >= v.len(),
        forall|j: int| 0 <= j < v.len() ==> #[trigger] v2[j] == v[j],
    ensures
        fs_caps_sum(v2, fs) == fs_caps_sum(v, fs),
{
    assert forall|p: int| 0 <= p < fs.len() implies cluster_at(v2, #[trigger] fs[p]) == cluster_at(
        v,
        fs[p],
    ) by {
        assert(valid_cluster_ref(v, fs[p]));
    }
    lemma_fs_caps_sum_congruence(v, v2, fs);
}

/// Under distinct identities, the chosen index of a session identity is
/// the index where it stands.
pub proof fn lemma_session_index_pin(v: Seq<SessionView>, sid: int, i: int)
    requires
        sessions_distinct(v),
        0 <= i < v.len(),
        v[i].session_id == sid,
    ensures
        has_session(v, sid),
        session_index_of(v, sid) == i,
{
    assert(has_session(v, sid));
    let j = session_index_of(v, sid);
    assert(0 <= j < v.len() && v[j].session_id == sid);
    if j != i {
        assert(v[j].session_id != v[i].session_id);
    }
}


/// A collision-free finalization leaves the base stable ID of the cluster
/// it is about to create unregistered.
#[verifier::rlimit(100)]
#[verifier::spinoff_prover]
pub proof fn lemma_fresh_key_from_no_collision(
    c: &IdCompressor,
    i: int,
    sid: int,
    first: int,
    count: int,
    key: int,
)
    requires
        c.wf(),
        0 <= i < c.sessions_view().len(),
        c.sessions_view()[i].session_id == sid,
        !c.spec_collides(sid, first, count),
        c.sessions_view()[i].chain.len() == 0 || sid + first - 1 > sid + caps_sum(
            c.sessions_view()[i].chain.take(c.sessions_view()[i].chain.len() - 1),
        ),
        key == sid + caps_sum(c.sessions_view()[i].chain),
        sid + first - 1 <= key <= c.spec_collides_hi(sid, first, count),
    ensures
        forall|p: int| 0 <= p < c.us_view().len() ==> (#[trigger] c.us_view()[p]).0 != key,
{
    reveal(IdCompressor::spec_collides);
    lemma_new_key_fresh(
        c.sessions_view(),
        c.fs_view(),
        c.us_view(),
        c.limit_view(),
        i,
        sid + first - 1,
        c.spec_collides_hi(sid, first, count),
        key,
    );
}

/// A collision-free first finalization of an unseen session leaves the
/// session's identity unregistered as a key.
#[verifier::rlimit(100)]
#[verifier::spinoff_prover]
pub proof fn lemma_fresh_key_missing(c: &IdCompressor, sid: int, first: int, count: int)
    requires
        c.wf(),
        !c.spec_collides(sid, first, count),
        !has_session(c.sessions_view(), sid),
        first == 1,
        1 <= count,
    ensures
        forall|p: int| 0 <= p < c.us_view().len() ==> (#[trigger] c.us_view()[p]).0 != sid,
{
    reveal(IdCompressor::spec_collides);
    let v = c.sessions_view();
    let us = c.us_view();
    let hi = c.spec_collides_hi(sid, first, count);
    lemma_tables_wf_elim_us(v, c.fs_view(), us, c.limit_view());
    assert forall|p: int| 0 <= p < us.len() implies (#[trigger] us[p]).0 != sid by {
        if us[p].0 == sid {
            lemma_us_floor_exists(us, hi, p);
            let f = choose|q: int| #[trigger] is_us_floor(us, hi, q);
            assert(us[f].0 >= us[p].0);
            assert(valid_cluster_ref(v, us[f].1));
            assert(cluster_bounded(cluster_at(v, us[f].1)));
            assert(us[f].0 + cluster_at(v, us[f].1).capacity - 1 >= sid);
            assert(v[us[f].1.session_space_ref.index as int].session_id == sid);
        }
    }
}


/// Packs the structural facts of a fresh-chain finalization into the
/// fresh outcome.
#[verifier::rlimit(100)]
#[verifier::spinoff_prover]
pub proof fn lemma_outcome_fresh_intro(
    a: &IdCompressor,
    b: &IdCompressor,
    sid: int,
    count: int,
    i: int,
)
    requires
        i == (if has_session(a.sessions_view(), sid) {
            session_index_of(a.sessions_view(), sid)
        } else {
            a.sessions_view().len() as int
        }),
        has_session(a.sessions_view(), sid) ==> a.sessions_view()[i].chain.len() == 0,
        b.sessions_view().len() == (if has_session(a.sessions_view(), sid) {
            a.sessions_view().len() as int
        } else {
            a.sessions_view().len() + 1 as int
        }),
        forall|j: int|
            0 <= j < a.sessions_view().len() && j != i ==> b.sessions_view()[j]
                == #[trigger] a.sessions_view()[j],
        0 <= i < b.sessions_view().len(),
        b.sessions_view()[i].session_id == sid,
        b.sessions_view()[i].chain.len() == 1,
        b.sessions_view()[i].chain.last().base_final_id@ == a.total_allocated(),
        b.sessions_view()[i].chain.last().base_local_id@ == -1,
        b.sessions_view()[i].chain.last().capacity == a.capacity_view() + count,
        b.sessions_view()[i].chain.last().count == count,
        b.fs_view() == a.fs_view().push(spec_cluster_ref(i, 0)),
        us_inserted(a.us_view(), b.us_view(), sid, spec_cluster_ref(i, 0)),
        b.limit_view() == a.total_allocated() + count,
    ensures
        IdCompressor::outcome_fresh(a, b, sid, count),
{
    reveal(IdCompressor::outcome_fresh);
}


/// What the floor check of the uuid order decides is exactly the collision
/// predicate.
#[verifier::rlimit(100)]
#[verifier::spinoff_prover]
pub proof fn lemma_collides_matches(
    c: &IdCompressor,
    sid: int,
    first: int,
    count: int,
    lo: int,
    hi: int,
)
    requires
        lo == sid + first - 1,
        hi == lo + count + c.capacity_view(),
    ensures
        c.spec_collides(sid, first, count) == (exists|p: int|
            {
                &&& #[trigger] is_us_floor(c.us_view(), hi, p)
                &&& c.sessions_view()[c.us_view()[p].1.session_space_ref.index
                    as int].session_id != sid
                &&& c.us_view()[p].0 + cluster_at(c.sessions_view(), c.us_view()[p].1).capacity
                    - 1 >= lo
            }),
{
    reveal(IdCompressor::spec_collides);
    let us = c.us_view();
    let v = c.sessions_view();
    let hi2 = c.spec_collides_hi(sid, first, count);
    assert(hi == hi2);
    if c.spec_collides(sid, first, count) {
        let p = choose|p: int|
            {
                &&& #[trigger] is_us_floor(us, hi2, p)
                &&& v[us[p].1.session_space_ref.index as int].session_id != sid
                &&& us[p].0 + cluster_at(v, us[p].1).capacity - 1 >= sid + first - 1
            };
        assert(is_us_floor(us, hi, p));
    }
    if exists|p: int|
        {
            &&& #[trigger] is_us_floor(us, hi, p)
            &&& v[us[p].1.session_space_ref.index as int].session_id != sid
            &&& us[p].0 + cluster_at(v, us[p].1).capacity - 1 >= lo
        } {
        let p = choose|p: int|
            {
                &&& #[trigger] is_us_floor(us, hi, p)
                &&& v[us[p].1.session_space_ref.index as int].session_id != sid
                &&& us[p].0 + cluster_at(v, us[p].1).capacity - 1 >= lo
            };
        assert(is_us_floor(us, hi2, p));
    }
}


/// Registering a fresh cluster preserves every invariant: the updated
/// session stays well formed and the three tables stay consistent.
#[verifier::rlimit(100)]
#[verifier::spinoff_prover]
pub proof fn lemma_register_cluster_wf(
    v: Seq<SessionView>,
    v2: Seq<SessionView>,
    fs: Seq<ClusterRef>,
    us: Seq<(int, ClusterRef)>,
    us2: Seq<(int, ClusterRef)>,
    ip: int,
    i: int,
    newc: ClusterProperties,
    cref: ClusterRef,
    limit: int,
    limit2: int,
)
    requires
        sessions_wf(v),
        tables_wf(v, fs, us, limit),
        v.len() <= usize::MAX,
        forall|j: int| 0 <= j < v.len() ==> (#[trigger] v[j]).chain.len() <= usize::MAX,
        0 <= i < v.len(),
        v2 == v.update(
            i,
            SessionView { session_id: v[i].session_id, chain: v[i].chain.push(newc) },
        ),
        cref == spec_cluster_ref(i, v[i].chain.len() as int),
        newc.base_local_id@ == -1 - caps_sum(v[i].chain),
        newc.base_final_id@ == fs_caps_sum(v, fs),
        1 <= newc.count <= newc.capacity,
        newc.base_final_id@ + newc.capacity <= i64::MAX,
        1 + caps_sum(v[i].chain) + newc.capacity <= i64::MAX,
        0 <= ip <= us.len(),
        us2 == us.insert(ip, (v[i].session_id + (-newc.base_local_id@) - 1, cref)),
        forall|p: int| 0 <= p < us2.len() - 1 ==> (#[trigger] us2[p]).0 < us2[p + 1].0,
        limit2 == newc.base_final_id@ + newc.count,
    ensures
        sessions_wf(v2),
        tables_wf(v2, fs.push(cref), us2, limit2),
        finals_bounded(v2) || !finals_bounded(v),
        fs_caps_sum(v2, fs.push(cref)) == fs_caps_sum(v, fs) + newc.capacity,
{
    let key = v[i].session_id + (-newc.base_local_id@) - 1;
    let fs2 = fs.push(cref);
    lemma_tables_wf_elim(v, fs, us, limit);
    lemma_session_wf_after_push(v, fs, i, newc);
    assert(session_wf(v2[i])) by {
        assert(v2[i].chain =~= v[i].chain.push(newc));
    }
    assert(sessions_wf(v2)) by {
        assert(forall|j: int|
            0 <= j < v2.len() && j != i ==> v2[j] == v[j] && session_wf(#[trigger] v2[j]));
    }
    assert(cluster_bounded(newc));
    lemma_fs_after_push(v, v2, fs, i, newc, cref);
    lemma_us_wf_after_insert(v, v2, us, us2, ip, i, newc, cref, key);
    lemma_us_after_insert(v, v2, us, us2, ip, i, newc, cref, key);
    assert forall|p: int| 0 <= p < fs.len() implies cluster_at(v2, #[trigger] fs[p]) == cluster_at(
        v,
        fs[p],
    ) by {
        assert(valid_cluster_ref(v, fs[p]));
    }
    lemma_fs_caps_sum_congruence(v, v2, fs);
    assert(fs2.drop_last() =~= fs);
    assert(fs_caps_sum(v2, fs2) == fs_caps_sum(v, fs) + newc.capacity);
    assert(fs2.last() == cref);
    assert(cluster_at(v2, cref) == newc);
    if finals_bounded(v) {
        assert forall|i2: int, k2: int|
            0 <= i2 < v2.len() && 0 <= k2 < v2[i2].chain.len() implies (#[trigger] v2[i2].chain[
        k2]).base_final_id@ + v2[i2].chain[k2].capacity <= i64::MAX by {
            if i2 == i && k2 == v[i].chain.len() {
                assert(v2[i2].chain[k2] == newc);
            } else {
                assert(v2[i2].chain[k2] == v[i2].chain[k2]);
            }
        }
    }
    lemma_tables_wf_intro(v2, fs2, us2, limit2);
}

/// The top of the final order ends exactly at the reserved total.
pub proof fn lemma_total_is_tail_end(
    v: Seq<SessionView>,
    fs: Seq<ClusterRef>,
    us: Seq<(int, ClusterRef)>,
    limit: int,
)
    requires
        tables_wf(v, fs, us, limit),
    ensures
        fs_valid(v, fs),
        forall|p: int| 0 <= p < us.len() - 1 ==> (#[trigger] us[p]).0 < us[p + 1].0,
        fs.len() > 0 ==> cluster_at(v, fs.last()).base_final_id@ + cluster_at(
            v,
            fs.last(),
        ).capacity == fs_caps_sum(v, fs),
        fs.len() == 0 ==> fs_caps_sum(v, fs) == 0,
{
    reveal(tables_wf);
    if fs.len() > 0 {
        lemma_fs_caps_sum_take(v, fs, fs.len() - 1);
        lemma_fs_caps_sum_take_all(v, fs);
        assert(fs.take(fs.len() - 1 + 1) =~= fs);
    }
}


/// Growing a cluster's finalized count, and its capacity when it closes
/// the final order, preserves every table invariant.
#[verifier::rlimit(100)]
#[verifier::spinoff_prover]
pub proof fn lemma_update_cluster_wf(
    v: Seq<SessionView>,
    v2: Seq<SessionView>,
    fs: Seq<ClusterRef>,
    us: Seq<(int, ClusterRef)>,
    i: int,
    k: int,
    c2: ClusterProperties,
    limit: int,
    limit2: int,
)
    requires
        sessions_wf(v),
        tables_wf(v, fs, us, limit),
        finals_bounded(v),
        v.len() <= usize::MAX,
        forall|j: int| 0 <= j < v.len() ==> (#[trigger] v[j]).chain.len() <= usize::MAX,
        0 <= i < v.len(),
        0 <= k,
        k == v[i].chain.len() - 1,
        c2.base_final_id == v[i].chain[k].base_final_id,
        c2.base_local_id == v[i].chain[k].base_local_id,
        v[i].chain[k].count <= c2.count <= c2.capacity,
        v[i].chain[k].capacity <= c2.capacity,
        c2.capacity > v[i].chain[k].capacity ==> fs.len() > 0 && fs.last() == spec_cluster_ref(
            i,
            k,
        ),
        c2.base_final_id@ + c2.capacity <= i64::MAX,
        1 + caps_sum(v[i].chain) + (c2.capacity - v[i].chain[k].capacity) <= i64::MAX,
        v2 == crate::tables::session_space::spec_update_cluster(v, spec_cluster_ref(i, k), c2),
        fs.len() > 0,
        limit2 == cluster_at(v2, fs.last()).base_final_id@ + cluster_at(v2, fs.last()).count,
    ensures
        sessions_wf(v2),
        tables_wf(v2, fs, us, limit2),
        finals_bounded(v2),
        fs_caps_sum(v2, fs) == fs_caps_sum(v, fs) + c2.capacity - v[i].chain[k].capacity,
{
    let cref = spec_cluster_ref(i, k);
    lemma_tables_wf_elim_refs(v, fs, us, limit);
    lemma_session_wf_after_update(v, i, k, c2);
    assert(session_wf(v2[i])) by {
        assert(v2[i].chain == v[i].chain.update(k, c2));
        assert(v2[i].session_id == v[i].session_id);
    }
    assert(sessions_wf(v2)) by {
        assert(forall|j: int|
            0 <= j < v2.len() && j != i ==> v2[j] == v[j] && session_wf(#[trigger] v2[j]));
    }
    assert(v2[i].chain[k] == c2);
    assert(cluster_bounded(c2));
    lemma_fs_after_update(v, v2, fs, us, i, k, c2, limit);
    lemma_us_wf_after_cluster_update(v, v2, us, i, k, c2);
    assert forall|i2: int, k2: int|
        0 <= i2 < v2.len() && 0 <= k2 < v2[i2].chain.len() implies #[trigger] fs_has_ref(
        fs,
        i2,
        k2,
    ) && us_has_ref(us, i2, k2) by {
        assert(0 <= i2 < v.len() && 0 <= k2 < v[i2].chain.len());
    }
    assert(finals_bounded(v2)) by {
        assert forall|i2: int, k2: int|
            0 <= i2 < v2.len() && 0 <= k2 < v2[i2].chain.len() implies (#[trigger] v2[i2].chain[
        k2]).base_final_id@ + v2[i2].chain[k2].capacity <= i64::MAX by {
            if i2 == i && k2 == k {
                assert(v2[i2].chain[k2] == c2);
            } else {
                assert(v2[i2].chain[k2] == v[i2].chain[k2]);
            }
        }
    }
    lemma_tables_wf_intro(v2, fs, us, limit2);
}

/// The uuid order stays well formed when one cluster's tail grows, since
/// keys depend only on base locals.
#[verifier::rlimit(100)]
#[verifier::spinoff_prover]
pub proof fn lemma_us_wf_after_cluster_update(
    v: Seq<SessionView>,
    v2: Seq<SessionView>,
    us: Seq<(int, ClusterRef)>,
    i: int,
    k: int,
    c2: ClusterProperties,
)
    requires
        us_wf(v, us),
        v.len() <= usize::MAX,
        forall|j: int| 0 <= j < v.len() ==> (#[trigger] v[j]).chain.len() <= usize::MAX,
        0 <= i < v.len(),
        0 <= k < v[i].chain.len(),
        c2.base_local_id == v[i].chain[k].base_local_id,
        cluster_bounded(c2),
        session_wf(v2[i]),
        v2 == crate::tables::session_space::spec_update_cluster(v, spec_cluster_ref(i, k), c2),
    ensures
        us_wf(v2, us),
{
    let cref = spec_cluster_ref(i, k);
    assert forall|p: int| 0 <= p < us.len() implies valid_cluster_ref(v2, (#[trigger] us[p]).1)
        && cluster_bounded(cluster_at(v2, us[p].1)) && session_wf(
        v2[us[p].1.session_space_ref.index as int],
    ) && us[p].0 == cluster_base_stable(v2, us[p].1) by {
        assert(valid_cluster_ref(v, us[p].1));
        assert(cluster_bounded(cluster_at(v, us[p].1)));
        if us[p].1 == cref {
            assert(cluster_at(v2, us[p].1) == c2);
        } else if us[p].1.session_space_ref.index as int == i {
            assert(cluster_at(v2, us[p].1) == cluster_at(v, us[p].1));
        } else {
            assert(v2[us[p].1.session_space_ref.index as int] == v[us[
                p].1.session_space_ref.index as int]);
        }
    }
}


/// Growing the tail cluster of a chain preserves the session's
/// well-formedness.
#[verifier::rlimit(100)]
#[verifier::spinoff_prover]
pub proof fn lemma_session_wf_after_update(v: Seq<SessionView>, i: int, k: int, c2: ClusterProperties)
    requires
        sessions_wf(v),
        0 <= i < v.len(),
        0 <= k,
        k == v[i].chain.len() - 1,
        c2.base_final_id == v[i].chain[k].base_final_id,
        c2.base_local_id == v[i].chain[k].base_local_id,
        v[i].chain[k].count <= c2.count <= c2.capacity,
        v[i].chain[k].capacity <= c2.capacity,
        c2.base_final_id@ + c2.capacity <= u64::MAX,
        1 + caps_sum(v[i].chain) + (c2.capacity - v[i].chain[k].capacity) <= i64::MAX,
    ensures
        session_wf(
            SessionView { session_id: v[i].session_id, chain: v[i].chain.update(k, c2) },
        ),
{
    let chain = v[i].chain;
    let chain2 = chain.update(k, c2);
    assert(session_wf(v[i]));
    assert(cluster_bounded(chain[k]));
    assert(caps_sum(chain2) == caps_sum(chain) + c2.capacity - chain[k].capacity) by {
        assert(chain2.drop_last() =~= chain.drop_last());
        assert(chain2.last() == c2);
        assert(chain.last() == chain[k]);
    }
    assert forall|k2: int| 0 <= k2 < chain2.len() implies (#[trigger] chain2[k2]).base_local_id@
        == -1 - caps_sum(chain2.take(k2)) by {
        assert(chain2.take(k2) =~= chain.take(k2));
        assert(chain[k2].base_local_id@ == -1 - caps_sum(chain.take(k2)));
        if k2 < k {
            assert(chain2[k2] == chain[k2]);
        }
    }
    assert forall|k2: int| 0 <= k2 < chain2.len() - 1 implies (#[trigger] chain2[k2]).base_final_id@
        + chain2[k2].capacity <= chain2[k2 + 1].base_final_id@ by {
        assert(chain2[k2] == chain[k2] && chain2[k2 + 1] == chain[k2 + 1] || k2 + 1 == k);
        assert(chain[k2].base_final_id@ + chain[k2].capacity <= chain[k2 + 1].base_final_id@);
    }
    assert forall|k2: int| 0 <= k2 < chain2.len() implies cluster_bounded(#[trigger] chain2[k2])
        && chain2[k2].count >= 1 by {
        if k2 != k {
            assert(chain2[k2] == chain[k2]);
        }
        assert(cluster_bounded(chain[k2]));
    }
}

/// Growing the capacity of the cluster that closes the final order keeps
/// the tiling; the sum grows by the difference.
#[verifier::rlimit(100)]
#[verifier::spinoff_prover]
pub proof fn lemma_fs_after_update(
    v: Seq<SessionView>,
    v2: Seq<SessionView>,
    fs: Seq<ClusterRef>,
    us: Seq<(int, ClusterRef)>,
    i: int,
    k: int,
    c2: ClusterProperties,
    limit: int,
)
    requires
        sessions_wf(v),
        tables_wf(v, fs, us, limit),
        v.len() <= usize::MAX,
        forall|j: int| 0 <= j < v.len() ==> (#[trigger] v[j]).chain.len() <= usize::MAX,
        0 <= i < v.len(),
        0 <= k < v[i].chain.len(),
        c2.base_final_id == v[i].chain[k].base_final_id,
        v[i].chain[k].count <= c2.count <= c2.capacity,
        v[i].chain[k].capacity <= c2.capacity,
        c2.capacity > v[i].chain[k].capacity ==> fs.len() > 0 && fs.last() == spec_cluster_ref(
            i,
            k,
        ),
        c2.base_final_id@ + c2.capacity <= u64::MAX,
        cluster_bounded(c2),
        v2 == crate::tables::session_space::spec_update_cluster(v, spec_cluster_ref(i, k), c2),
    ensures
        fs_valid(v2, fs),
        forall|p: int|
            0 <= p < fs.len() ==> cluster_at(v2, #[trigger] fs[p]).base_final_id@ == fs_caps_sum(
                v2,
                fs.take(p),
            ),
        fs_caps_sum(v2, fs) == fs_caps_sum(v, fs) + c2.capacity - v[i].chain[k].capacity,
{
    let cref = spec_cluster_ref(i, k);
    lemma_tables_wf_elim_fs(v, fs, us, limit);
    assert(session_wf(v[i]));
    assert(cluster_bounded(v[i].chain[k]));
    assert(cluster_at(v, cref) == v[i].chain[k]);
    assert(cluster_at(v2, cref) == c2);
    assert forall|p: int| 0 <= p < fs.len() implies cluster_at(v2, #[trigger] fs[p]) == (if fs[p]
        == cref {
        c2
    } else {
        cluster_at(v, fs[p])
    }) by {
        assert(valid_cluster_ref(v, fs[p]));
    }
    lemma_fs_valid_after_update(v, v2, fs, us, i, k, c2, limit);
    lemma_fs_tiling_after_update(v, v2, fs, us, i, k, c2, limit);
    lemma_fs_total_after_update(v, v2, fs, us, i, k, c2, limit);
}

/// Every reference of the final order stays valid and bounded after the
/// update.
#[verifier::rlimit(100)]
#[verifier::spinoff_prover]
pub proof fn lemma_fs_valid_after_update(
    v: Seq<SessionView>,
    v2: Seq<SessionView>,
    fs: Seq<ClusterRef>,
    us: Seq<(int, ClusterRef)>,
    i: int,
    k: int,
    c2: ClusterProperties,
    limit: int,
)
    requires
        tables_wf(v, fs, us, limit),
        v.len() <= usize::MAX,
        forall|j: int| 0 <= j < v.len() ==> (#[trigger] v[j]).chain.len() <= usize::MAX,
        0 <= i < v.len(),
        0 <= k < v[i].chain.len(),
        cluster_bounded(c2),
        v2 == crate::tables::session_space::spec_update_cluster(v, spec_cluster_ref(i, k), c2),
        forall|p: int|
            0 <= p < fs.len() ==> cluster_at(v2, #[trigger] fs[p]) == (if fs[p]
                == spec_cluster_ref(i, k) {
                c2
            } else {
                cluster_at(v, fs[p])
            }),
    ensures
        fs_valid(v2, fs),
{
    lemma_tables_wf_elim_fs(v, fs, us, limit);
    assert forall|p: int| 0 <= p < fs.len() implies valid_cluster_ref(v2, #[trigger] fs[p])
        && cluster_bounded(cluster_at(v2, fs[p])) by {
        assert(valid_cluster_ref(v, fs[p]));
        assert(cluster_bounded(cluster_at(v, fs[p])));
    }
}

/// The tiling of base final IDs survives growing one cluster's tail/// The tiling of base final IDs survives growing one cluster's tail
/// capacity, because prefixes never include the cluster that closes the
/// order.
#[verifier::rlimit(100)]
#[verifier::spinoff_prover]
pub proof fn lemma_fs_tiling_after_update(
    v: Seq<SessionView>,
    v2: Seq<SessionView>,
    fs: Seq<ClusterRef>,
    us: Seq<(int, ClusterRef)>,
    i: int,
    k: int,
    c2: ClusterProperties,
    limit: int,
)
    requires
        tables_wf(v, fs, us, limit),
        v.len() <= usize::MAX,
        forall|j: int| 0 <= j < v.len() ==> (#[trigger] v[j]).chain.len() <= usize::MAX,
        0 <= i < v.len(),
        0 <= k < v[i].chain.len(),
        v[i].chain[k].capacity <= c2.capacity,
        c2.base_final_id == v[i].chain[k].base_final_id,
        c2.capacity > v[i].chain[k].capacity ==> fs.len() > 0 && fs.last() == spec_cluster_ref(
            i,
            k,
        ),
        v2 == crate::tables::session_space::spec_update_cluster(v, spec_cluster_ref(i, k), c2),
        forall|p: int|
            0 <= p < fs.len() ==> cluster_at(v2, #[trigger] fs[p]) == (if fs[p]
                == spec_cluster_ref(i, k) {
                c2
            } else {
                cluster_at(v, fs[p])
            }),
    ensures
        forall|p: int|
            0 <= p < fs.len() ==> cluster_at(v2, #[trigger] fs[p]).base_final_id@ == fs_caps_sum(
                v2,
                fs.take(p),
            ),
{
    let cref = spec_cluster_ref(i, k);
    lemma_tables_wf_elim_fs(v, fs, us, limit);
    assert(cluster_at(v, cref) == v[i].chain[k]);
    assert(cluster_at(v2, cref) == c2);
    assert forall|p: int| 0 <= p < fs.len() implies cluster_at(v2, #[trigger] fs[p]).base_final_id@
        == cluster_at(v, fs[p]).base_final_id@ by {
        assert(cluster_at(v2, fs[p]) == (if fs[p] == cref {
            c2
        } else {
            cluster_at(v, fs[p])
        }));
    }
    if c2.capacity == v[i].chain[k].capacity {
        assert forall|q: int| 0 <= q < fs.len() implies cluster_at(v2, #[trigger] fs[q]).capacity
            == cluster_at(v, fs[q]).capacity by {
            assert(cluster_at(v2, fs[q]) == (if fs[q] == cref {
                c2
            } else {
                cluster_at(v, fs[q])
            }));
        }
        assert forall|p: int| 0 <= p < fs.len() implies cluster_at(
            v2,
            #[trigger] fs[p],
        ).base_final_id@ == fs_caps_sum(v2, fs.take(p)) by {
            assert forall|q: int| 0 <= q < fs.take(p).len() implies cluster_at(
                v2,
                #[trigger] fs.take(p)[q],
            ).capacity == cluster_at(v, fs.take(p)[q]).capacity by {
                assert(fs.take(p)[q] == fs[q]);
            }
            lemma_fs_caps_sum_capacity_congruence(v, v2, fs.take(p));
        }
    } else {
        assert(fs.last() == cref);
        assert forall|q: int| 0 <= q < fs.len() - 1 implies cluster_at(v2, #[trigger] fs[q])
            == cluster_at(v, fs[q]) by {
            lemma_fs_index_unique(v, fs, us, limit, fs.len() - 1, q);
        }
        assert forall|p: int| 0 <= p < fs.len() implies cluster_at(
            v2,
            #[trigger] fs[p],
        ).base_final_id@ == fs_caps_sum(v2, fs.take(p)) by {
            assert forall|q: int| 0 <= q < fs.take(p).len() implies cluster_at(
                v2,
                #[trigger] fs.take(p)[q],
            ) == cluster_at(v, fs.take(p)[q]) by {
                assert(fs.take(p)[q] == fs[q]);
            }
            lemma_fs_caps_sum_congruence(v, v2, fs.take(p));
        }
    }
}

/// The reserved total grows by exactly the capacity added to the cluster
/// that closes the final order.
#[verifier::rlimit(100)]
#[verifier::spinoff_prover]
pub proof fn lemma_fs_total_after_update(
    v: Seq<SessionView>,
    v2: Seq<SessionView>,
    fs: Seq<ClusterRef>,
    us: Seq<(int, ClusterRef)>,
    i: int,
    k: int,
    c2: ClusterProperties,
    limit: int,
)
    requires
        tables_wf(v, fs, us, limit),
        v.len() <= usize::MAX,
        forall|j: int| 0 <= j < v.len() ==> (#[trigger] v[j]).chain.len() <= usize::MAX,
        0 <= i < v.len(),
        0 <= k < v[i].chain.len(),
        c2.capacity > v[i].chain[k].capacity ==> fs.len() > 0 && fs.last() == spec_cluster_ref(
            i,
            k,
        ),
        v2 == crate::tables::session_space::spec_update_cluster(v, spec_cluster_ref(i, k), c2),
        forall|p: int|
            0 <= p < fs.len() ==> cluster_at(v2, #[trigger] fs[p]) == (if fs[p]
                == spec_cluster_ref(i, k) {
                c2
            } else {
                cluster_at(v, fs[p])
            }),
        v[i].chain[k].capacity <= c2.capacity,
    ensures
        fs_caps_sum(v2, fs) == fs_caps_sum(v, fs) + c2.capacity - v[i].chain[k].capacity,
{
    let cref = spec_cluster_ref(i, k);
    lemma_tables_wf_elim_fs(v, fs, us, limit);
    if c2.capacity == v[i].chain[k].capacity {
        assert(forall|p: int|
            0 <= p < fs.len() ==> cluster_at(v2, #[trigger] fs[p]).capacity == cluster_at(
                v,
                fs[p],
            ).capacity);
        lemma_fs_caps_sum_capacity_congruence(v, v2, fs);
    } else {
        assert(fs.last() == cref);
        assert forall|q: int| 0 <= q < fs.drop_last().len() implies cluster_at(
            v2,
            #[trigger] fs.drop_last()[q],
        ) == cluster_at(v, fs.drop_last()[q]) by {
            assert(fs.drop_last()[q] == fs[q]);
            if fs[q] == cref {
                lemma_fs_index_unique(v, fs, us, limit, fs.len() - 1, q);
            }
        }
        lemma_fs_caps_sum_congruence(v, v2, fs.drop_last());
        assert(fs.drop_last() =~= fs.drop_last());
        assert(fs_caps_sum(v2, fs) == fs_caps_sum(v2, fs.drop_last()) + cluster_at(
            v2,
            fs.last(),
        ).capacity);
        assert(fs_caps_sum(v, fs) == fs_caps_sum(v, fs.drop_last()) + cluster_at(
            v,
            fs.last(),
        ).capacity);
    }
}

/// Positions in the final order denote distinct clusters.
pub proof fn lemma_fs_index_unique(
    v: Seq<SessionView>,
    fs: Seq<ClusterRef>,
    us: Seq<(int, ClusterRef)>,
    limit: int,
    p: int,
    q: int,
)
    requires
        tables_wf(v, fs, us, limit),
        0 <= p < fs.len(),
        0 <= q < fs.len(),
        p != q,
    ensures
        fs[p] != fs[q],
{
    reveal(tables_wf);
}

/// Capacity sums agree when every cluster's capacity agrees.
pub proof fn lemma_fs_caps_sum_capacity_congruence(
    va: Seq<SessionView>,
    vb: Seq<SessionView>,
    fs: Seq<ClusterRef>,
)
    requires
        forall|p: int|
            0 <= p < fs.len() ==> cluster_at(vb, #[trigger] fs[p]).capacity == cluster_at(
                va,
                fs[p],
            ).capacity,
    ensures
        fs_caps_sum(vb, fs) == fs_caps_sum(va, fs),
    decreases fs.len(),
{
    if fs.len() > 0 {
        assert(forall|p: int|
            0 <= p < fs.len() - 1 ==> cluster_at(vb, #[trigger] fs.drop_last()[p]).capacity
                == cluster_at(va, fs.drop_last()[p]).capacity);
        lemma_fs_caps_sum_capacity_congruence(va, vb, fs.drop_last());
    }
}

/// No registered key equals the base stable ID of a cluster that a
/// collision-free finalization is about to create for session `i`.
#[verifier::rlimit(100)]
#[verifier::spinoff_prover]
pub proof fn lemma_new_key_fresh(
    v: Seq<SessionView>,
    fs: Seq<ClusterRef>,
    us: Seq<(int, ClusterRef)>,
    limit: int,
    i: int,
    lo: int,
    hi: int,
    key: int,
)
    requires
        sessions_wf(v),
        tables_wf(v, fs, us, limit),
        0 <= i < v.len(),
        v[i].chain.len() == 0 || lo > v[i].session_id + caps_sum(
            v[i].chain.take(v[i].chain.len() - 1),
        ),
        key == v[i].session_id + caps_sum(v[i].chain),
        lo <= key <= hi,
        !(exists|p: int|
            {
                &&& #[trigger] is_us_floor(us, hi, p)
                &&& v[us[p].1.session_space_ref.index as int].session_id != v[i].session_id
                &&& us[p].0 + cluster_at(v, us[p].1).capacity - 1 >= lo
            }),
    ensures
        forall|p: int| 0 <= p < us.len() ==> (#[trigger] us[p]).0 != key,
{
    lemma_tables_wf_elim(v, fs, us, limit);
    // every registered key of session i lies strictly below the range base
    assert forall|p: int| 0 <= p < us.len() && (#[trigger] us[p]).1.session_space_ref.index as int
        == i implies us[p].0 < lo by {
        let k = us[p].1.cluster_chain_index as int;
        assert(us[p].0 == cluster_base_stable(v, us[p].1));
        assert(session_wf(v[i]));
        assert(v[i].chain[k].base_local_id@ == -1 - caps_sum(v[i].chain.take(k)));
        assert forall|k2: int| 0 <= k2 < v[i].chain.len() implies (
        #[trigger] v[i].chain[k2]).capacity >= 0 by {
            assert(cluster_bounded(v[i].chain[k2]));
        }
        crate::tables::session_space::lemma_caps_sum_take_mono(v[i].chain, k, v[i].chain.len() - 1);
        assert(cluster_bounded(v[i].chain[k]));
    }
    assert forall|p: int| 0 <= p < us.len() implies (#[trigger] us[p]).0 != key by {
        if us[p].0 == key {
            lemma_us_floor_exists(us, hi, p);
            let f = choose|q: int| #[trigger] is_us_floor(us, hi, q);
            assert(us[f].0 >= us[p].0);
            assert(cluster_bounded(cluster_at(v, us[f].1)));
            assert(us[f].0 + cluster_at(v, us[f].1).capacity - 1 >= lo);
            assert(v[us[f].1.session_space_ref.index as int].session_id == v[i].session_id);
            assert(us[f].1.session_space_ref.index as int == i);
            assert(us[f].0 < lo);
        }
    }
}




/// Unpacks the duplicate-freedom, completeness and uuid-order parts of the
/// table invariants.
pub proof fn lemma_tables_wf_elim_refs(
    v: Seq<SessionView>,
    fs: Seq<ClusterRef>,
    us: Seq<(int, ClusterRef)>,
    limit: int,
)
    requires
        tables_wf(v, fs, us, limit),
    ensures
        forall|p: int, q: int|
            0 <= p < fs.len() && 0 <= q < fs.len() && p != q ==> #[trigger] fs[p] != #[trigger] fs[q],
        forall|i2: int, k2: int|
            0 <= i2 < v.len() && 0 <= k2 < v[i2].chain.len() ==> #[trigger] fs_has_ref(fs, i2, k2),
        forall|i2: int, k2: int|
            0 <= i2 < v.len() && 0 <= k2 < v[i2].chain.len() ==> #[trigger] us_has_ref(us, i2, k2),
        us_wf(v, us),
{
    reveal(tables_wf);
}

/// Unpacks only the uuid-order invariant.
pub proof fn lemma_tables_wf_elim_us(
    v: Seq<SessionView>,
    fs: Seq<ClusterRef>,
    us: Seq<(int, ClusterRef)>,
    limit: int,
)
    requires
        tables_wf(v, fs, us, limit),
    ensures
        us_wf(v, us),
{
    reveal(tables_wf);
}

/// A session with a cluster implies a non-empty final order, and the
/// cluster's reserved run ends at or before the reserved total.
pub proof fn lemma_chain_cluster_end_le_total(
    v: Seq<SessionView>,
    fs: Seq<ClusterRef>,
    us: Seq<(int, ClusterRef)>,
    limit: int,
    i: int,
    k: int,
)
    requires
        tables_wf(v, fs, us, limit),
        v.len() <= usize::MAX,
        forall|j: int| 0 <= j < v.len() ==> (#[trigger] v[j]).chain.len() <= usize::MAX,
        0 <= i < v.len(),
        0 <= k < v[i].chain.len(),
    ensures
        fs.len() > 0,
        v[i].chain[k].base_final_id@ + v[i].chain[k].capacity <= fs_caps_sum(v, fs),
{
    reveal(tables_wf);
    assert(fs_has_ref(fs, i, k));
    let p = choose|p: int| 0 <= p < fs.len() && #[trigger] fs[p] == spec_cluster_ref(i, k);
    lemma_fs_caps_sum_take(v, fs, p);
    lemma_fs_caps_sum_take_mono(v, fs, p + 1, fs.len() as int);
    lemma_fs_caps_sum_take_all(v, fs);
    assert(cluster_at(v, fs[p]) == v[i].chain[k]);
}

/// Reading the closing cluster of the final order commutes with updating a
/// different cluster.
pub proof fn lemma_last_cluster_preserved(
    v: Seq<SessionView>,
    v2: Seq<SessionView>,
    fs: Seq<ClusterRef>,
    us: Seq<(int, ClusterRef)>,
    limit: int,
    i: int,
    k: int,
    c2: ClusterProperties,
)
    requires
        tables_wf(v, fs, us, limit),
        v.len() <= usize::MAX,
        forall|j: int| 0 <= j < v.len() ==> (#[trigger] v[j]).chain.len() <= usize::MAX,
        fs.len() > 0,
        fs.last() != spec_cluster_ref(i, k),
        0 <= i < v.len(),
        0 <= k < v[i].chain.len(),
        v2 == crate::tables::session_space::spec_update_cluster(v, spec_cluster_ref(i, k), c2),
    ensures
        cluster_at(v2, fs.last()) == cluster_at(v, fs.last()),
{
    reveal(tables_wf);
    assert(valid_cluster_ref(v, fs.last()));
    let r = fs.last();
    if r.session_space_ref.index as int == i {
        assert(r.cluster_chain_index != k as usize);
        assert(v2[i].chain == v[i].chain.update(k, c2));
        assert(cluster_at(v2, r) == v[i].chain[r.cluster_chain_index as int]);
    } else {
        assert(v2[r.session_space_ref.index as int] == v[r.session_space_ref.index as int]);
    }
}


/// Growing only a cluster's finalized count leaves the reserved total
/// unchanged.
pub proof fn lemma_total_preserved_under_count_update(
    v: Seq<SessionView>,
    v2: Seq<SessionView>,
    fs: Seq<ClusterRef>,
    us: Seq<(int, ClusterRef)>,
    limit: int,
    i: int,
    k: int,
    c2: ClusterProperties,
)
    requires
        tables_wf(v, fs, us, limit),
        v.len() <= usize::MAX,
        forall|j: int| 0 <= j < v.len() ==> (#[trigger] v[j]).chain.len() <= usize::MAX,
        0 <= i < v.len(),
        0 <= k < v[i].chain.len(),
        c2.capacity == v[i].chain[k].capacity,
        v2 == crate::tables::session_space::spec_update_cluster(v, spec_cluster_ref(i, k), c2),
    ensures
        fs_caps_sum(v2, fs) == fs_caps_sum(v, fs),
{
    reveal(tables_wf);
    assert forall|p: int| 0 <= p < fs.len() implies cluster_at(v2, #[trigger] fs[p]).capacity
        == cluster_at(v, fs[p]).capacity by {
        assert(valid_cluster_ref(v, fs[p]));
    }
    lemma_fs_caps_sum_capacity_congruence(v, v2, fs);
}




/// The closing cluster of a non-empty final order is a valid, bounded
/// cluster.
pub proof fn lemma_last_cluster_facts(
    v: Seq<SessionView>,
    fs: Seq<ClusterRef>,
    us: Seq<(int, ClusterRef)>,
    limit: int,
)
    requires
        tables_wf(v, fs, us, limit),
        fs.len() > 0,
    ensures
        valid_cluster_ref(v, fs.last()),
        cluster_bounded(cluster_at(v, fs.last())),
{
    reveal(tables_wf);
}


/// Unpacks only the final-order parts of the table invariants.
pub proof fn lemma_tables_wf_elim_fs(
    v: Seq<SessionView>,
    fs: Seq<ClusterRef>,
    us: Seq<(int, ClusterRef)>,
    limit: int,
)
    requires
        tables_wf(v, fs, us, limit),
    ensures
        fs_valid(v, fs),
        forall|p: int, q: int|
            0 <= p < fs.len() && 0 <= q < fs.len() && p != q ==> #[trigger] fs[p] != #[trigger] fs[q],
        forall|p: int|
            0 <= p < fs.len() ==> cluster_at(v, #[trigger] fs[p]).base_final_id@ == fs_caps_sum(
                v,
                fs.take(p),
            ),
{
    reveal(tables_wf);
}

/// Unpacks the table invariants into their parts.
pub proof fn lemma_tables_wf_elim(
    v: Seq<SessionView>,
    fs: Seq<ClusterRef>,
    us: Seq<(int, ClusterRef)>,
    limit: int,
)
    requires
        tables_wf(v, fs, us, limit),
    ensures
        fs_valid(v, fs),
        forall|p: int, q: int|
            0 <= p < fs.len() && 0 <= q < fs.len() && p != q ==> #[trigger] fs[p] != #[trigger] fs[q],
        forall|i2: int, k2: int|
            0 <= i2 < v.len() && 0 <= k2 < v[i2].chain.len() ==> #[trigger] fs_has_ref(fs, i2, k2),
        forall|p: int|
            0 <= p < fs.len() ==> cluster_at(v, #[trigger] fs[p]).base_final_id@ == fs_caps_sum(
                v,
                fs.take(p),
            ),
        us_wf(v, us),
        forall|i2: int, k2: int|
            0 <= i2 < v.len() && 0 <= k2 < v[i2].chain.len() ==> #[trigger] us_has_ref(us, i2, k2),
        limit == (if fs.len() == 0 {
            0
        } else {
            cluster_at(v, fs.last()).base_final_id@ + cluster_at(v, fs.last()).count
        }),
{
    reveal(tables_wf);
}

/// Packs the table invariants from their parts.
pub proof fn lemma_tables_wf_intro(
    v: Seq<SessionView>,
    fs: Seq<ClusterRef>,
    us: Seq<(int, ClusterRef)>,
    limit: int,
)
    requires
        fs_valid(v, fs),
        forall|p: int, q: int|
            0 <= p < fs.len() && 0 <= q < fs.len() && p != q ==> #[trigger] fs[p] != #[trigger] fs[q],
        forall|i2: int, k2: int|
            0 <= i2 < v.len() && 0 <= k2 < v[i2].chain.len() ==> #[trigger] fs_has_ref(fs, i2, k2),
        forall|p: int|
            0 <= p < fs.len() ==> cluster_at(v, #[trigger] fs[p]).base_final_id@ == fs_caps_sum(
                v,
                fs.take(p),
            ),
        us_wf(v, us),
        forall|i2: int, k2: int|
            0 <= i2 < v.len() && 0 <= k2 < v[i2].chain.len() ==> #[trigger] us_has_ref(us, i2, k2),
        limit == (if fs.len() == 0 {
            0
        } else {
            cluster_at(v, fs.last()).base_final_id@ + cluster_at(v, fs.last()).count
        }),
    ensures
        tables_wf(v, fs, us, limit),
{
    reveal(tables_wf);
}


/// A converted final stays within the signed range.
pub proof fn lemma_chain_convert_bounded(chain: Seq<ClusterProperties>, local: int)
    requires
        crate::tables::session_space::chain_bounded(chain),
        forall|k: int|
            0 <= k < chain.len() ==> (#[trigger] chain[k]).base_final_id@ + chain[k].capacity
                <= i64::MAX,
        spec_chain_convert(chain, local, true) is Some || spec_chain_convert(
            chain,
            local,
            false,
        ) is Some,
    ensures
        spec_chain_convert(chain, local, true) is Some ==> 0 <= spec_chain_convert(
            chain,
            local,
            true,
        )->Some_0 <= i64::MAX,
        spec_chain_convert(chain, local, false) is Some ==> 0 <= spec_chain_convert(
            chain,
            local,
            false,
        )->Some_0 <= i64::MAX,
{
    if spec_chain_convert(chain, local, true) is Some {
        let k = choose|k: int| chain_covers(chain, k, local, true);
        assert(cluster_bounded(chain[k]));
    }
    if spec_chain_convert(chain, local, false) is Some {
        let k = choose|k: int| chain_covers(chain, k, local, false);
        assert(cluster_bounded(chain[k]));
    }
}

/// A local aligned with a covered final lies within the machine range.
pub proof fn lemma_aligned_local_bounded(chain: Seq<ClusterProperties>, k: int, f: int)
    requires
        crate::tables::session_space::chain_bounded(chain),
        0 <= k < chain.len(),
    ensures
        cluster_bounded(chain[k]),
{
    assert(cluster_bounded(chain[k]));
}

/// A final allocated to a covered local lies within the signed range.
pub proof fn lemma_allocated_final_bounded(chain: Seq<ClusterProperties>, k: int, local: int)
    requires
        crate::tables::session_space::chain_bounded(chain),
        forall|k2: int|
            0 <= k2 < chain.len() ==> (#[trigger] chain[k2]).base_final_id@ + chain[k2].capacity
                <= i64::MAX,
        0 <= k < chain.len(),
    ensures
        cluster_bounded(chain[k]),
        chain[k].base_final_id@ + chain[k].capacity <= i64::MAX,
{
    assert(cluster_bounded(chain[k]));
}

/// The tiling of the final order yields ascending, disjoint runs.
pub proof fn lemma_fs_ascending_from_tiling(
    v: Seq<SessionView>,
    fs: Seq<ClusterRef>,
    us: Seq<(int, ClusterRef)>,
    limit: int,
)
    requires
        tables_wf(v, fs, us, limit),
    ensures
        fs_finals_ascending(v, fs),
{
    reveal(tables_wf);
    assert forall|p: int| 0 <= p < fs.len() - 1 implies cluster_at(v, #[trigger] fs[p]).base_final_id@
        + cluster_at(v, fs[p]).capacity <= cluster_at(v, fs[p + 1]).base_final_id@ by {
        lemma_fs_caps_sum_take(v, fs, p);
    }
}


/// Under the ascending tiling, at most one cluster of the final order
/// covers a given final.
pub proof fn lemma_fs_covers_unique(
    v: Seq<SessionView>,
    fs: Seq<ClusterRef>,
    p: int,
    q: int,
    f: int,
)
    requires
        fs_valid(v, fs),
        fs_finals_ascending(v, fs),
        fs_covers(v, fs, p, f),
        fs_covers(v, fs, q, f),
    ensures
        p == q,
{
    if p < q {
        crate::tables::final_space::lemma_fs_finals_between(v, fs, p, q);
    }
    if q < p {
        crate::tables::final_space::lemma_fs_finals_between(v, fs, q, p);
    }
}

/// In a chain with ascending, disjoint final runs, at most one cluster
/// covers a given final.
pub proof fn lemma_chain_covers_final_unique(
    chain: Seq<ClusterProperties>,
    a: int,
    b: int,
    f: int,
)
    requires
        crate::tables::session_space::chain_finals_ascending(chain),
        chain_bounded(chain),
        chain_covers_final(chain, a, f),
        chain_covers_final(chain, b, f),
    ensures
        a == b,
{
    if a < b {
        crate::tables::session_space::lemma_chain_finals_between(chain, a, b);
    }
    if b < a {
        crate::tables::session_space::lemma_chain_finals_between(chain, b, a);
    }
}

/// Capacity sums are non-negative for bounded chains.
pub proof fn lemma_caps_sum_nonneg(chain: Seq<ClusterProperties>)
    requires
        chain_bounded(chain),
    ensures
        caps_sum(chain) >= 0,
    decreases chain.len(),
{
    if chain.len() > 0 {
        assert(cluster_bounded(chain.last()));
        assert(chain_bounded(chain.drop_last())) by {
            assert(forall|k: int|
                0 <= k < chain.len() - 1 ==> chain.drop_last()[k] == #[trigger] chain[k]);
            assert forall|k: int| 0 <= k < chain.drop_last().len() implies cluster_bounded(
                #[trigger] chain.drop_last()[k],
            ) && chain.drop_last()[k].count >= 1 by {
                assert(chain.drop_last()[k] == chain[k]);
                assert(cluster_bounded(chain[k]));
            }
        }
        lemma_caps_sum_nonneg(chain.drop_last());
    }
}

/// Appending a cluster whose base local continues the packed chain and
/// whose final run starts at the top of the final order keeps the owning
/// session well formed.
#[verifier::rlimit(100)]
#[verifier::spinoff_prover]
pub proof fn lemma_session_wf_after_push(
    v: Seq<SessionView>,
    fs: Seq<ClusterRef>,
    i: int,
    newc: ClusterProperties,
)
    requires
        v.len() <= usize::MAX,
        forall|j: int| 0 <= j < v.len() ==> (#[trigger] v[j]).chain.len() <= usize::MAX,
        sessions_wf(v),
        fs_valid(v, fs),
        forall|p: int|
            0 <= p < fs.len() ==> cluster_at(v, #[trigger] fs[p]).base_final_id@ == fs_caps_sum(
                v,
                fs.take(p),
            ),
        forall|i2: int, k2: int|
            0 <= i2 < v.len() && 0 <= k2 < v[i2].chain.len() ==> #[trigger] fs_has_ref(fs, i2, k2),
        0 <= i < v.len(),
        newc.base_local_id@ == -1 - caps_sum(v[i].chain),
        newc.base_final_id@ == fs_caps_sum(v, fs),
        1 <= newc.count <= newc.capacity,
        newc.base_final_id@ + newc.capacity <= i64::MAX,
        1 + caps_sum(v[i].chain) + newc.capacity <= i64::MAX,
    ensures
        session_wf(SessionView { session_id: v[i].session_id, chain: v[i].chain.push(newc) }),
{
    let chain = v[i].chain;
    let chain2 = chain.push(newc);
    assert(session_wf(v[i]));
    lemma_caps_sum_nonneg(chain);
    assert(chain2.drop_last() =~= chain);
    assert(caps_sum(chain2) == caps_sum(chain) + newc.capacity);
    assert forall|k: int| 0 <= k < chain2.len() implies (#[trigger] chain2[k]).base_local_id@ == -1
        - caps_sum(chain2.take(k)) by {
        if k < chain.len() {
            assert(chain2[k] == chain[k]);
            assert(chain2.take(k) =~= chain.take(k));
        } else {
            assert(chain2.take(k) =~= chain);
        }
    }
    assert forall|k: int| 0 <= k < chain2.len() - 1 implies (#[trigger] chain2[k]).base_final_id@
        + chain2[k].capacity <= chain2[k + 1].base_final_id@ by {
        if k + 1 < chain.len() {
            assert(chain2[k] == chain[k] && chain2[k + 1] == chain[k + 1]);
        } else {
            // the old tail ends at or before the top of the final order
            assert(chain2[k] == chain[k]);
            assert(fs_has_ref(fs, i, k));
            let p = choose|p: int| 0 <= p < fs.len() && #[trigger] fs[p] == spec_cluster_ref(i, k);
            assert(cluster_at(v, fs[p]) == chain[k]);
            lemma_fs_caps_sum_take(v, fs, p);
            lemma_fs_caps_sum_take_mono(v, fs, p + 1, fs.len() as int);
            lemma_fs_caps_sum_take_all(v, fs);
        }
    }
    assert forall|k: int| 0 <= k < chain2.len() implies cluster_bounded(#[trigger] chain2[k])
        && chain2[k].count >= 1 by {
        if k < chain.len() {
            assert(chain2[k] == chain[k]);
            assert(cluster_bounded(chain[k]));
        } else {
            assert(chain2[k] == newc);
        }
    }
}

/// The serialized image of the registered session identities: each as
/// sixteen little-endian bytes, in registration order.
pub open spec fn spec_serialized_sessions(v: Seq<SessionView>) -> Seq<u8>
    decreases v.len(),
{
    if v.len() == 0 {
        Seq::empty()
    } else {
        spec_serialized_sessions(v.drop_last()) + nat_to_le_bytes(v.last().session_id as nat, 16)
    }
}

/// The serialized image of the cluster records in final order: each as its
/// owner's session index, reserved capacity and finalized count, eight
/// little-endian bytes apiece.
pub open spec fn spec_serialized_clusters(v: Seq<SessionView>, fs: Seq<ClusterRef>) -> Seq<u8>
    decreases fs.len(),
{
    if fs.len() == 0 {
        Seq::empty()
    } else {
        spec_serialized_clusters(v, fs.drop_last()) + nat_to_le_bytes(
            fs.last().session_space_ref.index as nat,
            8,
        ) + nat_to_le_bytes(cluster_at(v, fs.last()).capacity as nat, 8) + nat_to_le_bytes(
            cluster_at(v, fs.last()).count as nat,
            8,
        )
    }
}

/// The local-state block of the version-1 image: the local identity, the
/// generated and next-range counters, and the normalizer's runs; empty
/// where local state is left out.
pub open spec fn spec_serialized_local_state(
    norm: Seq<(int, int)>,
    generated: int,
    next_base: int,
    sid: int,
    include_local_state: bool,
) -> Seq<u8> {
    if include_local_state {
        nat_to_le_bytes(sid as nat, 16) + nat_to_le_bytes(generated as nat, 8) + nat_to_le_bytes(
            next_base as nat,
            8,
        ) + spec_serialized_normalizer(norm)
    } else {
        Seq::empty()
    }
}

/// The version-1 serialized image of a compressor: the versioned envelope,
/// the local-state block when it is included, then the configured capacity,
/// the session identities and the cluster records in final order.
pub open spec fn spec_serialized_compressor(
    v: Seq<SessionView>,
    fs: Seq<ClusterRef>,
    norm: Seq<(int, int)>,
    capacity: int,
    generated: int,
    next_base: int,
    sid: int,
    include_local_state: bool,
) -> Seq<u8> {
    nat_to_le_bytes(1, 8) + nat_to_le_bytes(
        if include_local_state {
            1
        } else {
            0
        },
        8,
    ) + spec_serialized_local_state(norm, generated, next_base, sid, include_local_state)
        + nat_to_le_bytes(capacity as nat, 8) + nat_to_le_bytes(v.len() as nat, 8)
        + spec_serialized_sessions(v) + nat_to_le_bytes(fs.len() as nat, 8)
        + spec_serialized_clusters(v, fs)
}

impl IdCompressor {
    /// Serializes the compressor into the version-1 persistence layout:
    /// with the local identity, counters and normalizer when
    /// `include_local_state` is set, else finalized state alone.
    #[verifier::rlimit(100)]
    #[verifier::spinoff_prover]
    pub fn serialize(&self, include_local_state: bool) -> (r: Vec<u8>)
        requires
            self.wf(),
        ensures
            r@ == spec_serialized_compressor(
                self.sessions_view(),
                self.fs_view(),
                self.norm_view(),
                self.capacity_view(),
                self.generated_count(),
                self.next_range_base_gen(),
                self.session_id_view(),
                include_local_state,
            ),
    {
        let ghost v = self.sessions_view();
        let ghost fs = self.fs_view();
        let mut bytes: Vec<u8> = Vec::new();
        write_u64_to_vec(&mut bytes, 1);
        write_u64_to_vec(
            &mut bytes,
            if include_local_state {
                1
            } else {
                0
            },
        );
        let ghost envelope = bytes@;
        if include_local_state {
            write_u128_to_vec(&mut bytes, self.session_id.stable_id().to_compressed_u128());
            write_u64_to_vec(&mut bytes, self.generated_id_count);
            write_u64_to_vec(&mut bytes, self.next_range_base_generation_count);
            proof {
                reveal(norm_ok);
            }
            serialize_normalizer(&self.session_space_normalizer, &mut bytes);
            proof {
                assert(bytes@ =~= envelope + spec_serialized_local_state(
                    self.norm_view(),
                    self.generated_count(),
                    self.next_range_base_gen(),
                    self.session_id_view(),
                    include_local_state,
                ));
            }
        } else {
            proof {
                assert(bytes@ =~= envelope + spec_serialized_local_state(
                    self.norm_view(),
                    self.generated_count(),
                    self.next_range_base_gen(),
                    self.session_id_view(),
                    include_local_state,
                ));
            }
        }
        write_u64_to_vec(&mut bytes, self.cluster_capacity);
        let scount = self.sessions.sessions_count();
        write_u64_to_vec(&mut bytes, scount as u64);
        let ghost head = bytes@;
        proof {
            assert(spec_serialized_sessions(v.take(0)) =~= Seq::<u8>::empty());
            assert(bytes@ =~= head + spec_serialized_sessions(v.take(0)));
        }
        let mut i: usize = 0;
        while i < scount
            invariant
                v == self.sessions_view(),
                scount == v.len(),
                0 <= i <= scount,
                bytes@ == head + spec_serialized_sessions(v.take(i as int)),
            decreases scount - i,
        {
            let s = self.sessions.deref_session_space(SessionSpaceRef::create_from_index(i));
            write_u128_to_vec(&mut bytes, s.session_id().stable_id().to_compressed_u128());
            proof {
                let taken = v.take(i + 1);
                assert(taken.drop_last() =~= v.take(i as int));
                assert(taken.last() == v[i as int]);
                assert(bytes@ =~= head + spec_serialized_sessions(taken));
            }
            i = i + 1;
        }
        let ghost mid = bytes@;
        proof {
            assert(v.take(scount as int) =~= v);
            assert(mid == head + spec_serialized_sessions(v));
            lemma_tables_wf_elim_fs(v, fs, self.us_view(), self.limit_view());
        }
        let ccount = self.final_space.cluster_count();
        write_u64_to_vec(&mut bytes, ccount as u64);
        let ghost head2 = bytes@;
        proof {
            assert(spec_serialized_clusters(v, fs.take(0)) =~= Seq::<u8>::empty());
            assert(bytes@ =~= head2 + spec_serialized_clusters(v, fs.take(0)));
        }
        let mut p: usize = 0;
        while p < ccount
            invariant
                v == self.sessions_view(),
                fs == self.fs_view(),
                fs_valid(v, fs),
                ccount == fs.len(),
                0 <= p <= ccount,
                bytes@ == head2 + spec_serialized_clusters(v, fs.take(p as int)),
            decreases ccount - p,
        {
            proof {
                assert(valid_cluster_ref(v, fs[p as int]));
            }
            let cref = self.final_space.get_cluster_ref(p);
            let cluster = self.sessions.deref_cluster(cref);
            write_u64_to_vec(&mut bytes, cref.get_session_space_ref().get_index() as u64);
            write_u64_to_vec(&mut bytes, cluster.capacity);
            write_u64_to_vec(&mut bytes, cluster.count);
            proof {
                let taken = fs.take(p + 1);
                assert(taken.drop_last() =~= fs.take(p as int));
                assert(taken.last() == fs[p as int]);
                assert(bytes@ =~= head2 + spec_serialized_clusters(v, taken));
            }
            p = p + 1;
        }
        proof {
            assert(fs.take(ccount as int) =~= fs);
            assert(bytes@ == head2 + spec_serialized_clusters(v, fs));
        }
        bytes
    }
}

/// The fields parsed from a version-1 payload: the envelope flag, the
/// local-state block (absent fields take their fresh-compressor values),
/// the configured capacity, the embedded session identities in index order,
/// and the cluster records in final order as owner index, capacity and
/// count.
pub struct CompressorImage {
    /// Whether the payload carries the serializing session's local state.
    pub has_local_state: bool,
    /// The embedded local identity, in compressed form; zero where absent.
    pub local_session: int,
    /// The restored generated-ID counter; zero where absent.
    pub generated: int,
    /// The restored next-range base; one where absent.
    pub next_base: int,
    /// The restored normalizer runs; empty where absent.
    pub norm: Seq<(int, int)>,
    /// The configured cluster capacity.
    pub capacity: int,
    /// The embedded session identities, in index order.
    pub session_ids: Seq<int>,
    /// The cluster records in final order.
    pub clusters: Seq<(int, int, int)>,
}

/// The result of parsing `k` session identities at `pos`, having already
/// accepted `acc`: the full identity list and the position after it, or
/// nothing where the image is truncated.
pub open spec fn spec_parse_sessions(bytes: Seq<u8>, pos: int, k: nat, acc: Seq<int>) -> Option<
    (Seq<int>, int),
>
    decreases k,
{
    if k == 0 {
        Some((acc, pos))
    } else if pos + 16 <= bytes.len() {
        spec_parse_sessions(
            bytes,
            pos + 16,
            (k - 1) as nat,
            acc.push(le_bytes_to_nat(bytes.subrange(pos, pos + 16)) as int),
        )
    } else {
        None
    }
}

/// The result of parsing `k` cluster records at `pos`, having already
/// accepted `acc`: the full record list and the position after it, or
/// nothing where the image is truncated.
pub open spec fn spec_parse_clusters(
    bytes: Seq<u8>,
    pos: int,
    k: nat,
    acc: Seq<(int, int, int)>,
) -> Option<(Seq<(int, int, int)>, int)>
    decreases k,
{
    if k == 0 {
        Some((acc, pos))
    } else if pos + 24 <= bytes.len() {
        spec_parse_clusters(
            bytes,
            pos + 24,
            (k - 1) as nat,
            acc.push(
                (
                    le_bytes_to_nat(bytes.subrange(pos, pos + 8)) as int,
                    le_bytes_to_nat(bytes.subrange(pos + 8, pos + 16)) as int,
                    le_bytes_to_nat(bytes.subrange(pos + 16, pos + 24)) as int,
                ),
            ),
        )
    } else {
        None
    }
}

/// The result of parsing the finalized-state body at `pos`: the capacity,
/// the session identities and the cluster records, assembled with the
/// already-parsed local-state fields.
pub open spec fn spec_parse_body(
    bytes: Seq<u8>,
    pos: int,
    has_local: bool,
    sid: int,
    generated: int,
    next_base: int,
    norm: Seq<(int, int)>,
) -> Option<CompressorImage> {
    if pos + 16 <= bytes.len() {
        let capacity = le_bytes_to_nat(bytes.subrange(pos, pos + 8)) as int;
        let scount = le_bytes_to_nat(bytes.subrange(pos + 8, pos + 16));
        match spec_parse_sessions(bytes, pos + 16, scount, Seq::empty()) {
            None => None,
            Some((sids, p2)) => {
                if p2 + 8 <= bytes.len() {
                    let ccount = le_bytes_to_nat(bytes.subrange(p2, p2 + 8));
                    match spec_parse_clusters(bytes, p2 + 8, ccount, Seq::empty()) {
                        None => None,
                        Some((cls, _)) => Some(
                            CompressorImage {
                                has_local_state: has_local,
                                local_session: sid,
                                generated,
                                next_base,
                                norm,
                                capacity,
                                session_ids: sids,
                                clusters: cls,
                            },
                        ),
                    }
                } else {
                    None
                }
            },
        }
    } else {
        None
    }
}

/// The result of parsing a version-1 payload: its fields, or nothing where
/// the version is unknown, the image is truncated, or the normalizer's runs
/// are ill formed.
pub open spec fn spec_parse_compressor(bytes: Seq<u8>) -> Option<CompressorImage> {
    if 16 <= bytes.len() && le_bytes_to_nat(bytes.subrange(0, 8)) == 1 && le_bytes_to_nat(
        bytes.subrange(8, 16),
    ) <= 1 {
        if le_bytes_to_nat(bytes.subrange(8, 16)) == 1 {
            if 48 <= bytes.len() {
                match spec_parse_normalizer(bytes, 48) {
                    None => None,
                    Some((norm, p)) => spec_parse_body(
                        bytes,
                        p,
                        true,
                        le_bytes_to_nat(bytes.subrange(16, 32)) as int,
                        le_bytes_to_nat(bytes.subrange(32, 40)) as int,
                        le_bytes_to_nat(bytes.subrange(40, 48)) as int,
                        norm,
                    ),
                }
            } else {
                None
            }
        } else {
            spec_parse_body(bytes, 16, false, 0, 0, 1, Seq::empty())
        }
    } else {
        None
    }
}

/// Whether some registered cluster's base stable ID is exactly `key`.
pub open spec fn spec_has_base_stable(v: Seq<SessionView>, key: int) -> bool {
    exists|j: int, k: int|
        0 <= j < v.len() && 0 <= k < v[j].chain.len() && v[j].session_id + (-(
        #[trigger] v[j].chain[k]).base_local_id@) - 1 == key
}

/// Under the table invariants, a base stable ID is registered among the
/// clusters exactly when the uuid order holds it as a key.
#[verifier::spinoff_prover]
pub proof fn lemma_base_stable_matches_us(
    v: Seq<SessionView>,
    us: Seq<(int, ClusterRef)>,
    key: int,
)
    requires
        us_wf(v, us),
        forall|i2: int, k2: int|
            0 <= i2 < v.len() && 0 <= k2 < v[i2].chain.len() ==> #[trigger] us_has_ref(us, i2, k2),
        v.len() <= usize::MAX,
        forall|j: int| 0 <= j < v.len() ==> (#[trigger] v[j]).chain.len() <= usize::MAX,
    ensures
        spec_has_base_stable(v, key) == exists|p: int|
            0 <= p < us.len() && (#[trigger] us[p]).0 == key,
{
    if spec_has_base_stable(v, key) {
        let (j, k) = choose|j: int, k: int|
            0 <= j < v.len() && 0 <= k < v[j].chain.len() && v[j].session_id + (-(
            #[trigger] v[j].chain[k]).base_local_id@) - 1 == key;
        assert(us_has_ref(us, j, k));
        let p = choose|p: int| 0 <= p < us.len() && (#[trigger] us[p]).1 == spec_cluster_ref(j, k);
        assert(us[p].0 == cluster_base_stable(v, us[p].1));
        assert(spec_cluster_ref(j, k).session_space_ref.index as int == j);
        assert(spec_cluster_ref(j, k).cluster_chain_index as int == k);
        assert(cluster_at(v, spec_cluster_ref(j, k)) == v[j].chain[k]);
        assert(us[p].0 == key);
    }
    if exists|p: int| 0 <= p < us.len() && (#[trigger] us[p]).0 == key {
        let p = choose|p: int| 0 <= p < us.len() && (#[trigger] us[p]).0 == key;
        let cref = us[p].1;
        assert(valid_cluster_ref(v, cref));
        let j = cref.session_space_ref.index as int;
        let k = cref.cluster_chain_index as int;
        assert(us[p].0 == cluster_base_stable(v, cref));
        assert(cluster_at(v, cref) == v[j].chain[k]);
        assert(v[j].session_id + (-v[j].chain[k].base_local_id@) - 1 == key);
        assert(spec_has_base_stable(v, key));
    }
}

/// The base session list that deserialization starts from: the resumed or
/// fresh local session first, then the embedded sessions in index order;
/// the resumed identity stands only once, at the front of both.
pub open spec fn spec_base_sessions(img: CompressorImage, lsid: int) -> Seq<SessionView> {
    let embedded = Seq::new(
        img.session_ids.len(),
        |i: int| SessionView { session_id: img.session_ids[i], chain: Seq::empty() },
    );
    if img.has_local_state && img.session_ids.len() > 0 {
        embedded
    } else {
        seq![SessionView { session_id: lsid, chain: Seq::empty() }] + embedded
    }
}

/// The session views, final order and allocation total rebuilt by replaying
/// the cluster records onto the base session list, or nothing where a
/// record is out of range, ill sized, would overflow the machine bounds, or
/// would collide with a registered cluster in stable space. `shift` maps an
/// embedded session index to its position in the base list.
pub open spec fn spec_rebuild(
    base: Seq<SessionView>,
    nsids: int,
    recs: Seq<(int, int, int)>,
    shift: int,
) -> Option<(Seq<SessionView>, Seq<ClusterRef>, int)>
    decreases recs.len(),
{
    if recs.len() == 0 {
        Some((base, Seq::empty(), 0))
    } else {
        match spec_rebuild(base, nsids, recs.drop_last(), shift) {
            None => None,
            Some((v, fs, total)) => {
                let idx = recs.last().0;
                let capacity = recs.last().1;
                let count = recs.last().2;
                let i = idx + shift;
                let bl = -1 - caps_sum(v[i].chain);
                let key = v[i].session_id + (-bl) - 1;
                if ({
                    &&& 0 <= idx < nsids
                    &&& 1 <= count <= capacity
                    &&& total + capacity <= i64::MAX
                    &&& (-bl) + capacity <= i64::MAX
                    &&& !spec_has_base_stable(v, key)
                }) {
                    let newc = ClusterProperties {
                        base_final_id: FinalId::spec_from(total),
                        base_local_id: LocalId::spec_from(bl),
                        capacity: capacity as u64,
                        count: count as u64,
                    };
                    Some(
                        (
                            v.update(
                                i,
                                SessionView {
                                    session_id: v[i].session_id,
                                    chain: v[i].chain.push(newc),
                                },
                            ),
                            fs.push(spec_cluster_ref(i, v[i].chain.len() as int)),
                            total + capacity,
                        ),
                    )
                } else {
                    None
                }
            },
        }
    }
}

/// Once a prefix of the records fails to rebuild, the whole list does.
pub proof fn lemma_rebuild_none_persists(
    base: Seq<SessionView>,
    nsids: int,
    recs: Seq<(int, int, int)>,
    shift: int,
    m: int,
)
    requires
        0 <= m <= recs.len(),
        spec_rebuild(base, nsids, recs.take(m), shift) is None,
    ensures
        spec_rebuild(base, nsids, recs, shift) is None,
    decreases recs.len() - m,
{
    if m == recs.len() {
        assert(recs.take(m) =~= recs);
    } else {
        assert(recs.take(m + 1).drop_last() =~= recs.take(m));
        assert(spec_rebuild(base, nsids, recs.take(m + 1), shift) is None);
        lemma_rebuild_none_persists(base, nsids, recs, shift, m + 1);
    }
}

/// The semantic conditions under which a parsed image yields a well-formed
/// compressor around the local identity `lsid`: counters and capacity in
/// range, normalizer runs within the generated count, session identities
/// valid, distinct and clear of the local identity (except a resumed
/// session's own leading entry), and every cluster record replayable.
pub open spec fn spec_image_ok(img: CompressorImage, lsid: int) -> bool {
    &&& (img.has_local_state ==> 0 <= img.local_session
        < 0x04000000000000000000000000000000)
    &&& 0 <= img.generated <= i64::MAX
    &&& 1 <= img.next_base <= img.generated + 1
    &&& (img.norm.len() > 0 ==> img.norm.last().0 - img.norm.last().1 + 1 >= -img.generated)
    &&& 1 <= img.capacity
    &&& forall|i: int|
        0 <= i < img.session_ids.len() ==> 0 <= #[trigger] img.session_ids[i]
            < 0x04000000000000000000000000000000
    &&& (img.has_local_state && img.session_ids.len() > 0 ==> img.session_ids[0] == lsid)
    &&& forall|i: int|
        (if img.has_local_state {
            1int
        } else {
            0int
        }) <= i < img.session_ids.len() ==> #[trigger] img.session_ids[i] != lsid
    &&& forall|i: int, j: int|
        0 <= i < j < img.session_ids.len() ==> #[trigger] img.session_ids[i]
            != #[trigger] img.session_ids[j]
    &&& spec_rebuild(
        spec_base_sessions(img, lsid),
        img.session_ids.len() as int,
        img.clusters,
        if img.has_local_state {
            0int
        } else {
            1int
        },
    ) is Some
}

/// The exec-side fields parsed from a version-1 payload, before any
/// semantic validation; fields of an absent local-state block take their
/// fresh-compressor values.
struct ParsedPayload {
    has_local_state: bool,
    header_sid: u128,
    generated: u64,
    next_base: u64,
    normalizer: SessionSpaceNormalizer,
    capacity: u64,
    raw_sids: Vec<u128>,
    recs: Vec<(u64, u64, u64)>,
}

impl ParsedPayload {
    /// The parsed fields as the image the parse specification yields.
    spec fn image_of(&self) -> CompressorImage {
        CompressorImage {
            has_local_state: self.has_local_state,
            local_session: self.header_sid as int,
            generated: self.generated as int,
            next_base: self.next_base as int,
            norm: self.normalizer@,
            capacity: self.capacity as int,
            session_ids: Seq::new(self.raw_sids@.len(), |i: int| self.raw_sids@[i] as int),
            clusters: Seq::new(
                self.recs@.len(),
                |i: int| (self.recs@[i].0 as int, self.recs@[i].1 as int, self.recs@[i].2 as int),
            ),
        }
    }
}

/// Reads the version-1 layout off the payload: the envelope, the
/// local-state block when present, the capacity, the session identities and
/// the cluster records; rejects unknown versions and truncated or ill-run
/// images.
#[verifier::rlimit(100)]
#[verifier::spinoff_prover]
fn parse_payload(bytes: &[u8]) -> (r: Result<ParsedPayload, DeserializationError>)
    ensures
        match r {
            Ok(p) => {
                &&& spec_parse_compressor(bytes@) == Some(p.image_of())
                &&& p.normalizer.wf()
                &&& 16 * p.raw_sids@.len() <= bytes@.len()
                &&& 24 * p.recs@.len() <= bytes@.len()
            },
            Err(e) => {
                &&& spec_parse_compressor(bytes@) is None
                &&& (e == DeserializationError::UnknownVersion <==> (bytes@.len() >= 8
                    && le_bytes_to_nat(bytes@.subrange(0, 8)) != 1))
                &&& (e == DeserializationError::UnknownVersion || e
                    == DeserializationError::MalformedInput)
            },
        },
{
    let ghost bs = bytes@;
    let mut d = Deserializer::new(bytes);
    let version = d.consume_u64();
    if d.error().is_some() {
        return Err(DeserializationError::MalformedInput);
    }
    if version != 1 {
        return Err(DeserializationError::UnknownVersion);
    }
    let has_local_raw = d.consume_u64();
    if d.error().is_some() {
        return Err(DeserializationError::MalformedInput);
    }
    if has_local_raw > 1 {
        return Err(DeserializationError::MalformedInput);
    }
    let has_local = has_local_raw == 1;
    let mut header_sid: u128 = 0;
    let mut generated: u64 = 0;
    let mut next_base: u64 = 1;
    let mut normalizer = SessionSpaceNormalizer::new();
    if has_local {
        header_sid = d.consume_u128();
        generated = d.consume_u64();
        next_base = d.consume_u64();
        if d.error().is_some() {
            return Err(DeserializationError::MalformedInput);
        }
        proof {
            assert(d.pos_view() == 48);
        }
        normalizer = match deserialize_normalizer(&mut d) {
            Ok(n) => n,
            Err(_) => {
                return Err(DeserializationError::MalformedInput);
            },
        };
    }
    let ghost p_body = d.pos_view();
    let capacity = d.consume_u64();
    let session_count = d.consume_u64();
    if d.error().is_some() {
        return Err(DeserializationError::MalformedInput);
    }
    let ghost p_s0 = d.pos_view();
    let mut raw_sids: Vec<u128> = Vec::new();
    let ghost mut sids_abs: Seq<int> = Seq::empty();
    proof {
        d.lemma_pos_nonneg();
        assert(sids_abs =~= Seq::new(raw_sids@.len(), |i: int| raw_sids@[i] as int));
    }
    let mut si: u64 = 0;
    while si < session_count
        invariant
            bs == bytes@,
            d.bytes_view() == bs,
            d.error_view() is None,
            0 <= si <= session_count,
            raw_sids@.len() == si,
            sids_abs == Seq::new(raw_sids@.len(), |i: int| raw_sids@[i] as int),
            d.pos_view() == p_s0 + 16 * si,
            d.pos_view() <= bs.len(),
            p_s0 >= 0,
            bs.len() >= 16,
            le_bytes_to_nat(bs.subrange(0, 8)) == 1,
            spec_parse_sessions(bs, p_s0, session_count as nat, Seq::empty())
                == spec_parse_sessions(bs, d.pos_view(), (session_count - si) as nat, sids_abs),
            spec_parse_sessions(bs, p_s0, session_count as nat, Seq::empty()) is None
                ==> spec_parse_compressor(bs) is None,
        decreases session_count - si,
    {
        let ghost pos_here = d.pos_view();
        let v128 = d.consume_u128();
        if d.error().is_some() {
            proof {
                assert(spec_parse_sessions(
                    bs,
                    pos_here,
                    (session_count - si) as nat,
                    sids_abs,
                ) is None);
                assert(spec_parse_sessions(bs, p_s0, session_count as nat, Seq::empty()) is None);
                assert(spec_parse_compressor(bs) is None);
            }
            return Err(DeserializationError::MalformedInput);
        }
        raw_sids.push(v128);
        proof {
            sids_abs = sids_abs.push(v128 as int);
            assert(sids_abs =~= Seq::new(raw_sids@.len(), |i: int| raw_sids@[i] as int));
        }
        si = si + 1;
    }
    let ghost p_send = d.pos_view();
    let cluster_count = d.consume_u64();
    if d.error().is_some() {
        return Err(DeserializationError::MalformedInput);
    }
    let ghost p_c0 = d.pos_view();
    let mut recs: Vec<(u64, u64, u64)> = Vec::new();
    let ghost mut recs_abs: Seq<(int, int, int)> = Seq::empty();
    proof {
        d.lemma_pos_nonneg();
        assert(recs_abs =~= Seq::new(
            recs@.len(),
            |i: int| (recs@[i].0 as int, recs@[i].1 as int, recs@[i].2 as int),
        ));
    }
    let mut ci: u64 = 0;
    while ci < cluster_count
        invariant
            bs == bytes@,
            d.bytes_view() == bs,
            d.error_view() is None,
            0 <= ci <= cluster_count,
            recs@.len() == ci,
            recs_abs == Seq::new(
                recs@.len(),
                |i: int| (recs@[i].0 as int, recs@[i].1 as int, recs@[i].2 as int),
            ),
            d.pos_view() == p_c0 + 24 * ci,
            d.pos_view() <= bs.len(),
            p_c0 >= 0,
            bs.len() >= 16,
            le_bytes_to_nat(bs.subrange(0, 8)) == 1,
            spec_parse_clusters(bs, p_c0, cluster_count as nat, Seq::empty())
                == spec_parse_clusters(bs, d.pos_view(), (cluster_count - ci) as nat, recs_abs),
            spec_parse_clusters(bs, p_c0, cluster_count as nat, Seq::empty()) is None
                ==> spec_parse_compressor(bs) is None,
        decreases cluster_count - ci,
    {
        let ghost pos_here = d.pos_view();
        let idx = d.consume_u64();
        let cap = d.consume_u64();
        let cnt = d.consume_u64();
        if d.error().is_some() {
            proof {
                assert(spec_parse_clusters(
                    bs,
                    pos_here,
                    (cluster_count - ci) as nat,
                    recs_abs,
                ) is None);
                assert(spec_parse_clusters(bs, p_c0, cluster_count as nat, Seq::empty()) is None);
                assert(spec_parse_compressor(bs) is None);
            }
            return Err(DeserializationError::MalformedInput);
        }
        recs.push((idx, cap, cnt));
        proof {
            recs_abs = recs_abs.push((idx as int, cap as int, cnt as int));
            assert(recs_abs =~= Seq::new(
                recs@.len(),
                |i: int| (recs@[i].0 as int, recs@[i].1 as int, recs@[i].2 as int),
            ));
        }
        ci = ci + 1;
    }
    let p = ParsedPayload {
        has_local_state: has_local,
        header_sid,
        generated,
        next_base,
        normalizer,
        capacity,
        raw_sids,
        recs,
    };
    proof {
        assert(spec_parse_sessions(bs, p_s0, session_count as nat, Seq::empty()) == Some(
            (sids_abs, p_send),
        ));
        assert(spec_parse_clusters(bs, p_c0, cluster_count as nat, Seq::empty()) == Some(
            (recs_abs, d.pos_view()),
        ));
        assert(spec_parse_body(
            bs,
            p_body,
            has_local,
            p.header_sid as int,
            p.generated as int,
            p.next_base as int,
            p.normalizer@,
        ) == Some(p.image_of()));
        assert(spec_parse_compressor(bs) == Some(p.image_of()));
    }
    Ok(p)
}

impl IdCompressor {
    /// The conditions under which one cluster record can be replayed onto
    /// the compressor: the owner index in range, the record well sized, the
    /// machine bounds kept, and the new cluster's base stable ID fresh.
    pub open spec fn spec_replay_ok(
        &self,
        idx: int,
        capacity: int,
        count: int,
        shift: int,
        nsids: int,
    ) -> bool {
        let v = self.sessions_view();
        let i = idx + shift;
        let bl = -1 - caps_sum(v[i].chain);
        let key = v[i].session_id + (-bl) - 1;
        &&& 0 <= idx < nsids
        &&& 1 <= count <= capacity
        &&& self.total_allocated() + capacity <= i64::MAX
        &&& (-bl) + capacity <= i64::MAX
        &&& !spec_has_base_stable(v, key)
    }

    /// What replaying one cluster record does: the owner's chain grows by a
    /// cluster continuing its local run at the top of the final order, and
    /// nothing else moves.
    pub open spec fn spec_replayed(
        a: &IdCompressor,
        b: &IdCompressor,
        idx: int,
        capacity: int,
        count: int,
        shift: int,
    ) -> bool {
        let v = a.sessions_view();
        let i = idx + shift;
        let bl = -1 - caps_sum(v[i].chain);
        let newc = ClusterProperties {
            base_final_id: FinalId::spec_from(a.total_allocated()),
            base_local_id: LocalId::spec_from(bl),
            capacity: capacity as u64,
            count: count as u64,
        };
        &&& b.sessions_view() == v.update(
            i,
            SessionView { session_id: v[i].session_id, chain: v[i].chain.push(newc) },
        )
        &&& b.fs_view() == a.fs_view().push(spec_cluster_ref(i, v[i].chain.len() as int))
        &&& b.total_allocated() == a.total_allocated() + capacity
    }

    /// Replays one cluster record: appends a cluster for the owner that
    /// `idx` denotes, continuing its local run, or rejects the record and
    /// leaves the compressor unchanged.
    #[verifier::rlimit(100)]
    #[verifier::spinoff_prover]
    fn replay_cluster_record(
        &mut self,
        owner_ids: &Vec<SessionId>,
        idx: u64,
        cap: u64,
        cnt: u64,
        shift: usize,
    ) -> (r: Result<(), DeserializationError>)
        requires
            old(self).wf(),
            shift <= 1,
            owner_ids@.len() + shift <= old(self).sessions_view().len(),
            forall|k: int|
                0 <= k < owner_ids@.len() ==> (#[trigger] owner_ids@[k])@ == old(
                    self,
                ).sessions_view()[k + shift].session_id,
        ensures
            final(self).wf(),
            IdCompressor::finalize_frame(old(self), final(self)),
            match r {
                Ok(_) => {
                    &&& old(self).spec_replay_ok(
                        idx as int,
                        cap as int,
                        cnt as int,
                        shift as int,
                        owner_ids@.len() as int,
                    )
                    &&& IdCompressor::spec_replayed(
                        old(self),
                        final(self),
                        idx as int,
                        cap as int,
                        cnt as int,
                        shift as int,
                    )
                },
                Err(e) => {
                    &&& e == DeserializationError::MalformedInput
                    &&& *final(self) == *old(self)
                    &&& !old(self).spec_replay_ok(
                        idx as int,
                        cap as int,
                        cnt as int,
                        shift as int,
                        owner_ids@.len() as int,
                    )
                },
            },
    {
        let nowned = owner_ids.len();
        if idx >= nowned as u64 {
            return Err(DeserializationError::MalformedInput);
        }
        if cnt < 1 || cnt > cap {
            return Err(DeserializationError::MalformedInput);
        }
        let total = self.total_allocated_value();
        proof {
            lemma_total_le_max(&*self);
        }
        if cap > (i64::MAX as u64) - total {
            return Err(DeserializationError::MalformedInput);
        }
        let i_us: usize = (idx as usize) + shift;
        let sref = SessionSpaceRef::create_from_index(i_us);
        let session = self.sessions.deref_session_space(sref);
        let n = session.cluster_count();
        let ghost chain = self.sessions_view()[i_us as int].chain;
        proof {
            assert(session_wf(self.sessions_view()[i_us as int]));
            self.sessions.lemma_view_bounds();
            assert forall|k2: int| 0 <= k2 < chain.len() implies (
            #[trigger] chain[k2]).capacity >= 0 by {
                assert(cluster_bounded(chain[k2]));
            }
        }
        let base_local: LocalId = if n == 0 {
            LocalId::from_id(-1)
        } else {
            let tail = session.cluster_at_index(n - 1);
            proof {
                assert(cluster_bounded(chain[n - 1]));
                lemma_caps_sum_take(chain, n - 1);
                assert(chain.take(n - 1 + 1) =~= chain);
            }
            LocalId::from_id(tail.base_local_id.id() - (tail.capacity as i64))
        };
        proof {
            assert(base_local@ == -1 - caps_sum(chain));
        }
        let nbl_gen = base_local.to_generation_count();
        if nbl_gen > (i64::MAX as u64) - cap {
            return Err(DeserializationError::MalformedInput);
        }
        let owner_sid = owner_ids[idx as usize];
        proof {
            use_type_invariant(&owner_sid);
            owner_sid.lemma_well_formed_bounds();
            assert(owner_sid@ == self.sessions_view()[i_us as int].session_id);
        }
        let key_stable = owner_sid.stable_id().offset_by(nbl_gen - 1);
        proof {
            lemma_tables_wf_elim_refs(
                self.sessions_view(),
                self.fs_view(),
                self.us_view(),
                self.limit_view(),
            );
            self.sessions.lemma_view_bounds();
            lemma_base_stable_matches_us(self.sessions_view(), self.us_view(), key_stable@);
        }
        if self.uuid_space.contains_key(&key_stable) {
            return Err(DeserializationError::MalformedInput);
        }
        proof {
            assert(!spec_has_base_stable(self.sessions_view(), key_stable@));
            assert(forall|q: int|
                0 <= q < self.us_view().len() ==> (#[trigger] self.us_view()[q]).0 != owner_sid@
                    + (-base_local@) - 1);
        }
        let created = self.create_cluster(sref, owner_sid, base_local, cap, cnt);
        proof {
            let newc_real = self.sessions_view()[i_us as int].chain.last();
            FinalId::lemma_spec_from(total as int);
            LocalId::lemma_spec_from(base_local@);
            FinalId::lemma_view_injective(
                newc_real.base_final_id,
                FinalId::spec_from(total as int),
            );
            LocalId::lemma_view_injective(
                newc_real.base_local_id,
                LocalId::spec_from(base_local@),
            );
        }
        Ok(())
    }
}

impl IdCompressor {
    /// Reads a version-1 payload back into a compressor. A resumable
    /// payload restores the embedded identity, counters and normalizer; a
    /// finalized-only payload starts the local session at `new_session_id`
    /// and is rejected as `InvalidResumedSession` when that identity
    /// already appears in the embedded session list. Payloads whose fields
    /// cannot be replayed into a well-formed compressor are rejected as
    /// `MalformedInput`.
    #[verifier::rlimit(100)]
    #[verifier::spinoff_prover]
    pub fn deserialize(bytes: &[u8], new_session_id: SessionId) -> (r: Result<
        IdCompressor,
        DeserializationError,
    >)
        ensures
            match spec_parse_compressor(bytes@) {
                Some(img) => {
                    let lsid = if img.has_local_state {
                        img.local_session
                    } else {
                        new_session_id@
                    };
                    if !img.has_local_state && img.session_ids.contains(new_session_id@) {
                        r == Err::<IdCompressor, DeserializationError>(
                            DeserializationError::InvalidResumedSession,
                        )
                    } else if spec_image_ok(img, lsid) {
                        match r {
                            Ok(c) => {
                                &&& c.wf()
                                &&& c.session_id_view() == lsid
                                &&& c.generated_count() == img.generated
                                &&& c.next_range_base_gen() == img.next_base
                                &&& c.norm_view() == img.norm
                                &&& c.capacity_view() == img.capacity
                                &&& Some(
                                    (c.sessions_view(), c.fs_view(), c.total_allocated()),
                                ) == spec_rebuild(
                                    spec_base_sessions(img, lsid),
                                    img.session_ids.len() as int,
                                    img.clusters,
                                    if img.has_local_state {
                                        0int
                                    } else {
                                        1int
                                    },
                                )
                            },
                            Err(_) => false,
                        }
                    } else {
                        r == Err::<IdCompressor, DeserializationError>(
                            DeserializationError::MalformedInput,
                        )
                    }
                },
                None => {
                    &&& r is Err
                    &&& (bytes@.len() >= 8 && le_bytes_to_nat(bytes@.subrange(0, 8)) != 1 ==> r
                        == Err::<IdCompressor, DeserializationError>(
                        DeserializationError::UnknownVersion,
                    ))
                    &&& (bytes@.len() < 8 || le_bytes_to_nat(bytes@.subrange(0, 8)) == 1 ==> r
                        == Err::<IdCompressor, DeserializationError>(
                        DeserializationError::MalformedInput,
                    ))
                },
            },
    {
        let blen = bytes.len();
        let p = match parse_payload(bytes) {
            Ok(p) => p,
            Err(e) => {
                return Err(e);
            },
        };
        let ghost img = p.image_of();
        let ParsedPayload {
            has_local_state,
            header_sid,
            generated,
            next_base,
            normalizer,
            capacity,
            raw_sids,
            recs,
        } = p;
        // A finalized-only payload must not already list the resuming
        // session.
        if !has_local_state {
            let fresh = new_session_id.stable_id().to_compressed_u128();
            let mut ri: usize = 0;
            while ri < raw_sids.len()
                invariant
                    !img.has_local_state,
                    img.session_ids == Seq::new(raw_sids@.len(), |i: int| raw_sids@[i] as int),
                    fresh == new_session_id@,
                    0 <= ri <= raw_sids@.len(),
                    forall|k: int| 0 <= k < ri ==> #[trigger] img.session_ids[k] != new_session_id@,
                    spec_parse_compressor(bytes@) == Some(img),
                decreases raw_sids@.len() - ri,
            {
                if raw_sids[ri] == fresh {
                    proof {
                        assert(img.session_ids[ri as int] == new_session_id@);
                    }
                    return Err(DeserializationError::InvalidResumedSession);
                }
                ri = ri + 1;
            }
        }
        proof {
            if !img.has_local_state && img.session_ids.contains(new_session_id@) {
                let k = choose|k: int|
                    0 <= k < img.session_ids.len() && img.session_ids[k] == new_session_id@;
                assert(false);
            }
        }
        // The resumed identity must be a compressed value.
        if has_local_state && header_sid >= 0x04000000000000000000000000000000u128 {
            return Err(DeserializationError::MalformedInput);
        }
        proof {
            use_type_invariant(&new_session_id);
            new_session_id.lemma_well_formed_bounds();
        }
        let local_session_id: SessionId = if has_local_state {
            crate::id_types::session_id::from_stable_id(
                StableId::from_compressed_u128(header_sid),
            )
        } else {
            new_session_id
        };
        let ghost lsid = local_session_id@;
        // The restored counters must lie in the ranges the compressor
        // maintains.
        if generated > (i64::MAX as u64) {
            return Err(DeserializationError::MalformedInput);
        }
        if next_base < 1 || next_base > generated + 1 {
            return Err(DeserializationError::MalformedInput);
        }
        let rc = normalizer.run_count();
        if rc > 0 {
            let (last_base, last_count) = normalizer.run_at(rc - 1);
            proof {
                assert(last_base@ - last_count >= i64::MIN);
            }
            if (last_base.id() as i128) - (last_count as i128) + 1 < -(generated as i128) {
                return Err(DeserializationError::MalformedInput);
            }
        }
        if capacity < 1 {
            return Err(DeserializationError::MalformedInput);
        }
        let mut c = IdCompressor::new_with_session_id(local_session_id);
        c.cluster_capacity = capacity;
        c.generated_id_count = generated;
        c.next_range_base_generation_count = next_base;
        c.session_space_normalizer = normalizer;
        proof {
            reveal(norm_ok);
            assert(c.wf());
        }
        let ghost base = spec_base_sessions(img, lsid);
        let ghost shift_i: int = if img.has_local_state {
            0int
        } else {
            1int
        };
        let nraw = raw_sids.len();
        proof {
            assert(16 * nraw <= blen);
        }
        // Register the embedded sessions; a resumable payload leads with
        // the resumed identity itself.
        let mut owner_ids: Vec<SessionId> = Vec::new();
        let mut s0: usize = 0;
        if has_local_state {
            if nraw > 0 {
                if raw_sids[0] != header_sid {
                    return Err(DeserializationError::MalformedInput);
                }
                owner_ids.push(local_session_id);
                s0 = 1;
            }
        }
        proof {
            assert(c.sessions_view() =~= base.take(s0 + 1 - s0));
        }
        let mut sj: usize = s0;
        while sj < nraw
            invariant
                s0 <= sj <= nraw,
                s0 == (if img.has_local_state && img.session_ids.len() > 0 {
                    1int
                } else {
                    0int
                }),
                nraw == raw_sids@.len(),
                nraw == img.session_ids.len(),
                16 * nraw <= blen,
                img.session_ids == Seq::new(raw_sids@.len(), |i: int| raw_sids@[i] as int),
                base == spec_base_sessions(img, lsid),
                base.len() == img.session_ids.len() + 1 - s0,
                img.has_local_state ==> (img.session_ids.len() > 0 ==> img.session_ids[0] == lsid),
                c.wf(),
                c.session_id_view() == lsid,
                c.generated_count() == generated as int,
                c.next_range_base_gen() == next_base as int,
                c.norm_view() == img.norm,
                c.capacity_view() == capacity as int,
                c.fs_view() == Seq::<ClusterRef>::empty(),
                c.us_view() == Seq::<(int, ClusterRef)>::empty(),
                c.sessions_view() == base.take(sj + 1 - s0),
                owner_ids@.len() == sj,
                forall|k: int| 0 <= k < sj ==> (#[trigger] owner_ids@[k])@ == img.session_ids[k],
                forall|k: int| s0 <= k < sj ==> #[trigger] img.session_ids[k] != lsid,
                forall|k1: int, k2: int|
                    0 <= k1 < k2 < sj ==> #[trigger] img.session_ids[k1]
                        != #[trigger] img.session_ids[k2],
                forall|k: int|
                    0 <= k < sj ==> 0 <= #[trigger] img.session_ids[k]
                        < 0x04000000000000000000000000000000,
                spec_parse_compressor(bytes@) == Some(img),
                !img.has_local_state ==> !img.session_ids.contains(new_session_id@),
                lsid == (if img.has_local_state {
                    img.local_session
                } else {
                    new_session_id@
                }),
            decreases nraw - sj,
        {
            let raw = raw_sids[sj];
            proof {
                assert(img.session_ids[sj as int] == raw as int);
            }
            if raw >= 0x04000000000000000000000000000000u128 {
                return Err(DeserializationError::MalformedInput);
            }
            let sid_j = crate::id_types::session_id::from_stable_id(
                StableId::from_compressed_u128(raw),
            );
            match c.sessions.get(sid_j) {
                Some(found) => {
                    proof {
                        let m = found.index as int;
                        let nn = sj + 1 - s0;
                        assert(c.sessions_view()[m].session_id == sid_j@);
                        assert(0 <= m < nn);
                        assert(c.sessions_view()[m] == base.take(nn)[m]);
                        assert(base.take(nn)[m] == base[m]);
                        if m == 0 {
                            assert(base[0].session_id == lsid);
                            assert(img.session_ids[sj as int] == lsid);
                        } else {
                            assert(base[m].session_id == img.session_ids[m - 1 + s0]);
                            assert(img.session_ids[m - 1 + s0] == img.session_ids[sj as int]);
                            assert(0 <= m - 1 + s0 < sj);
                        }
                        assert(!spec_image_ok(img, lsid));
                    }
                    return Err(DeserializationError::MalformedInput);
                },
                None => {
                    let ghost v_had = c.sessions_view();
                    let sref = c.intern_session(sid_j);
                    owner_ids.push(sid_j);
                    proof {
                        let nn = sj + 1 - s0;
                        assert(base[nn].session_id == img.session_ids[sj as int]);
                        assert(base[nn].chain =~= Seq::<ClusterProperties>::empty());
                        assert(base.take(nn + 1) =~= base.take(nn).push(base[nn]));
                        assert(c.sessions_view() == base.take(nn + 1));
                        // a fresh identity: not the local session's, nor a repeat
                        assert(v_had[0].session_id == lsid);
                        assert(img.session_ids[sj as int] != lsid);
                        assert forall|k: int| 0 <= k < sj implies #[trigger] img.session_ids[k]
                            != img.session_ids[sj as int] by {
                            let m = k + 1 - s0;
                            assert(0 <= m < nn);
                            assert(v_had[m] == base.take(nn)[m]);
                            assert(base[m].session_id == img.session_ids[k]);
                        }
                    }
                },
            }
            sj = sj + 1;
        }
        proof {
            assert(base.take(nraw + 1 - s0) =~= base);
        }
        // Replay the cluster records in final order.
        let shift_usize: usize = if has_local_state {
            0
        } else {
            1
        };
        let ghost nsids = img.session_ids.len() as int;
        let nrecs = recs.len();
        proof {
            assert(24 * nrecs <= blen);
            assert(spec_rebuild(base, nsids, img.clusters.take(0), shift_i) == Some(
                (c.sessions_view(), c.fs_view(), c.total_allocated()),
            ));
        }
        let mut cj: usize = 0;
        while cj < nrecs
            invariant
                0 <= cj <= nrecs,
                nrecs == recs@.len(),
                nrecs == img.clusters.len(),
                nraw == owner_ids@.len(),
                nraw == img.session_ids.len(),
                nsids == img.session_ids.len() as int,
                img.clusters == Seq::new(
                    recs@.len(),
                    |i: int| (recs@[i].0 as int, recs@[i].1 as int, recs@[i].2 as int),
                ),
                base == spec_base_sessions(img, lsid),
                base.len() == img.session_ids.len() + 1 - (if img.has_local_state
                    && img.session_ids.len() > 0 {
                    1int
                } else {
                    0int
                }),
                shift_usize == (if img.has_local_state {
                    0int
                } else {
                    1int
                }),
                shift_i == (if img.has_local_state {
                    0int
                } else {
                    1int
                }),
                c.wf(),
                c.session_id_view() == lsid,
                c.generated_count() == generated as int,
                c.next_range_base_gen() == next_base as int,
                c.norm_view() == img.norm,
                c.capacity_view() == capacity as int,
                c.sessions_view().len() == base.len(),
                forall|j2: int|
                    0 <= j2 < base.len() ==> (#[trigger] c.sessions_view()[j2]).session_id
                        == base[j2].session_id,
                forall|k: int| 0 <= k < nraw ==> (#[trigger] owner_ids@[k])@ == img.session_ids[k],
                spec_rebuild(base, nsids, img.clusters.take(cj as int), shift_i) == Some(
                    (c.sessions_view(), c.fs_view(), c.total_allocated()),
                ),
                spec_parse_compressor(bytes@) == Some(img),
                !img.has_local_state ==> !img.session_ids.contains(new_session_id@),
                lsid == (if img.has_local_state {
                    img.local_session
                } else {
                    new_session_id@
                }),
            decreases nrecs - cj,
        {
            let (idx, cap, cnt) = recs[cj];
            proof {
                assert(img.clusters.take(cj + 1).drop_last() =~= img.clusters.take(cj as int));
                assert(img.clusters.take(cj + 1).last() == (idx as int, cap as int, cnt as int));
            }
            let ghost c_before = c;
            match c.replay_cluster_record(&owner_ids, idx, cap, cnt, shift_usize) {
                Err(_) => {
                    proof {
                        assert(spec_rebuild(
                            base,
                            nsids,
                            img.clusters.take(cj + 1),
                            shift_i,
                        ) is None);
                        lemma_rebuild_none_persists(base, nsids, img.clusters, shift_i, cj + 1);
                    }
                    return Err(DeserializationError::MalformedInput);
                },
                Ok(_) => {
                    proof {
                        assert(spec_rebuild(base, nsids, img.clusters.take(cj + 1), shift_i)
                            == Some((c.sessions_view(), c.fs_view(), c.total_allocated())));
                    }
                },
            }
            cj = cj + 1;
        }
        proof {
            assert(img.clusters.take(nrecs as int) =~= img.clusters);
            assert(spec_image_ok(img, lsid));
        }
        Ok(c)
    }
}

/// Under the table invariants every reserved final fits a signed 64-bit
/// identifier, so the allocation total does too.
pub proof fn lemma_total_le_max(c: &IdCompressor)
    requires
        c.wf(),
    ensures
        0 <= c.total_allocated() <= i64::MAX,
{
    let v = c.sessions_view();
    let fs = c.fs_view();
    lemma_tables_wf_elim_fs(v, fs, c.us_view(), c.limit_view());
    lemma_total_is_tail_end(v, fs, c.us_view(), c.limit_view());
    if fs.len() > 0 {
        let last = fs.last();
        assert(valid_cluster_ref(v, last));
        let i = last.session_space_ref.index as int;
        let k = last.cluster_chain_index as int;
        assert(v[i].chain[k].base_final_id@ + v[i].chain[k].capacity <= i64::MAX);
        assert(cluster_at(v, last) == v[i].chain[k]);
    }
}

/// Law: a well-formed compressor keeps the cluster invariants. Every
/// registered cluster reserves at least as much as it has finalized;
/// consecutive clusters of one session's chain continue each other's local
/// run exactly; consecutive clusters of the final order tile it without
/// gaps; and every uuid-order key is its cluster's base stable ID. Every
/// public operation returns the compressor well formed, so these hold
/// after each one.
pub proof fn lemma_cluster_invariants(c: &IdCompressor)
    requires
        c.wf(),
    ensures
        forall|i: int, k: int|
            0 <= i < c.sessions_view().len() && 0 <= k < c.sessions_view()[i].chain.len()
                ==> (#[trigger] c.sessions_view()[i].chain[k]).count
                <= c.sessions_view()[i].chain[k].capacity,
        forall|i: int, k: int|
            0 <= i < c.sessions_view().len() && 0 <= k < c.sessions_view()[i].chain.len() - 1
                ==> (#[trigger] c.sessions_view()[i].chain[k + 1]).base_local_id@
                == c.sessions_view()[i].chain[k].base_local_id@
                - c.sessions_view()[i].chain[k].capacity,
        forall|p: int|
            0 <= p < c.fs_view().len() - 1 ==> cluster_at(
                c.sessions_view(),
                #[trigger] c.fs_view()[p + 1],
            ).base_final_id@ == cluster_at(c.sessions_view(), c.fs_view()[p]).base_final_id@
                + cluster_at(c.sessions_view(), c.fs_view()[p]).capacity,
        forall|p: int|
            0 <= p < c.us_view().len() ==> (#[trigger] c.us_view()[p]).0 == cluster_base_stable(
                c.sessions_view(),
                c.us_view()[p].1,
            ),
{
    let v = c.sessions_view();
    let fs = c.fs_view();
    let us = c.us_view();
    lemma_tables_wf_elim_fs(v, fs, us, c.limit_view());
    lemma_tables_wf_elim_us(v, fs, us, c.limit_view());
    assert forall|i: int, k: int|
        0 <= i < v.len() && 0 <= k < v[i].chain.len() implies (
    #[trigger] v[i].chain[k]).count <= v[i].chain[k].capacity by {
        assert(session_wf(v[i]));
        assert(cluster_bounded(v[i].chain[k]));
    }
    assert forall|i: int, k: int|
        0 <= i < v.len() && 0 <= k < v[i].chain.len() - 1 implies (
    #[trigger] v[i].chain[k + 1]).base_local_id@ == v[i].chain[k].base_local_id@
        - v[i].chain[k].capacity by {
        assert(session_wf(v[i]));
        let chain = v[i].chain;
        lemma_caps_sum_take(chain, k);
        assert(chain[k].base_local_id@ == -1 - caps_sum(chain.take(k)));
        assert(chain[k + 1].base_local_id@ == -1 - caps_sum(chain.take(k + 1)));
    }
    assert forall|p: int|
        0 <= p < fs.len() - 1 implies cluster_at(v, #[trigger] fs[p + 1]).base_final_id@
        == cluster_at(v, fs[p]).base_final_id@ + cluster_at(v, fs[p]).capacity by {
        lemma_fs_caps_sum_take(v, fs, p);
    }
}

} // verus!

