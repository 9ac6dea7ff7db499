use crate::id_types::FinalId;
use crate::id_types::LocalId;
use vstd::prelude::*;

verus! {

/// The plain data of a cluster: a contiguous run of `capacity` stable IDs
/// owned by one session, mapped one-to-one onto the run of `capacity` final
/// IDs that starts at `base_final_id`. `count` of them are finalized.
#[derive(Clone, Copy, Debug, PartialEq, Eq, Structural)]
pub struct ClusterProperties {
    /// The first final ID of the cluster's run.
    pub base_final_id: FinalId,
    /// The local ID aligned with `base_final_id`; locals descend from here.
    pub base_local_id: LocalId,
    /// How many IDs the cluster has reserved.
    pub capacity: u64,
    /// How many IDs the cluster has finalized; never above `capacity`.
    pub count: u64,
}

/// The bounds under which cluster arithmetic cannot overflow. The compressor
/// maintains them for every registered cluster.
pub open spec fn cluster_bounded(c: ClusterProperties) -> bool {
    &&& c.base_local_id@ < 0
    &&& 1 <= c.capacity
    &&& c.count <= c.capacity
    &&& c.base_final_id@ + c.capacity <= u64::MAX
    &&& c.base_local_id@ - c.capacity >= i64::MIN
}

/// The final allocated to `local` in `c`: the final at the same offset from
/// the base, if the offset lies within the reserved capacity.
pub open spec fn spec_allocated_final(c: ClusterProperties, local: int) -> Option<int> {
    if c.base_local_id@ - local < c.capacity {
        Some(c.base_final_id@ + (c.base_local_id@ - local))
    } else {
        None
    }
}

/// The local aligned with `contained_final` in `c`: the local at the same
/// offset from the base, if the final lies within the reserved capacity.
pub open spec fn spec_aligned_local(c: ClusterProperties, contained_final: int) -> Option<int> {
    if c.base_final_id@ <= contained_final <= c.base_final_id@ + c.capacity - 1 {
        Some(c.base_local_id@ - (contained_final - c.base_final_id@))
    } else {
        None
    }
}

impl ClusterProperties {
    /// Builds the plain data of a cluster.
    pub fn new(base_final_id: FinalId, base_local_id: LocalId, capacity: u64, count: u64) -> (r:
        ClusterProperties)
        ensures
            r == (ClusterProperties { base_final_id, base_local_id, capacity, count }),
    {
        ClusterProperties { base_final_id, base_local_id, capacity, count }
    }

    /// The final allocated to `local_within`, if its offset lies within the
    /// reserved capacity.
    pub fn get_allocated_final(&self, local_within: LocalId) -> (r: Option<FinalId>)
        requires
            local_within@ <= self.base_local_id@,
            self.base_local_id@ < 0,
            self.base_final_id@ + self.capacity <= u64::MAX,
        ensures
            match r {
                Some(f) => spec_allocated_final(*self, local_within@) == Some(f@),
                None => spec_allocated_final(*self, local_within@) is None,
            },
    {
        let cluster_offset: u64 = local_within.to_generation_count()
            - self.base_local_id.to_generation_count();
        if cluster_offset < self.capacity {
            Some(self.base_final_id.offset_by(cluster_offset))
        } else {
            None
        }
    }

    /// The local aligned with `contained_final`, if the final lies within
    /// the reserved capacity.
    pub fn get_aligned_local(&self, contained_final: FinalId) -> (r: Option<LocalId>)
        requires
            self.base_local_id@ < 0,
            1 <= self.capacity,
            self.base_final_id@ + self.capacity <= u64::MAX,
            self.base_local_id@ - self.capacity >= i64::MIN,
        ensures
            match r {
                Some(l) => spec_aligned_local(*self, contained_final@) == Some(l@),
                None => spec_aligned_local(*self, contained_final@) is None,
            },
    {
        if contained_final.id() < self.base_final_id.id() || contained_final.id()
            > self.max_allocated_final().id() {
            return None;
        }
        let final_delta: u64 = contained_final.id() - self.base_final_id.id();
        Some(LocalId::from_id(self.base_local_id.id() - final_delta as i64))
    }

    /// The last finalized final of the cluster.
    pub fn max_final(&self) -> (r: FinalId)
        requires
            1 <= self.count,
            self.base_final_id@ + self.count <= u64::MAX,
        ensures
            r@ == self.base_final_id@ + self.count - 1,
    {
        self.base_final_id.offset_by(self.count - 1)
    }

    /// The last reserved final of the cluster.
    pub fn max_allocated_final(&self) -> (r: FinalId)
        requires
            1 <= self.capacity,
            self.base_final_id@ + self.capacity <= u64::MAX,
        ensures
            r@ == self.base_final_id@ + self.capacity - 1,
    {
        self.base_final_id.offset_by(self.capacity - 1)
    }

    /// The last finalized local of the cluster.
    pub fn max_local(&self) -> (r: LocalId)
        requires
            self.base_local_id@ < 0,
            1 <= self.count <= self.capacity,
            self.base_local_id@ - self.capacity >= i64::MIN,
        ensures
            r@ == self.base_local_id@ - (self.count - 1),
    {
        LocalId::from_id(self.base_local_id.id() - (self.count - 1) as i64)
    }

    /// The last reserved local of the cluster.
    pub fn max_allocated_local(&self) -> (r: LocalId)
        requires
            self.base_local_id@ < 0,
            1 <= self.capacity,
            self.base_local_id@ - self.capacity >= i64::MIN,
        ensures
            r@ == self.base_local_id@ - (self.capacity - 1),
    {
        LocalId::from_id(self.base_local_id.id() - (self.capacity - 1) as i64)
    }
}

/// A cluster held by a session's chain. The compressor reads and grows it
/// through its properties.
#[derive(Clone, Copy, Debug, PartialEq, Eq, Structural)]
pub struct IdCluster {
    /// The cluster's plain data.
    pub properties: ClusterProperties,
}

impl IdCluster {
    /// Builds a cluster from its plain data.
    pub fn new(base_final_id: FinalId, base_local_id: LocalId, capacity: u64, count: u64) -> (r:
        IdCluster)
        ensures
            r.properties == (ClusterProperties { base_final_id, base_local_id, capacity, count }),
    {
        IdCluster {
            properties: ClusterProperties { base_final_id, base_local_id, capacity, count },
        }
    }

    /// The cluster's plain data, by value.
    pub fn properties(&self) -> (r: ClusterProperties)
        ensures
            r == self.properties,
    {
        self.properties
    }

    /// The first final ID of the cluster's run.
    pub fn base_final_id(&self) -> (r: FinalId)
        ensures
            r == self.properties.base_final_id,
    {
        self.properties.base_final_id
    }

    /// The local ID aligned with the cluster's first final.
    pub fn base_local_id(&self) -> (r: LocalId)
        ensures
            r == self.properties.base_local_id,
    {
        self.properties.base_local_id
    }

    /// How many IDs the cluster has reserved.
    pub fn capacity(&self) -> (r: u64)
        ensures
            r == self.properties.capacity,
    {
        self.properties.capacity
    }

    /// How many IDs the cluster has finalized.
    pub fn count(&self) -> (r: u64)
        ensures
            r == self.properties.count,
    {
        self.properties.count
    }

    /// Grows the cluster's reserved capacity.
    pub fn set_capacity(&mut self, capacity: u64)
        ensures
            final(self).properties == (ClusterProperties { capacity, ..old(self).properties }),
    {
        self.properties.capacity = capacity;
    }

    /// Sets how many IDs the cluster has finalized.
    pub fn set_count(&mut self, count: u64)
        ensures
            final(self).properties == (ClusterProperties { count, ..old(self).properties }),
    {
        self.properties.count = count;
    }

    /// The final allocated to `local_within`, if any.
    pub fn get_allocated_final(&self, local_within: LocalId) -> (r: Option<FinalId>)
        requires
            local_within@ <= self.properties.base_local_id@,
            self.properties.base_local_id@ < 0,
            self.properties.base_final_id@ + self.properties.capacity <= u64::MAX,
        ensures
            match r {
                Some(f) => spec_allocated_final(self.properties, local_within@) == Some(f@),
                None => spec_allocated_final(self.properties, local_within@) is None,
            },
    {
        self.properties.get_allocated_final(local_within)
    }

    /// The local aligned with `contained_final`, if any.
    pub fn get_aligned_local(&self, contained_final: FinalId) -> (r: Option<LocalId>)
        requires
            cluster_bounded(self.properties),
        ensures
            match r {
                Some(l) => spec_aligned_local(self.properties, contained_final@) == Some(l@),
                None => spec_aligned_local(self.properties, contained_final@) is None,
            },
    {
        self.properties.get_aligned_local(contained_final)
    }

    /// The last finalized final of the cluster.
    pub fn max_final(&self) -> (r: FinalId)
        requires
            cluster_bounded(self.properties),
            1 <= self.properties.count,
        ensures
            r@ == self.properties.base_final_id@ + self.properties.count - 1,
    {
        self.properties.max_final()
    }

    /// The last reserved final of the cluster.
    pub fn max_allocated_final(&self) -> (r: FinalId)
        requires
            cluster_bounded(self.properties),
        ensures
            r@ == self.properties.base_final_id@ + self.properties.capacity - 1,
    {
        self.properties.max_allocated_final()
    }

    /// The last finalized local of the cluster.
    pub fn max_local(&self) -> (r: LocalId)
        requires
            cluster_bounded(self.properties),
            1 <= self.properties.count,
        ensures
            r@ == self.properties.base_local_id@ - (self.properties.count - 1),
    {
        self.properties.max_local()
    }

    /// The last reserved local of the cluster.
    pub fn max_allocated_local(&self) -> (r: LocalId)
        requires
            cluster_bounded(self.properties),
        ensures
            r@ == self.properties.base_local_id@ - (self.properties.capacity - 1),
    {
        self.properties.max_allocated_local()
    }
}

} // verus!
