use vstd::prelude::*;

verus! {

/// Failure kinds for `decompress`: why a session-space identifier could not
/// be mapped to a stable identifier.
#[derive(Debug, Clone, Copy, PartialEq, Eq, Structural)]
pub enum DecompressionError {
    /// The final belongs to a foreign session and has not been finalized.
    UnfinalizedId,
    /// No cluster's allocated span includes the final.
    UnallocatedFinalId,
    /// The identifier was never issued by this session.
    UnobtainableId,
    /// The final lies in a local cluster but past the generated counter.
    UngeneratedFinalId,
    /// No local aligns with the final inside its cluster.
    NoAlignedLocal,
}

/// Failure kinds for `recompress`: why a stable identifier could not be
/// mapped back to a session-space identifier.
#[derive(Debug, Clone, Copy, PartialEq, Eq, Structural)]
pub enum RecompressionError {
    /// No cluster covers the stable identifier and it is not an unfinalized
    /// identifier of the local session.
    UnallocatedStableId,
    /// The stable identifier lies in a local cluster but past the generated
    /// counter.
    UngeneratedStableId,
    /// The stable identifier aligns with a foreign local that has not been
    /// finalized.
    UnfinalizedForeignId,
    /// The aligned local has no allocated final in its cluster.
    NoAllocatedFinal,
}

/// Failure kinds for `finalize_range`.
#[derive(Debug, Clone, Copy, PartialEq, Eq, Structural)]
pub enum FinalizationError {
    /// The range does not catenate exactly onto the finalized prefix of the
    /// originating session's chain.
    RangeFinalizedOutOfOrder,
    /// The range carries a count of zero.
    InvalidRange,
    /// A new cluster for the range could overlap a foreign session's cluster.
    ClusterCollision,
}

/// Failure kinds for `set_cluster_capacity`.
#[derive(Debug, Clone, Copy, PartialEq, Eq, Structural)]
pub enum ClusterCapacityError {
    /// Cluster capacity must be a non-zero integer.
    InvalidClusterCapacity,
}

/// Failure kinds for the normalization queries.
#[derive(Debug, Clone, Copy, PartialEq, Eq, Structural)]
pub enum NormalizationError {
    /// The local was never handed out by this session.
    UnknownSessionSpaceId,
    /// The originating session has never been seen by this compressor.
    UnknownSessionId,
    /// The aligned local lies past the generated counter.
    UngeneratedId,
    /// A foreign local whose range has not been finalized here.
    UnfinalizedForeignLocal,
    /// A final at or past the finalized limit that no local cluster covers.
    UnFinalizedForeignFinal,
    /// No local aligns with the final inside the local chain.
    NoAlignedLocal,
    /// No session identifier was supplied where one was needed.
    NoSessionIdProvided,
    /// An eager final was expected but the cluster allocates none.
    NoAllocatedFinal,
    /// A local of the local session that lies past the generated counter.
    UnallocatedLocal,
    /// The supplied token does not denote a registered session.
    UnknownSessionToken,
    /// The supplied session identifier has no token.
    NoTokenForSession,
}

/// Failure kinds for `deserialize`.
#[derive(Debug, Clone, Copy, PartialEq, Eq, Structural)]
pub enum DeserializationError {
    /// A finalized-only payload already lists the resuming session.
    InvalidResumedSession,
    /// The leading version number is not recognised.
    UnknownVersion,
    /// The payload is truncated or violates the format's invariants.
    MalformedInput,
}

/// Enumerated error variants for the whole allocator, with stable string
/// identifiers suitable for tunneling across foreign-function boundaries.
#[derive(Debug, Clone, Copy, PartialEq, Eq, Structural)]
pub enum AllocatorError {
    /// Malformed string passed for UUID creation.
    InvalidUuidString,
    /// Resulting UUID is not V4 variant 1.
    InvalidVersionOrVariant,
    /// Cluster size must be a non-zero integer.
    InvalidClusterCapacity,
    /// ID Range not in sequential order when finalizing.
    RangeFinalizedOutOfOrder,
    /// Invalid ID Range data.
    MalformedIdRange,
    /// New cluster may collide.
    ClusterCollision,
    /// Failed to recompress a stable identifier.
    InvalidStableId,
    /// Failed to decompress or normalize a session-space identifier.
    InvalidSessionSpaceId,
    /// Failed to normalize to session space.
    InvalidOpSpaceId,
    /// Attempted to normalize an ID from an unknown session.
    NoTokenForSession,
}

impl AllocatorError {
    /// Returns the string representation for the error variant.
    pub fn to_string(&self) -> (r: &'static str)
        ensures
            (*self is InvalidUuidString) ==> r@ == "String is not a valid UUID."@,
            (*self is InvalidClusterCapacity) ==> r@ == "Cluster size must be a non-zero integer."@,
    {
        match self {
            AllocatorError::InvalidUuidString => "String is not a valid UUID.",
            AllocatorError::InvalidVersionOrVariant => "String is not a V4 variant 1 UUID.",
            AllocatorError::InvalidClusterCapacity => "Cluster size must be a non-zero integer.",
            AllocatorError::RangeFinalizedOutOfOrder => "Ranges finalized out of order.",
            AllocatorError::MalformedIdRange => "Malformed ID Range.",
            AllocatorError::ClusterCollision => "Cluster collision detected.",
            AllocatorError::InvalidStableId => "Unknown stable ID.",
            AllocatorError::InvalidSessionSpaceId => "Unknown session space ID.",
            AllocatorError::InvalidOpSpaceId => "Unknown op space ID.",
            AllocatorError::NoTokenForSession => {
                "No IDs have ever been finalized by the supplied session."
            },
        }
    }
}

} // verus!
