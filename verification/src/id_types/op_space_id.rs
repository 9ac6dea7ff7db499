use crate::id_types::final_id::FinalId;
use crate::id_types::local_id::LocalId;
use crate::id_types::session_space_id::CompressedId;
use vstd::prelude::*;

verus! {

/// A signed 64-bit identifier re-valued for transmission: the sender's most
/// finalized form of the identifier. Negative means the sender's local form,
/// non-negative a final.
#[derive(Clone, Copy, Debug, PartialEq, Eq, Structural, PartialOrd, Ord, Hash)]
pub struct OpSpaceId {
    id: i64,
}

impl OpSpaceId {
    /// The signed numeric value.
    pub closed spec fn view(&self) -> int {
        self.id as int
    }

    /// The value of every OpSpaceId lies within the signed 64-bit range.
    pub broadcast proof fn lemma_view_bounds(&self)
        ensures
            i64::MIN <= #[trigger] self@ <= i64::MAX,
    {
    }

    /// Returns the inner value.
    pub fn id(&self) -> (r: i64)
        ensures
            r == self@,
    {
        self.id
    }

    /// Creates an op-space ID from its signed value.
    pub fn from_id(id: i64) -> (r: OpSpaceId)
        ensures
            r@ == id,
    {
        OpSpaceId { id }
    }

    /// Splits the identifier into its local or final face by sign.
    pub fn to_space(&self) -> (r: CompressedId)
        ensures
            r@ == self@,
            (r is Local) == (self@ < 0),
    {
        if self.id < 0 {
            CompressedId::Local(LocalId::from_id(self.id))
        } else {
            CompressedId::Final(FinalId::from_id(self.id as u64))
        }
    }

    /// Whether the identifier is a local.
    pub fn is_local(&self) -> (r: bool)
        ensures
            r == (self@ < 0),
    {
        self.id < 0
    }

    /// Whether the identifier is a final.
    pub fn is_final(&self) -> (r: bool)
        ensures
            r == (self@ >= 0),
    {
        self.id >= 0
    }

    /// Wraps a local ID.
    pub fn from_local(local_id: LocalId) -> (r: OpSpaceId)
        ensures
            r@ == local_id@,
    {
        OpSpaceId { id: local_id.id() }
    }

    /// Wraps a final ID.
    pub fn from_final(final_id: FinalId) -> (r: OpSpaceId)
        requires
            final_id@ <= i64::MAX,
        ensures
            r@ == final_id@,
    {
        OpSpaceId { id: final_id.id() as i64 }
    }
}

} // verus!
