use crate::id_types::final_id::FinalId;
use crate::id_types::local_id::LocalId;
use vstd::prelude::*;

verus! {

/// The two faces of a compressed identifier: a local (negative) or a final
/// (non-negative), disambiguated by sign.
pub enum CompressedId {
    Local(LocalId),
    Final(FinalId),
}

impl CompressedId {
    /// The signed numeric value shared by both faces.
    pub open spec fn view(&self) -> int {
        match *self {
            CompressedId::Local(l) => l@,
            CompressedId::Final(f) => f@,
        }
    }
}

/// A signed 64-bit identifier as the local session sees it: negative for a
/// local (mine, not yet agreed as final) and non-negative for a final.
#[derive(Clone, Copy, Debug, PartialEq, Eq, Structural, PartialOrd, Ord, Hash)]
pub struct SessionSpaceId {
    id: i64,
}

impl SessionSpaceId {
    /// The signed numeric value.
    pub closed spec fn view(&self) -> int {
        self.id as int
    }

    /// The value of every SessionSpaceId lies within the signed 64-bit range.
    pub broadcast proof fn lemma_view_bounds(&self)
        ensures
            i64::MIN <= #[trigger] self@ <= i64::MAX,
    {
    }

    /// Returns the inner value.
    pub fn id(&self) -> (r: i64)
        ensures
            r == self@,
    {
        self.id
    }

    /// Creates a session-space ID from its signed value.
    pub fn from_id(id: i64) -> (r: SessionSpaceId)
        ensures
            r@ == id,
    {
        SessionSpaceId { id }
    }

    /// Splits the identifier into its local or final face by sign.
    pub fn to_space(&self) -> (r: CompressedId)
        ensures
            r@ == self@,
            (r is Local) == (self@ < 0),
    {
        if self.id < 0 {
            CompressedId::Local(LocalId::from_id(self.id))
        } else {
            CompressedId::Final(FinalId::from_id(self.id as u64))
        }
    }

    /// Whether the identifier is a local.
    pub fn is_local(&self) -> (r: bool)
        ensures
            r == (self@ < 0),
    {
        self.id < 0
    }

    /// Whether the identifier is a final.
    pub fn is_final(&self) -> (r: bool)
        ensures
            r == (self@ >= 0),
    {
        self.id >= 0
    }

    /// Wraps a local ID.
    pub fn from_local(local_id: LocalId) -> (r: SessionSpaceId)
        ensures
            r@ == local_id@,
    {
        SessionSpaceId { id: local_id.id() }
    }

    /// Wraps a final ID.
    pub fn from_final(final_id: FinalId) -> (r: SessionSpaceId)
        requires
            final_id@ <= i64::MAX,
        ensures
            r@ == final_id@,
    {
        SessionSpaceId { id: final_id.id() as i64 }
    }
}

} // verus!
