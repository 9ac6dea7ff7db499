use vstd::prelude::*;

verus! {

/// A compressed ID that is stable and unique within the scope of a network of
/// compressors (i.e. a document): a non-negative 64-bit integer assigned by
/// cluster allocation.
#[derive(Clone, Copy, Debug, PartialEq, Eq, Structural, PartialOrd, Ord, Hash)]
pub struct FinalId {
    id: u64,
}

impl FinalId {
    /// The numeric value of the final ID.
    pub closed spec fn view(&self) -> int {
        self.id as int
    }

    /// The value of every final ID lies within the unsigned 64-bit range.
    pub broadcast proof fn lemma_view_bounds(&self)
        ensures
            0 <= #[trigger] self@ <= u64::MAX,
    {
    }

    /// The final ID with the given value; for stating specifications.
    pub closed spec fn spec_from(v: int) -> FinalId {
        FinalId { id: v as u64 }
    }

    /// The stated value is recovered for in-range values.
    pub proof fn lemma_spec_from(v: int)
        requires
            0 <= v <= u64::MAX,
        ensures
            FinalId::spec_from(v)@ == v,
    {
    }

    /// Final IDs with equal values are equal.
    pub proof fn lemma_view_injective(a: FinalId, b: FinalId)
        requires
            a@ == b@,
        ensures
            a == b,
    {
    }

    /// Creates a final ID from a `u64`. Intended for internal use only.
    pub fn from_id(id: u64) -> (r: FinalId)
        ensures
            r@ == id,
    {
        FinalId { id }
    }

    /// Creates a final ID from a `u64`. Intended for internal use only.
    pub fn new(id: u64) -> (r: FinalId)
        ensures
            r@ == id,
    {
        FinalId { id }
    }

    /// Returns the inner value.
    pub fn id(&self) -> (r: u64)
        ensures
            r == self@,
    {
        self.id
    }

    /// Returns the final ID `rhs` slots after this one.
    pub fn offset_by(&self, rhs: u64) -> (r: FinalId)
        requires
            self@ + rhs <= u64::MAX,
        ensures
            r@ == self@ + rhs,
    {
        FinalId { id: self.id + rhs }
    }
}

/// Creates a final ID from a `u64`. Intended for internal use only.
pub fn final_id_from_id(id: u64) -> (r: FinalId)
    ensures
        r@ == id,
{
    FinalId::from_id(id)
}

/// Returns the numeric value of a final ID. Intended for internal use only.
pub fn get_id_from_final_id(final_id: FinalId) -> (r: u64)
    ensures
        r == final_id@,
{
    final_id.id()
}

} // verus!
