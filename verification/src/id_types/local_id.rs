use vstd::prelude::*;

verus! {

/// A compressed ID that is local to a session: a strictly negative 64-bit
/// integer. `-id` is the 1-based generation count of the ID within the
/// originating session. A local ID can only be decompressed when paired with
/// the session that issued it.
#[derive(Clone, Copy, Debug, PartialEq, Eq, Structural, PartialOrd, Ord, Hash)]
pub struct LocalId {
    id: i64,
}

impl LocalId {
    /// A local ID is always strictly negative.
    #[verifier::type_invariant]
    spec fn type_inv(self) -> bool {
        self.id < 0
    }

    /// The signed value of the local ID; always negative.
    pub closed spec fn view(&self) -> int {
        self.id as int
    }

    /// The 1-based generation count `-id`.
    pub open spec fn gen_count(&self) -> int {
        -self@
    }

    /// The local ID with the given value; for stating specifications.
    pub closed spec fn spec_from(v: int) -> LocalId {
        LocalId { id: v as i64 }
    }

    /// The stated value is recovered for in-range values.
    pub proof fn lemma_spec_from(v: int)
        requires
            i64::MIN <= v <= i64::MAX,
        ensures
            LocalId::spec_from(v)@ == v,
    {
    }

    /// Local IDs with equal values are equal.
    pub proof fn lemma_view_injective(a: LocalId, b: LocalId)
        requires
            a@ == b@,
        ensures
            a == b,
    {
    }

    /// Creates a local ID from a negative `i64`.
    pub fn from_id(id: i64) -> (r: LocalId)
        requires
            id < 0,
        ensures
            r@ == id,
    {
        LocalId { id }
    }

    /// Creates a local ID from a negative `i64`.
    pub fn new(id: i64) -> (r: LocalId)
        requires
            id < 0,
        ensures
            r@ == id,
    {
        LocalId { id }
    }

    /// Returns the inner ID as an `i64`.
    pub fn id(&self) -> (r: i64)
        ensures
            r == self@,
    {
        self.id
    }

    /// Returns the 1-based generation count of the ID.
    pub fn to_generation_count(&self) -> (r: u64)
        ensures
            r == self.gen_count(),
    {
        proof {
            use_type_invariant(self);
        }
        let wide: i128 = self.id as i128;
        (-wide) as u64
    }

    /// Creates a local ID from a 1-based generation count.
    pub fn from_generation_count(generation_count: u64) -> (r: LocalId)
        requires
            1 <= generation_count <= i64::MAX,
        ensures
            r@ == -(generation_count as int),
    {
        LocalId { id: -(generation_count as i64) }
    }
}

} // verus!
