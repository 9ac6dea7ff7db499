use vstd::prelude::*;

verus! {

// A UUID u128 has the version nibble at bits 76..79 and the two variant bits
// at bits 62..63. The compressed layout drops those six bits and packs the
// remaining 122 bits contiguously: the upper 48 bits move down by 6, the
// middle 12 bits move down by 2, and the low 62 bits stay in place.

/// The UUID bit layout that a compressed value stands for.
pub open spec fn spec_to_uuid_u128(c: u128) -> u128 {
    ((c & 0x03fffffffffffc000000000000000000) << 6)
        | 0x00000000000040000000000000000000 | ((c & 0x00000000000003ffc000000000000000)
        << 2) | 0x00000000000000008000000000000000 | (c & 0x00000000000000003fffffffffffffff)
}

/// The compressed layout of a UUID u128: the six fixed version/variant bits
/// are removed so that arithmetic cannot cross the reserved fields.
pub open spec fn spec_from_uuid_u128(u: u128) -> u128 {
    ((u & 0xffffffffffff00000000000000000000) >> 6) | ((u & 0x0000000000000fff0000000000000000)
        >> 2) | (u & 0x00000000000000003fffffffffffffff)
}

/// Whether a UUID u128 carries version 4 and variant 1 (RFC 4122) bits.
pub open spec fn spec_is_v4_variant1(u: u128) -> bool {
    (u >> 76) & 0xf == 4 && (u >> 62) & 0x3 == 0x2
}

/// Every compressed value is below 2^122.
pub proof fn lemma_from_uuid_bound(u: u128)
    ensures
        spec_from_uuid_u128(u) < 0x04000000000000000000000000000000,
{
    assert(((u & 0xffffffffffff00000000000000000000) >> 6) | ((u
        & 0x0000000000000fff0000000000000000) >> 2) | (u & 0x00000000000000003fffffffffffffff)
        < 0x04000000000000000000000000000000) by (bit_vector);
}

/// Compressing the UUID form of a compressed value gives the value back.
pub proof fn lemma_uuid_round_trip(c: u128)
    requires
        c < 0x04000000000000000000000000000000,
    ensures
        spec_from_uuid_u128(spec_to_uuid_u128(c)) == c,
        spec_is_v4_variant1(spec_to_uuid_u128(c)),
{
    let u = spec_to_uuid_u128(c);
    assert(c < 0x04000000000000000000000000000000 ==> ((((c
        & 0x03fffffffffffc000000000000000000) << 6) | 0x00000000000040000000000000000000 | ((c
        & 0x00000000000003ffc000000000000000) << 2) | 0x00000000000000008000000000000000 | (c
        & 0x00000000000000003fffffffffffffff)) & 0xffffffffffff00000000000000000000) >> 6 | (((((c
        & 0x03fffffffffffc000000000000000000) << 6) | 0x00000000000040000000000000000000 | ((c
        & 0x00000000000003ffc000000000000000) << 2) | 0x00000000000000008000000000000000 | (c
        & 0x00000000000000003fffffffffffffff)) & 0x0000000000000fff0000000000000000) >> 2) | ((((c
        & 0x03fffffffffffc000000000000000000) << 6) | 0x00000000000040000000000000000000 | ((c
        & 0x00000000000003ffc000000000000000) << 2) | 0x00000000000000008000000000000000 | (c
        & 0x00000000000000003fffffffffffffff)) & 0x00000000000000003fffffffffffffff) == c)
        by (bit_vector);
    assert(((((c & 0x03fffffffffffc000000000000000000) << 6)
        | 0x00000000000040000000000000000000 | ((c & 0x00000000000003ffc000000000000000) << 2)
        | 0x00000000000000008000000000000000 | (c & 0x00000000000000003fffffffffffffff)) >> 76)
        & 0xf == 4) by (bit_vector);
    assert(((((c & 0x03fffffffffffc000000000000000000) << 6)
        | 0x00000000000040000000000000000000 | ((c & 0x00000000000003ffc000000000000000) << 2)
        | 0x00000000000000008000000000000000 | (c & 0x00000000000000003fffffffffffffff)) >> 62)
        & 0x3 == 0x2) by (bit_vector);
}

/// Expanding the compressed form of a v4/variant-1 UUID gives the UUID back.
pub proof fn lemma_compressed_round_trip(u: u128)
    requires
        spec_is_v4_variant1(u),
    ensures
        spec_to_uuid_u128(spec_from_uuid_u128(u)) == u,
{
    assert(((u >> 76) & 0xf == 4 && (u >> 62) & 0x3 == 0x2) ==> (((((u
        & 0xffffffffffff00000000000000000000) >> 6) | ((u & 0x0000000000000fff0000000000000000)
        >> 2) | (u & 0x00000000000000003fffffffffffffff)) & 0x03fffffffffffc000000000000000000)
        << 6) | 0x00000000000040000000000000000000 | (((((u & 0xffffffffffff00000000000000000000)
        >> 6) | ((u & 0x0000000000000fff0000000000000000) >> 2) | (u
        & 0x00000000000000003fffffffffffffff)) & 0x00000000000003ffc000000000000000) << 2)
        | 0x00000000000000008000000000000000 | ((((u & 0xffffffffffff00000000000000000000) >> 6)
        | ((u & 0x0000000000000fff0000000000000000) >> 2) | (u
        & 0x00000000000000003fffffffffffffff)) & 0x00000000000000003fffffffffffffff) == u)
        by (bit_vector);
}

/// A compressed version 4, variant 1 UUID. The compressed layout removes the
/// six fixed version/variant bits so that adding a 64-bit offset cannot cross
/// the reserved fields; ordering and arithmetic act on that layout.
#[derive(Clone, Copy, Debug, PartialEq, Eq, Structural, PartialOrd, Ord, Hash)]
pub struct StableId {
    id: u128,
}

impl StableId {
    /// The compressed 122-bit value.
    pub closed spec fn view(&self) -> int {
        self.id as int
    }

    /// The value of every stable ID lies within the unsigned 128-bit range.
    pub broadcast proof fn lemma_view_bounds(&self)
        ensures
            0 <= #[trigger] self@ <= u128::MAX,
    {
    }

    /// Returns the stable ID standing for the nil UUID.
    pub fn null() -> (r: StableId)
        ensures
            r@ == 0,
    {
        StableId { id: 0 }
    }

    /// Builds a stable ID directly from a compressed value.
    pub fn from_compressed_u128(id: u128) -> (r: StableId)
        ensures
            r@ == id,
    {
        StableId { id }
    }

    /// Builds a stable ID from the bits of a UUID, dropping the version and
    /// variant bits.
    pub fn from_uuid_u128(uuid_u128: u128) -> (r: StableId)
        ensures
            r@ == spec_from_uuid_u128(uuid_u128),
            r@ < 0x04000000000000000000000000000000,
    {
        proof {
            lemma_from_uuid_bound(uuid_u128);
        }
        StableId {
            id: ((uuid_u128 & 0xffffffffffff00000000000000000000) >> 6) | ((uuid_u128
                & 0x0000000000000fff0000000000000000) >> 2) | (uuid_u128
                & 0x00000000000000003fffffffffffffff),
        }
    }

    /// Re-inserts the version and variant bits, yielding the UUID bit form.
    pub fn to_uuid_u128(&self) -> (r: u128)
        ensures
            r == spec_to_uuid_u128(self@ as u128),
    {
        ((self.id & 0x03fffffffffffc000000000000000000) << 6)
            | 0x00000000000040000000000000000000 | ((self.id
            & 0x00000000000003ffc000000000000000) << 2) | 0x00000000000000008000000000000000 | (
        self.id & 0x00000000000000003fffffffffffffff)
    }

    /// Returns the compressed value as a `u128`.
    pub fn to_compressed_u128(&self) -> (r: u128)
        ensures
            r == self@,
    {
        self.id
    }

    /// Returns the stable ID `rhs` steps later in compressed order.
    pub fn offset_by(&self, rhs: u64) -> (r: StableId)
        requires
            self@ + rhs <= u128::MAX,
        ensures
            r@ == self@ + rhs,
    {
        StableId { id: self.id + rhs as u128 }
    }

    /// Returns how many steps separate `self` from the earlier `rhs`.
    pub fn distance_from(&self, rhs: &StableId) -> (r: u128)
        requires
            rhs@ <= self@,
        ensures
            r == self@ - rhs@,
    {
        self.id - rhs.id
    }

    /// Whether `self` precedes `rhs` in compressed order.
    pub fn lt(&self, rhs: &StableId) -> (r: bool)
        ensures
            r == (self@ < rhs@),
    {
        self.id < rhs.id
    }

    /// Whether `self` is `rhs` or follows it in compressed order.
    pub fn ge(&self, rhs: &StableId) -> (r: bool)
        ensures
            r == (self@ >= rhs@),
    {
        self.id >= rhs.id
    }

    /// Whether `self` and `rhs` stand for the same UUID.
    pub fn eq_value(&self, rhs: &StableId) -> (r: bool)
        ensures
            r == (self@ == rhs@),
    {
        self.id == rhs.id
    }

    /// The canonical hyphenated UUID string of the stable ID.
    pub fn to_uuid_string(&self) -> (r: String)
        ensures
            r@ == crate::uuid_ops::uuid_hyphenated_text(spec_to_uuid_u128(self@ as u128)),
            r@.len() == 36,
            crate::uuid_ops::uuid_parse_result(r@) == Some(spec_to_uuid_u128(self@ as u128)),
    {
        crate::uuid_ops::uuid_u128_to_string(self.to_uuid_u128())
    }
}

} // verus!
