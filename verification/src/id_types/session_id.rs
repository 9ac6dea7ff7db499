use crate::errors::AllocatorError;
use crate::id_types::local_id::LocalId;
use crate::id_types::stable_id::spec_from_uuid_u128;
use crate::id_types::stable_id::spec_is_v4_variant1;
use crate::id_types::stable_id::StableId;
use crate::uuid_ops::parse_uuid_u128;
use crate::uuid_ops::random_uuid_u128;
use crate::uuid_ops::uuid_parse_result;
use vstd::prelude::*;

verus! {

/// A stable ID used as a network-unique identity for one compressor
/// instance. Sessions must be version 4, variant 1 UUIDs.
#[derive(Clone, Copy, Debug, PartialEq, Eq, Structural, PartialOrd, Ord, Hash)]
pub struct SessionId {
    id: StableId,
}

impl SessionId {
    /// A session ID always carries a compressed 122-bit value.
    #[verifier::type_invariant]
    pub closed spec fn well_formed(self) -> bool {
        0 <= self.id@ < 0x04000000000000000000000000000000
    }

    /// What the type invariant pins down: the compressed value's range.
    pub proof fn lemma_well_formed_bounds(self)
        requires
            self.well_formed(),
        ensures
            0 <= self@ < 0x04000000000000000000000000000000,
    {
    }

    /// The compressed value of the underlying stable ID.
    pub closed spec fn view(&self) -> int {
        self.id@
    }

    /// The value of every session ID lies within the unsigned 128-bit
    /// range.
    pub broadcast proof fn lemma_view_bounds(&self)
        ensures
            0 <= #[trigger] self@ <= u128::MAX,
    {
        self.id.lemma_view_bounds();
    }

    /// Returns the session ID standing for the nil UUID.
    pub fn nil() -> (r: SessionId)
        ensures
            r@ == 0,
    {
        SessionId { id: StableId::null() }
    }

    /// Generates a new session ID from a random version 4 UUID.
    pub fn new() -> (r: SessionId)
        ensures
            r@ < 0x04000000000000000000000000000000,
    {
        let bits = random_uuid_u128();
        SessionId { id: StableId::from_uuid_u128(bits) }
    }

    /// Parses a session ID from a UUID string, rejecting strings that are not
    /// UUIDs and UUIDs that are not version 4, variant 1.
    pub fn from_uuid_string(uuid_string: &str) -> (r: Result<SessionId, AllocatorError>)
        ensures
            match r {
                Ok(s) => {
                    &&& uuid_parse_result(uuid_string@) is Some
                    &&& spec_is_v4_variant1(uuid_parse_result(uuid_string@)->Some_0)
                    &&& s@ == spec_from_uuid_u128(uuid_parse_result(uuid_string@)->Some_0)
                    &&& s@ < 0x04000000000000000000000000000000
                },
                Err(AllocatorError::InvalidUuidString) => uuid_parse_result(uuid_string@) is None,
                Err(AllocatorError::InvalidVersionOrVariant) => {
                    &&& uuid_parse_result(uuid_string@) is Some
                    &&& !spec_is_v4_variant1(uuid_parse_result(uuid_string@)->Some_0)
                },
                Err(_) => false,
            },
    {
        match parse_uuid_u128(uuid_string) {
            None => Err(AllocatorError::InvalidUuidString),
            Some(bits) => {
                let version_ok = ((bits >> 76) & 0xf) == 4;
                let variant_ok = ((bits >> 62) & 0x3) == 0x2;
                if version_ok && variant_ok {
                    Ok(SessionId { id: StableId::from_uuid_u128(bits) })
                } else {
                    Err(AllocatorError::InvalidVersionOrVariant)
                }
            },
        }
    }

    /// Creates a session ID from the bits of a UUID, dropping the version and
    /// variant bits.
    pub fn from_uuid_u128(uuid_u128: u128) -> (r: SessionId)
        ensures
            r@ == spec_from_uuid_u128(uuid_u128),
            r@ < 0x04000000000000000000000000000000,
    {
        SessionId { id: StableId::from_uuid_u128(uuid_u128) }
    }

    /// The underlying stable ID.
    pub fn stable_id(&self) -> (r: StableId)
        ensures
            r@ == self@,
    {
        self.id
    }

    /// The canonical hyphenated UUID string of the session.
    pub fn to_uuid_string(&self) -> (r: String)
        ensures
            r@ == crate::uuid_ops::uuid_hyphenated_text(
                crate::id_types::stable_id::spec_to_uuid_u128(self@ as u128),
            ),
            r@.len() == 36,
            crate::uuid_ops::uuid_parse_result(r@) == Some(
                crate::id_types::stable_id::spec_to_uuid_u128(self@ as u128),
            ),
    {
        self.id.to_uuid_string()
    }

    /// The stable ID that a local of this session stands for: the session's
    /// stable ID advanced by the local's 0-based offset.
    pub fn stable_from_local_offset(&self, local: LocalId) -> (r: StableId)
        requires
            local@ < 0,
            self@ + local.gen_count() - 1 <= u128::MAX,
        ensures
            r@ == self@ + local.gen_count() - 1,
    {
        let offset: u64 = local.to_generation_count() - 1;
        self.id.offset_by(offset)
    }
}

/// Internal type conversion from a stable ID already in compressed form.
pub fn from_stable_id(stable_id: StableId) -> (r: SessionId)
    requires
        stable_id@ < 0x04000000000000000000000000000000,
    ensures
        r@ == stable_id@,
{
    proof {
        stable_id.lemma_view_bounds();
    }
    SessionId { id: stable_id }
}

} // verus!
