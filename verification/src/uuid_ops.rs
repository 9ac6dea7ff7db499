use vstd::prelude::*;

verus! {

/// The value that `uuid::Uuid::try_parse` yields for a string, as the bits of
/// the parsed UUID, or `None` where the string is not a UUID in any form the
/// parser accepts.
pub uninterp spec fn uuid_parse_result(s: Seq<char>) -> Option<u128>;

/// The canonical lower-case hyphenated text of the UUID with the given bits,
/// as `uuid::fmt::Hyphenated` renders it.
pub uninterp spec fn uuid_hyphenated_text(n: u128) -> Seq<char>;

/// Relies on uuid's `Uuid::try_parse` and `Uuid::as_u128`: parses a UUID
/// string (hyphenated, simple, braced or URN form) into its bits; the result
/// depends on the characters alone.
#[verifier::external_body]
pub(crate) fn parse_uuid_u128(s: &str) -> (r: Option<u128>)
    ensures
        r == uuid_parse_result(s@),
{
    match uuid::Uuid::try_parse(s) {
        Ok(u) => Some(u.as_u128()),
        Err(_) => None,
    }
}

/// Relies on uuid's `Uuid::from_u128` and the `Display` of `Uuid`, which is
/// the lower-case hyphenated form of 36 characters; `Uuid::try_parse` reads
/// that form back to the same bits.
#[verifier::external_body]
pub(crate) fn uuid_u128_to_string(n: u128) -> (r: String)
    ensures
        r@ == uuid_hyphenated_text(n),
        r@.len() == 36,
        uuid_parse_result(r@) == Some(n),
{
    uuid::Uuid::from_u128(n).to_string()
}

/// Relies on uuid's `Uuid::new_v4`: returns the bits of a freshly drawn
/// random UUID, which carries version 4 and variant 1 (RFC 4122) bits.
#[verifier::external_body]
pub(crate) fn random_uuid_u128() -> (r: u128)
    ensures
        (r >> 76) & 0xf == 4,
        (r >> 62) & 0x3 == 0x2,
{
    uuid::Uuid::new_v4().as_u128()
}

} // verus!
