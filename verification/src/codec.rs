//! Trusted bindings to the binary-encoding collaborator (base64) and to
//! the session-ID generator (uuid). File contents cross the HTTP surface
//! base64-encoded; session identifiers are fresh version-4 UUIDs.

use vstd::prelude::*;
use base64::Engine;

verus! {

/// The standard padded base64 rendering of a byte sequence.
pub uninterp spec fn b64_of(bytes: Seq<u8>) -> Seq<char>;

/// Whether `s` is the standard padded base64 rendering of some bytes.
pub open spec fn is_b64(s: Seq<char>) -> bool {
    exists|v: Seq<u8>| b64_of(v) == s
}

/// The bytes whose rendering `s` is; meaningful only when `is_b64(s)`.
pub open spec fn b64_decoded(s: Seq<char>) -> Seq<u8> {
    choose|v: Seq<u8>| b64_of(v) == s
}

/// Relies on base64's STANDARD engine: `encode` returns the canonical
/// padded rendering of its input, a function of the bytes alone.
#[verifier::external_body]
pub(crate) fn b64_encode(bytes: &Vec<u8>) -> (r: String)
    ensures
        r@ == b64_of(bytes@),
{
    base64::engine::general_purpose::STANDARD.encode(bytes.as_slice())
}

/// Relies on base64's STANDARD engine: `decode` demands canonical padding
/// and rejects nonzero trailing bits, so it accepts exactly the strings
/// `encode` produces and inverts `encode` on them.
#[verifier::external_body]
pub(crate) fn b64_decode(s: &String) -> (r: Option<Vec<u8>>)
    ensures
        match r {
            Some(v) => s@ == b64_of(v@) && forall|w: Seq<u8>| b64_of(w) == s@ ==> w == v@,
            None => !is_b64(s@),
        },
{
    match base64::engine::general_purpose::STANDARD.decode(s.as_str()) {
        Ok(v) => Some(v),
        Err(_) => None,
    }
}

/// Relies on uuid: `Uuid::new_v4` rendered through `Display` is the
/// 36-character hyphenated form. The value is random; nothing more is
/// assumed of it.
#[verifier::external_body]
pub(crate) fn fresh_session_id() -> (r: String)
    ensures
        r@.len() == 36,
{
    uuid::Uuid::new_v4().to_string()
}

} // verus!
