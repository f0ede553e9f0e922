//! Content hashes of serialized engine state.
//!
//! An engine snapshot is identified by the BLAKE3 digest of the canonical
//! JSON bytes of its state, written as lowercase hexadecimal. Restoring a
//! snapshot first checks that its recorded hash matches its state.
use crate::strings::{append_str, str_eq, string_from_chars};
use vstd::prelude::*;

verus! {

/// The lowercase hexadecimal BLAKE3 digest of `bytes`.
pub uninterp spec fn blake3_hex(bytes: Seq<u8>) -> Seq<char>;

/// A lowercase hexadecimal digit.
pub open spec fn is_lower_hex(c: char) -> bool {
    ('0' <= c <= '9') || ('a' <= c <= 'f')
}

/// A BLAKE3 digest in hex: 64 lowercase hexadecimal digits.
pub open spec fn is_digest_hex(s: Seq<char>) -> bool {
    &&& s.len() == 64
    &&& forall|i: int| 0 <= i < 64 ==> is_lower_hex(#[trigger] s[i])
}

/// Trusted: `blake3::hash(bytes).to_hex()`. The crate's source writes each
/// of the 32 digest bytes as two characters of `"0123456789abcdef"`, so the
/// result is 64 lowercase hex digits; the digest itself is named by
/// [`blake3_hex`], not stated.
#[verifier::external_body]
fn blake3_hex_of(bytes: &[u8]) -> (h: String)
    ensures
        h@ == blake3_hex(bytes@),
        is_digest_hex(h@),
{
    blake3::hash(bytes).to_hex().to_string()
}

/// The state hash of serialized engine state: the BLAKE3 digest of its
/// bytes in lowercase hexadecimal.
pub fn state_hash(state_json: &[u8]) -> (h: String)
    ensures
        h@ == blake3_hex(state_json@),
        is_digest_hex(h@),
{
    blake3_hex_of(state_json)
}

/// A recorded hash that does not match the state it was recorded for.
#[derive(Debug, Clone, PartialEq, Eq)]
pub struct HashMismatch {
    /// The hash the snapshot carries.
    pub recorded: String,
    /// The hash of the snapshot's state.
    pub recomputed: String,
}

impl HashMismatch {
    /// The message describing a mismatch.
    pub open spec fn message_spec(&self) -> Seq<char> {
        "snapshot hash mismatch: recorded "@ + self.recorded@ + " but recomputed "@ + self.recomputed@
            + ". The snapshot may be corrupted or tampered with."@
    }

    /// The message describing a mismatch, naming both hashes.
    pub fn message(&self) -> (s: String)
        ensures
            s@ == self.message_spec(),
    {
        let mut cs: Vec<char> = Vec::new();
        append_str(&mut cs, "snapshot hash mismatch: recorded ");
        append_str(&mut cs, self.recorded.as_str());
        append_str(&mut cs, " but recomputed ");
        append_str(&mut cs, self.recomputed.as_str());
        append_str(&mut cs, ". The snapshot may be corrupted or tampered with.");
        assert(cs@ =~= self.message_spec());
        string_from_chars(cs.as_slice())
    }
}

/// Check a recorded hash against serialized state: `Ok` exactly when the
/// recorded hash is the state's hash; otherwise both hashes are reported.
pub fn check_state_hash(state_json: &[u8], recorded: &str) -> (r: Result<(), HashMismatch>)
    ensures
        r is Ok <==> recorded@ == blake3_hex(state_json@),
        r matches Err(m) ==> m.recorded@ == recorded@ && m.recomputed@ == blake3_hex(state_json@),
{
    let recomputed = state_hash(state_json);
    if str_eq(recomputed.as_str(), recorded) {
        Ok(())
    } else {
        Err(HashMismatch { recorded: recorded.to_owned(), recomputed })
    }
}

} // verus!
