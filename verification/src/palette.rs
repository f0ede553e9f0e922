//! Deterministic palette selection for the debug renderer: an entity's
//! colour is picked by hashing its identity (and, when present, a value
//! that tells entities of one role apart) into a fixed palette.
use crate::identity::Identity;
use crate::json::{as_str, as_u64, json_as_str, json_as_u64, json_member, member};
use crate::strings::{append_decimal, append_str, chars_of, string_from_chars};
use vstd::prelude::*;

verus! {

/// Number of colours in the palette.
pub open spec fn palette_len() -> nat {
    12
}

/// The DJB2 string hash of a byte sequence, in wrapping `usize` arithmetic.
pub open spec fn djb2(bytes: Seq<u8>) -> usize
    decreases bytes.len(),
{
    if bytes.len() == 0 {
        5381
    } else {
        vstd::wrapping::usize_specs::wrapping_add(
            vstd::wrapping::usize_specs::wrapping_mul(djb2(bytes.drop_last()), 33),
            bytes.last() as usize,
        )
    }
}

/// Simple string hash for deterministic palette selection: DJB2 over the
/// UTF-8 bytes of `s`.
pub fn hash_str(s: &str) -> (h: usize)
    ensures
        h == djb2(vstd::utf8::encode_utf8(s@)),
{
    let bytes = s.as_bytes();
    let mut h: usize = 5381;
    let mut i: usize = 0;
    while i < bytes.len()
        invariant
            i <= bytes@.len(),
            bytes@ == vstd::utf8::encode_utf8(s@),
            h == djb2(bytes@.take(i as int)),
        decreases bytes@.len() - i,
    {
        proof {
            assert(bytes@.take(i as int + 1).drop_last() =~= bytes@.take(i as int));
        }
        h = h.wrapping_mul(33).wrapping_add(bytes[i] as usize);
        i = i + 1;
    }
    proof {
        assert(bytes@.take(i as int) =~= bytes@);
    }
    h
}

/// The text hashed to pick the colour of an entity with `identity`: its
/// role (empty for pooled entities), `':'`, its type name, and, when there
/// is one, `':'` and the distinguishing value.
pub open spec fn palette_key(identity: Identity, distinguisher: Option<Seq<char>>) -> Seq<char> {
    let role = match identity {
        Identity::Semantic(e) => e.role@,
        Identity::Pooled(_) => Seq::empty(),
    };
    let kind_name = match identity {
        Identity::Semantic(e) => e.entity_type@,
        Identity::Pooled(p) => p.pool_type@,
    };
    match distinguisher {
        Some(d) => role + ":"@ + kind_name + ":"@ + d,
        None => role + ":"@ + kind_name,
    }
}

/// The palette position of an entity's colour: `None` (the default colour)
/// without an identity, else the hash of its palette key modulo the palette
/// size.
pub fn palette_index(identity: Option<&Identity>, distinguisher: Option<&str>) -> (r: Option<usize>)
    ensures
        match identity {
            None => r is None,
            Some(id) => r == Some(
                (djb2(vstd::utf8::encode_utf8(palette_key(*id, match distinguisher {
                    Some(d) => Some(d@),
                    None => None,
                }))) as nat % palette_len()) as usize,
            ),
        },
{
    let id = match identity {
        Some(id) => id,
        None => {
            return None;
        },
    };
    let mut key: Vec<char> = Vec::new();
    match id.role() {
        Some(role) => append_str(&mut key, role),
        None => {},
    }
    append_str(&mut key, ":");
    append_str(&mut key, id.type_str());
    match distinguisher {
        Some(d) => {
            append_str(&mut key, ":");
            append_str(&mut key, d);
        },
        None => {},
    }
    proof {
        let d = match distinguisher {
            Some(d) => Some(d@),
            None => None,
        };
        assert(key@ =~= palette_key(*id, d));
    }
    let s = string_from_chars(key.as_slice());
    Some(hash_str(s.as_str()) % 12)
}

/// The value that tells entities of one role apart, read from their type
/// component: its `"type_id"` field in decimal when that is an unsigned
/// integer, else its `"name"` field when that is a string.
pub fn type_distinguisher(v: &serde_json::Value) -> (r: Option<String>)
    ensures
        match r {
            Some(s) => type_distinguisher_spec(*v) == Some(s@),
            None => type_distinguisher_spec(*v) is None,
        },
{
    let id = match member(v, "type_id") {
        Some(m) => as_u64(m),
        None => None,
    };
    match id {
        Some(n) => {
            let mut cs: Vec<char> = Vec::new();
            append_decimal(&mut cs, n);
            Some(string_from_chars(cs.as_slice()))
        },
        None => match member(v, "name") {
            Some(m) => match as_str(m) {
                Some(s) => Some(s.to_owned()),
                None => None,
            },
            None => None,
        },
    }
}

/// [`type_distinguisher`] on the JSON accessors' results: the `"type_id"`
/// member in decimal when it reads as an unsigned integer, else the
/// `"name"` member when it reads as a string.
pub open spec fn type_distinguisher_spec(v: serde_json::Value) -> Option<Seq<char>> {
    let id = match json_member(v, "type_id"@) {
        Some(m) => json_as_u64(m),
        None => None,
    };
    match id {
        Some(n) => Some(crate::strings::decimal(n as nat)),
        None => match json_member(v, "name"@) {
            Some(m) => json_as_str(m),
            None => None,
        },
    }
}

} // verus!
