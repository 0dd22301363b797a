//! Tile ids: 128-bit values whose key form is their 16 big-endian bytes.

use vstd::prelude::*;

verus! {

/// The 16 big-endian bytes of an id.
pub open spec fn be_bytes(id: u128) -> Seq<u8> {
    Seq::new(16, |i: int| (id >> ((120 - 8 * i) as u128)) as u8)
}

/// Calls `uuid::Uuid::from_u128` and `Uuid::as_bytes`. The contract claims that
/// the bytes are the id's 16 bytes in big-endian order (the source builds the
/// value with `u128::to_be_bytes`).
#[verifier::external_body]
fn uuid_bytes(id: u128) -> (bytes: Vec<u8>)
    ensures
        bytes@ == be_bytes(id),
{
    uuid::Uuid::from_u128(id).as_bytes().to_vec()
}

/// Calls `uuid::Uuid::from_slice` and `Uuid::as_u128`. The contract claims that
/// a value comes back exactly when the slice holds 16 bytes, and that those
/// bytes are then the big-endian bytes of the value.
#[verifier::external_body]
fn uuid_from_slice(bytes: &[u8]) -> (id: Option<u128>)
    ensures
        id is Some <==> bytes@.len() == 16,
        id matches Some(v) ==> be_bytes(v) == bytes@,
{
    match uuid::Uuid::from_slice(bytes) {
        Ok(u) => Some(u.as_u128()),
        Err(_) => None,
    }
}

/// The key under which a tile with this id is stored: its 16 bytes.
pub fn id_key(id: u128) -> (key: Vec<u8>)
    ensures
        key@ == be_bytes(id),
{
    uuid_bytes(id)
}

/// Reads an id back from a tile key; keys that are not 16 bytes long hold no id.
pub fn parse_id(key: &[u8]) -> (id: Option<u128>)
    ensures
        id is Some <==> key@.len() == 16,
        id matches Some(v) ==> be_bytes(v) == key@,
{
    uuid_from_slice(key)
}

/// Distinct ids have distinct keys, so reading an id back from its key
/// gives the id.
pub proof fn lemma_be_bytes_injective(a: u128, b: u128)
    requires
        be_bytes(a) == be_bytes(b),
    ensures
        a == b,
{
    let sa = be_bytes(a);
    let sb = be_bytes(b);
    assert(sa[0] == sb[0] && sa[1] == sb[1] && sa[2] == sb[2] && sa[3] == sb[3]);
    assert(sa[4] == sb[4] && sa[5] == sb[5] && sa[6] == sb[6] && sa[7] == sb[7]);
    assert(sa[8] == sb[8] && sa[9] == sb[9] && sa[10] == sb[10] && sa[11] == sb[11]);
    assert(sa[12] == sb[12] && sa[13] == sb[13] && sa[14] == sb[14] && sa[15] == sb[15]);
    assert(a == b) by (bit_vector)
        requires
            (a >> 120u128) as u8 == (b >> 120u128) as u8,
            (a >> 112u128) as u8 == (b >> 112u128) as u8,
            (a >> 104u128) as u8 == (b >> 104u128) as u8,
            (a >> 96u128) as u8 == (b >> 96u128) as u8,
            (a >> 88u128) as u8 == (b >> 88u128) as u8,
            (a >> 80u128) as u8 == (b >> 80u128) as u8,
            (a >> 72u128) as u8 == (b >> 72u128) as u8,
            (a >> 64u128) as u8 == (b >> 64u128) as u8,
            (a >> 56u128) as u8 == (b >> 56u128) as u8,
            (a >> 48u128) as u8 == (b >> 48u128) as u8,
            (a >> 40u128) as u8 == (b >> 40u128) as u8,
            (a >> 32u128) as u8 == (b >> 32u128) as u8,
            (a >> 24u128) as u8 == (b >> 24u128) as u8,
            (a >> 16u128) as u8 == (b >> 16u128) as u8,
            (a >> 8u128) as u8 == (b >> 8u128) as u8,
            (a >> 0u128) as u8 == (b >> 0u128) as u8,
    ;
}

/// Reading an id back from its key gives the id: when `key` is the key of
/// `id` and `parsed` is what [`parse_id`] promises for that key, `parsed`
/// holds `id`.
pub proof fn lemma_id_round_trip(id: u128, key: Seq<u8>, parsed: Option<u128>)
    requires
        key == be_bytes(id),
        parsed is Some <==> key.len() == 16,
        parsed matches Some(v) ==> be_bytes(v) == key,
    ensures
        parsed == Some(id),
{
    assert(key.len() == 16);
    lemma_be_bytes_injective(parsed->0, id);
}

} // verus!
