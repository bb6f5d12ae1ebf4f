//! Entry identifiers. Every durable entry of the pipeline is keyed by a
//! fresh random identifier of `KEY_LEN` lowercase hexadecimal characters
//! (ASCII bytes here; the durable store renders them as file or record
//! names). Names of any other shape are partial or temporary writes and are
//! never touched by consolidation.

use crate::bytes::clone_bytes;
use vstd::prelude::*;

verus! {

/// Length of a conforming key: two hex digits for each of 32 random bytes.
pub const KEY_LEN: usize = 64;

/// `b` is an ASCII lowercase hexadecimal digit.
pub open spec fn is_hex_digit(b: u8) -> bool {
    (0x30 <= b && b <= 0x39) || (0x61 <= b && b <= 0x66)
}

/// `k` has the exact shape of a generated identifier.
pub open spec fn is_conforming_key(k: Seq<u8>) -> bool {
    &&& k.len() == KEY_LEN
    &&& forall|i: int| 0 <= i < k.len() ==> is_hex_digit(#[trigger] k[i])
}

/// The ASCII digit for the nibble `n`.
pub open spec fn hex_digit(n: u8) -> u8 {
    if n < 10 {
        (0x30 + n) as u8
    } else {
        (0x57 + n) as u8
    }
}

/// The lowercase hexadecimal rendering of a byte string, two digits a byte.
pub open spec fn hex_of(bs: Seq<u8>) -> Seq<u8>
    decreases bs.len(),
{
    if bs.len() == 0 {
        Seq::empty()
    } else {
        hex_of(bs.drop_last()) + seq![hex_digit(bs.last() / 16), hex_digit(bs.last() % 16)]
    }
}

pub proof fn lemma_hex_of_conforms(bs: Seq<u8>)
    ensures
        hex_of(bs).len() == 2 * bs.len(),
        forall|i: int| 0 <= i < hex_of(bs).len() ==> is_hex_digit(#[trigger] hex_of(bs)[i]),
    decreases bs.len(),
{
    if bs.len() > 0 {
        lemma_hex_of_conforms(bs.drop_last());
    }
}

/// Hexadecimal encoding of 32 bytes is a conforming key.
pub proof fn lemma_hex_key_conforms(bs: Seq<u8>)
    requires
        bs.len() == 32,
    ensures
        is_conforming_key(hex_of(bs)),
{
    lemma_hex_of_conforms(bs);
}

/// The ASCII digit for the nibble `n`.
pub fn hex_digit_of(n: u8) -> (r: u8)
    requires
        n < 16,
    ensures
        r == hex_digit(n),
{
    if n < 10 {
        0x30 + n
    } else {
        0x57 + n
    }
}

/// The lowercase hexadecimal rendering of a byte string.
pub fn hex_encode(bs: &Vec<u8>) -> (r: Vec<u8>)
    ensures
        r@ == hex_of(bs@),
{
    let mut r: Vec<u8> = Vec::new();
    let mut i: usize = 0;
    while i < bs.len()
        invariant
            i <= bs.len(),
            r@ == hex_of(bs@.subrange(0, i as int)),
        decreases bs.len() - i,
    {
        let b = bs[i];
        r.push(hex_digit_of(b / 16));
        r.push(hex_digit_of(b % 16));
        proof {
            let pre = bs@.subrange(0, i as int);
            let ext = bs@.subrange(0, (i + 1) as int);
            assert(ext.drop_last() =~= pre);
            assert(r@ =~= hex_of(ext));
        }
        i = i + 1;
    }
    assert(bs@.subrange(0, bs@.len() as int) =~= bs@);
    r
}

/// `k` has the exact shape of a generated identifier.
pub fn key_conforms(k: &Vec<u8>) -> (r: bool)
    ensures
        r == is_conforming_key(k@),
{
    if k.len() != KEY_LEN {
        return false;
    }
    let mut i: usize = 0;
    while i < k.len()
        invariant
            i <= k.len(),
            forall|j: int| 0 <= j < i ==> is_hex_digit(#[trigger] k@[j]),
        decreases k.len() - i,
    {
        let b = k[i];
        if !((0x30 <= b && b <= 0x39) || (0x61 <= b && b <= 0x66)) {
            return false;
        }
        i = i + 1;
    }
    true
}

/// Relies on `rand::random`, which fills a 32-byte array from the
/// thread-local generator. The values are random: nothing is promised of
/// them beyond their number.
#[verifier::external_body]
fn random_bytes() -> (r: Vec<u8>)
    ensures
        r@.len() == 32,
{
    rand::random::<[u8; 32]>().to_vec()
}

/// A fresh random identifier in the conforming shape.
pub fn fresh_key() -> (r: Vec<u8>)
    ensures
        is_conforming_key(r@),
{
    let raw = random_bytes();
    let key = hex_encode(&raw);
    proof {
        lemma_hex_key_conforms(raw@);
    }
    key
}

/// A copy of a key, so one identifier can be both stored and handed back.
pub fn clone_key(k: &Vec<u8>) -> (r: Vec<u8>)
    ensures
        r@ == k@,
{
    clone_bytes(k)
}

} // verus!
