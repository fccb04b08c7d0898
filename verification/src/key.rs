//! Integer keys for numbers in sign-and-magnitude form: the key grows as
//! the number does, so that the ranking can compare keys.

use vstd::prelude::*;

verus! {

/// The place of a sign-and-magnitude pattern among all patterns, counted
/// from zero: the top bit of `bits` is the sign, the other bits are the
/// magnitude. A pattern without sign stands at its magnitude; one with sign
/// stands below zero, the further the greater its magnitude. Minus zero
/// stands just below zero.
pub open spec fn place(bits: u32) -> int {
    if bits < 0x8000_0000 {
        bits as int
    } else {
        -(bits - 0x8000_0000) - 1
    }
}

/// The key of a place: the place moved up so that no key is negative.
pub open spec fn key_at(place: int) -> int {
    place + 0x8000_0000
}

/// The key of a sign-and-magnitude pattern.
pub fn key_of_bits(bits: u32) -> (key: u64)
    ensures
        key == key_at(place(bits)),
        key <= u32::MAX,
{
    if bits < 0x8000_0000 {
        bits as u64 + 0x8000_0000
    } else {
        0xffff_ffff - bits as u64
    }
}

/// The pattern that has this key, if there is one: the keys are the
/// numbers up to `u32::MAX`.
pub fn bits_of_key(key: u64) -> (bits: Option<u32>)
    ensures
        bits is Some <==> key <= u32::MAX,
        bits matches Some(b) ==> key == key_at(place(b)),
{
    if key > 0xffff_ffff {
        None
    } else if key >= 0x8000_0000 {
        Some((key - 0x8000_0000) as u32)
    } else {
        Some((0xffff_ffff - key) as u32)
    }
}

/// Keys order as places do, and two patterns with one key are the same
/// pattern.
pub proof fn lemma_keys_order_as_places(a: u32, b: u32)
    ensures
        key_at(place(a)) < key_at(place(b)) <==> place(a) < place(b),
        key_at(place(a)) == key_at(place(b)) ==> a == b,
        0 <= key_at(place(a)) <= u32::MAX,
{
}

/// Among patterns without sign the greater magnitude has the greater key;
/// among patterns with sign, the smaller; and a pattern with sign has a
/// smaller key than one without.
pub proof fn lemma_places(a: u32, b: u32)
    ensures
        a < 0x8000_0000 && b < 0x8000_0000 ==> (place(a) < place(b) <==> a < b),
        a >= 0x8000_0000 && b >= 0x8000_0000 ==> (place(a) < place(b) <==> a > b),
        a >= 0x8000_0000 && b < 0x8000_0000 ==> place(a) < place(b),
{
}

} // verus!
