//! Byte manipulations used to read NTLM hashes out of a SAM hive.
use vstd::prelude::*;

verus! {

/// The number of set bits among bits 1 to 7 of `x`.
pub open spec fn high_bits_set(x: u8) -> nat {
    (if x & 0x02 != 0 { 1nat } else { 0nat }) + (if x & 0x04 != 0 { 1nat } else { 0nat }) + (
    if x & 0x08 != 0 { 1nat } else { 0nat }) + (if x & 0x10 != 0 { 1nat } else { 0nat }) + (
    if x & 0x20 != 0 { 1nat } else { 0nat }) + (if x & 0x40 != 0 { 1nat } else { 0nat }) + (
    if x & 0x80 != 0 { 1nat } else { 0nat })
}

/// `x` with its lowest bit set so that it has an odd number of set bits.
pub open spec fn odd_parity(x: u8) -> u8 {
    if high_bits_set(x) % 2 == 0 {
        x | 1
    } else {
        x & 0xfe
    }
}

/// The seven bits of group `i` of a 56-bit key held in seven bytes, most
/// significant first.
pub open spec fn key_group(key: Seq<u8>, i: int) -> u8 {
    if i == 0 {
        key[0] >> 1u8
    } else if i == 1 {
        ((key[0] & 0x01) << 6u8) | key[1] >> 2u8
    } else if i == 2 {
        ((key[1] & 0x03) << 5u8) | key[2] >> 3u8
    } else if i == 3 {
        ((key[2] & 0x07) << 4u8) | key[3] >> 4u8
    } else if i == 4 {
        ((key[3] & 0x0F) << 3u8) | key[4] >> 5u8
    } else if i == 5 {
        ((key[4] & 0x1F) << 2u8) | key[5] >> 6u8
    } else if i == 6 {
        ((key[5] & 0x3F) << 1u8) | key[6] >> 7u8
    } else {
        key[6] & 0x7F
    }
}

/// `x` with its lowest bit set for odd parity.
fn with_odd_parity(x: u8) -> (r: u8)
    ensures
        r == odd_parity(x),
{
    let mut count: u8 = 0;
    if x & 0x02 != 0 {
        count += 1;
    }
    if x & 0x04 != 0 {
        count += 1;
    }
    if x & 0x08 != 0 {
        count += 1;
    }
    if x & 0x10 != 0 {
        count += 1;
    }
    if x & 0x20 != 0 {
        count += 1;
    }
    if x & 0x40 != 0 {
        count += 1;
    }
    if x & 0x80 != 0 {
        count += 1;
    }
    if count % 2 == 0 {
        x | 1
    } else {
        x & 0xfe
    }
}

/// Spreads a 56-bit key over eight bytes, seven bits each followed by an
/// odd parity bit, as DES expects.
pub fn derive_des_key(key: &[u8]) -> (r: Vec<u8>)
    requires
        key@.len() >= 7,
    ensures
        r@.len() == 8,
        forall|i: int| 0 <= i < 8 ==> #[trigger] r@[i] == odd_parity((key_group(key@, i) << 1u8) as u8),
{
    let groups: [u8; 8] = [
        key[0] >> 1,
        ((key[0] & 0x01) << 6) | key[1] >> 2,
        ((key[1] & 0x03) << 5) | key[2] >> 3,
        ((key[2] & 0x07) << 4) | key[3] >> 4,
        ((key[3] & 0x0F) << 3) | key[4] >> 5,
        ((key[4] & 0x1F) << 2) | key[5] >> 6,
        ((key[5] & 0x3F) << 1) | key[6] >> 7,
        key[6] & 0x7F,
    ];
    let mut out: Vec<u8> = Vec::new();
    let mut i: usize = 0;
    while i < 8
        invariant
            0 <= i <= 8,
            key@.len() >= 7,
            out@.len() == i,
            forall|j: int| 0 <= j < 8 ==> #[trigger] groups[j] == key_group(key@, j),
            forall|j: int| 0 <= j < i ==> #[trigger] out@[j] == odd_parity((key_group(key@, j) << 1u8) as u8),
        decreases 8 - i,
    {
        out.push(with_odd_parity(groups[i] << 1));
        i += 1;
    }
    out
}

/// Picks the bytes of `array` at the given positions, in order.
pub fn permute(array: &[u8], permutations: &[u8]) -> (r: Vec<u8>)
    requires
        forall|i: int| 0 <= i < permutations@.len() ==> #[trigger] permutations@[i] < array@.len(),
    ensures
        r@.len() == permutations@.len(),
        forall|i: int| 0 <= i < r@.len() ==> #[trigger] r@[i] == array@[permutations@[i] as int],
{
    let mut res: Vec<u8> = Vec::new();
    let mut i: usize = 0;
    while i < permutations.len()
        invariant
            0 <= i <= permutations@.len(),
            res@.len() == i,
            forall|j: int| 0 <= j < permutations@.len() ==> #[trigger] permutations@[j] < array@.len(),
            forall|j: int| 0 <= j < i ==> #[trigger] res@[j] == array@[permutations@[j] as int],
        decreases permutations@.len() - i,
    {
        res.push(array[permutations[i] as usize]);
        i += 1;
    }
    res
}

} // verus!
