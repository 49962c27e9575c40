//! Positional helpers over raw digest bytes. Their digital root is the
//! byte-sum variant (1..=9), distinct from the hexadecimal-text digital root
//! that the Stack Engine uses to choose slots.

use vstd::prelude::*;

verus! {

/// Sum of all bytes.
pub open spec fn byte_sum(b: Seq<u8>) -> nat
    decreases b.len(),
{
    if b.len() == 0 {
        0
    } else {
        byte_sum(b.drop_last()) + b.last() as nat
    }
}

/// The byte sum modulo 9, with 9 standing for 0.
pub open spec fn byte_digital_root(b: Seq<u8>) -> nat {
    if byte_sum(b) % 9 == 0 {
        9
    } else {
        byte_sum(b) % 9
    }
}

/// Digital root of a digest's bytes: their sum modulo 9, 9 in place of 0.
pub fn digital_root(hash: &[u8]) -> (r: u8)
    ensures
        r as nat == byte_digital_root(hash@),
        1 <= r <= 9,
{
    let mut acc: u32 = 0;
    let mut i: usize = 0;
    while i < hash.len()
        invariant
            i <= hash@.len(),
            acc < 9,
            acc as nat == byte_sum(hash@.subrange(0, i as int)) % 9,
        decreases hash@.len() - i,
    {
        proof {
            let p = hash@.subrange(0, i as int + 1);
            assert(p.drop_last() =~= hash@.subrange(0, i as int));
            vstd::arithmetic::div_mod::lemma_add_mod_noop(
                byte_sum(hash@.subrange(0, i as int)) as int,
                hash@[i as int] as int,
                9,
            );
        }
        acc = (acc + hash[i] as u32) % 9;
        i = i + 1;
    }
    assert(hash@.subrange(0, i as int) =~= hash@);
    if acc == 0 {
        9
    } else {
        acc as u8
    }
}

/// Where a transaction sits: the Face (its digest's digital root) and the
/// depth and coordinates within a 3x3x3 Cube, each the matching leading byte
/// modulo 3.
pub fn cube_position(tx_hash: &[u8]) -> (r: (u8, u8, u8, u8, u8))
    requires
        tx_hash@.len() >= 4,
    ensures
        r.0 as nat == byte_digital_root(tx_hash@),
        r.1 == tx_hash@[0] % 3,
        r.2 == tx_hash@[1] % 3,
        r.3 == tx_hash@[2] % 3,
        r.4 == tx_hash@[3] % 3,
{
    let face = digital_root(tx_hash);
    let depth = tx_hash[0] % 3;
    let x = tx_hash[1] % 3;
    let y = tx_hash[2] % 3;
    let z = tx_hash[3] % 3;
    (face, depth, x, y, z)
}

} // verus!
