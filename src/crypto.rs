//! Key derivation and addresses over SHA3-256.

use vstd::prelude::*;
use sha3::Digest;
use crate::digest::lower_hex;

verus! {

/// The SHA3-256 digest of `data`.
pub uninterp spec fn sha3_256_of(data: Seq<u8>) -> Seq<u8>;

/// Relies on `sha3::Sha3_256::digest`: a 32-byte digest of `data`.
#[verifier::external_body]
fn sha3_256(data: &[u8]) -> (r: Vec<u8>)
    ensures
        r@ == sha3_256_of(data@),
        r@.len() == 32,
{
    sha3::Sha3_256::digest(data).to_vec()
}

/// Relies on `hex::encode`: each byte becomes two lowercase hexadecimal
/// digits, the high half first.
#[verifier::external_body]
fn hex_encode(b: &[u8]) -> (r: String)
    ensures
        r@ == lower_hex(b@),
{
    hex::encode(b)
}

/// Appends all of `b` to `out`.
fn push_bytes(out: &mut Vec<u8>, b: &[u8])
    ensures
        final(out)@ == old(out)@ + b@,
{
    let ghost start = out@;
    let mut i: usize = 0;
    while i < b.len()
        invariant
            i <= b@.len(),
            out@ == start + b@.subrange(0, i as int),
        decreases b@.len() - i,
    {
        out.push(b[i]);
        i = i + 1;
        assert(out@ =~= start + b@.subrange(0, i as int));
    }
    assert(b@.subrange(0, b@.len() as int) =~= b@);
}

/// A key derived from a seed and a rotation vector: SHA3-256 of the two,
/// one after the other.
pub fn derive_key(seed: &[u8], vector: &[u8]) -> (r: Vec<u8>)
    ensures
        r@ == sha3_256_of(seed@ + vector@),
        r@.len() == 32,
{
    let mut data: Vec<u8> = Vec::new();
    push_bytes(&mut data, seed);
    push_bytes(&mut data, vector);
    assert(data@ =~= seed@ + vector@);
    sha3_256(data.as_slice())
}

/// The address of a public key: the hexadecimal text of its SHA3-256 digest.
pub fn generate_address(pub_key: &[u8]) -> (r: String)
    ensures
        r@ == lower_hex(sha3_256_of(pub_key@)),
{
    let digest = sha3_256(pub_key);
    hex_encode(digest.as_slice())
}

/// A rotating key: a fixed master seed and a vector (face, depth, x, y) whose
/// depth advances modulo 3 with every key handed out.
pub struct CubicKey {
    master_seed: [u8; 32],
    current_vector: [u8; 4],
}

impl CubicKey {
    pub closed spec fn seed(&self) -> Seq<u8> {
        self.master_seed@
    }

    pub closed spec fn vector(&self) -> Seq<u8> {
        self.current_vector@
    }

    pub fn new(master_seed: [u8; 32], initial_vector: [u8; 4]) -> (r: CubicKey)
        ensures
            r.seed() == master_seed@,
            r.vector() == initial_vector@,
            r.seed().len() == 32,
            r.vector().len() == 4,
    {
        CubicKey { master_seed, current_vector: initial_vector }
    }

    /// A key whose master seed is the first 32 bytes of `seed`, starting
    /// from the zero vector.
    pub fn from_seed(seed: &[u8]) -> (r: CubicKey)
        requires
            seed@.len() >= 32,
        ensures
            r.seed() == seed@.subrange(0, 32),
            r.vector() == seq![0u8, 0u8, 0u8, 0u8],
            r.seed().len() == 32,
            r.vector().len() == 4,
    {
        let mut master_seed = [0u8; 32];
        let mut i: usize = 0;
        while i < 32
            invariant
                i <= 32,
                seed@.len() >= 32,
                master_seed@.len() == 32,
                forall|j: int| 0 <= j < i ==> master_seed@[j] == seed@[j],
            decreases 32 - i,
        {
            master_seed[i] = seed[i];
            i = i + 1;
        }
        let r = CubicKey { master_seed, current_vector: [0, 0, 0, 0] };
        assert(r.seed() =~= seed@.subrange(0, 32));
        assert(r.vector() =~= seq![0u8, 0u8, 0u8, 0u8]);
        r
    }

    /// The key for the current vector, SHA3-256 of the seed then the vector;
    /// the vector's depth then moves on to the next value modulo 3.
    pub fn next_key(&mut self) -> (r: Vec<u8>)
        ensures
            r@ == sha3_256_of(old(self).seed() + old(self).vector()),
            r@.len() == 32,
            final(self).seed() == old(self).seed(),
            final(self).vector().len() == 4,
            final(self).vector() == old(self).vector().update(
                1,
                ((old(self).vector()[1] + 1) % 3) as u8,
            ),
    {
        let key = derive_key(self.master_seed.as_slice(), self.current_vector.as_slice());
        let depth = self.current_vector[1];
        self.current_vector[1] = ((depth as u16 + 1) % 3) as u8;
        assert(self.current_vector@ =~= old(self).vector().update(1, ((old(self).vector()[1] + 1) % 3) as u8));
        key
    }
}

} // verus!
