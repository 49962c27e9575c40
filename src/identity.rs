//! The verification flow of the MAYO multivariate signature scheme: key and
//! signature framing, GF(16) element decoding, message hashing and the final
//! comparison. The evaluation of the public map P*(s) is not available yet,
//! so verification of well-framed input ends in a fixed error.

use vstd::prelude::*;
use sha3::digest::ExtendableOutput;

verus! {

/// The error for an expanded public key whose length does not match the
/// parameter set.
pub const EPK_LENGTH_ERROR: &'static str = "Expanded public key has incorrect length";

/// The error for a signature whose length does not match the parameter set.
pub const SIGNATURE_LENGTH_ERROR: &'static str = "Signature has incorrect length";

/// The error that verification ends in while P*(s) cannot be evaluated.
pub const VERIFY_CORE_MISSING: &'static str = "MAYO.Verify math core (compute_p_star_s) not implemented";

/// What the evaluation of P*(s) reports while it is not available.
pub const P_STAR_S_MISSING: &'static str = "compute_p_star_s: Not yet implemented";

/// The error for a computed vector of the wrong length.
pub const Y_LENGTH_ERROR: &'static str = "Computed y vector has incorrect length";

/// The error for a byte string too short for the elements asked of it.
pub const DECODE_LENGTH_ERROR: &'static str = "Byte string too short for the requested GF(16) elements";

/// The sizes of one MAYO parameter set.
#[derive(Clone, Copy, Debug, PartialEq, Eq)]
pub struct MayoVariantParams {
    pub n: usize,
    pub m: usize,
    pub o: usize,
    pub k: usize,
    pub salt_bytes: usize,
    pub digest_bytes: usize,
    pub pk_seed_bytes: usize,
    pub sk_seed_bytes: usize,
    pub o_bytes: usize,
    pub p1_bytes: usize,
    pub p2_bytes: usize,
    pub p3_bytes: usize,
}

/// The MAYO parameter sets.
#[derive(Clone, Copy, Debug, PartialEq, Eq)]
pub enum MayoParams {
    Mayo1,
    Mayo2,
}

/// The sizes of a parameter set.
pub open spec fn variant_of(p: MayoParams) -> MayoVariantParams {
    match p {
        MayoParams::Mayo1 => MayoVariantParams {
            n: 86,
            m: 78,
            o: 8,
            k: 10,
            salt_bytes: 24,
            digest_bytes: 32,
            pk_seed_bytes: 16,
            sk_seed_bytes: 24,
            o_bytes: 312,
            p1_bytes: 120159,
            p2_bytes: 24336,
            p3_bytes: 1404,
        },
        MayoParams::Mayo2 => MayoVariantParams {
            n: 81,
            m: 64,
            o: 17,
            k: 4,
            salt_bytes: 24,
            digest_bytes: 32,
            pk_seed_bytes: 16,
            sk_seed_bytes: 24,
            o_bytes: 544,
            p1_bytes: 66560,
            p2_bytes: 34816,
            p3_bytes: 4896,
        },
    }
}

/// Bytes taken by `n` GF(16) elements, two to a byte.
pub open spec fn gf16_bytes(n: nat) -> nat {
    (n + 1) / 2
}

impl MayoParams {
    pub fn mayo1() -> (r: MayoParams)
        ensures
            r == MayoParams::Mayo1,
    {
        MayoParams::Mayo1
    }

    pub fn mayo2() -> (r: MayoParams)
        ensures
            r == MayoParams::Mayo2,
    {
        MayoParams::Mayo2
    }

    /// The sizes of this parameter set.
    pub fn variant(&self) -> (r: MayoVariantParams)
        ensures
            r == variant_of(*self),
    {
        match self {
            MayoParams::Mayo1 => MayoVariantParams {
                n: 86,
                m: 78,
                o: 8,
                k: 10,
                salt_bytes: 24,
                digest_bytes: 32,
                pk_seed_bytes: 16,
                sk_seed_bytes: 24,
                o_bytes: 312,
                p1_bytes: 120159,
                p2_bytes: 24336,
                p3_bytes: 1404,
            },
            MayoParams::Mayo2 => MayoVariantParams {
                n: 81,
                m: 64,
                o: 17,
                k: 4,
                salt_bytes: 24,
                digest_bytes: 32,
                pk_seed_bytes: 16,
                sk_seed_bytes: 24,
                o_bytes: 544,
                p1_bytes: 66560,
                p2_bytes: 34816,
                p3_bytes: 4896,
            },
        }
    }

    /// Bytes taken by `n` GF(16) elements, two to a byte.
    pub fn bytes_for_gf16_elements(&self, n: usize) -> (r: usize)
        ensures
            r == gf16_bytes(n as nat),
    {
        n / 2 + n % 2
    }
}

/// An expanded public key: the encodings of the three public matrix sets,
/// one after the other.
pub struct ExpandedPublicKey(pub Vec<u8>);

/// A message to sign or verify.
pub struct Message(pub Vec<u8>);

/// A signature: the encoding of the solution vector s, then the salt.
pub struct Signature(pub Vec<u8>);

/// An element of GF(16), held in the low four bits.
#[derive(Clone, Copy, Debug, PartialEq, Eq)]
pub struct GFElement(pub u8);

/// Element `i` of an encoding that starts at byte `start`: element `2j` is
/// the low half of byte `j`, element `2j + 1` its high half.
pub open spec fn nibble_at(bytes: Seq<u8>, start: int, i: int) -> u8 {
    if i % 2 == 0 {
        bytes[start + i / 2] % 16
    } else {
        bytes[start + i / 2] / 16
    }
}

/// Decodes `count` GF(16) elements from the bytes that begin at `start`.
pub fn decode_gf_elements(bytes: &[u8], start: usize, count: usize) -> (r: Result<
    Vec<GFElement>,
    &'static str,
>)
    ensures
        match r {
            Ok(v) => {
                &&& start + gf16_bytes(count as nat) <= bytes@.len()
                &&& v@.len() == count
                &&& forall|i: int|
                    0 <= i < count ==> (#[trigger] v@[i]).0 == nibble_at(bytes@, start as int, i)
            },
            Err(e) => start + gf16_bytes(count as nat) > bytes@.len() && e == DECODE_LENGTH_ERROR,
        },
{
    if start > bytes.len() || bytes.len() - start < count / 2 + count % 2 {
        return Err(DECODE_LENGTH_ERROR);
    }
    let blen = bytes.len();
    let mut v: Vec<GFElement> = Vec::new();
    let mut i: usize = 0;
    while i < count
        invariant
            blen == bytes@.len(),
            i <= count,
            start + gf16_bytes(count as nat) <= bytes@.len(),
            v@.len() == i,
            forall|j: int| 0 <= j < i ==> (#[trigger] v@[j]).0 == nibble_at(bytes@, start as int, j),
        decreases count - i,
    {
        assert(i / 2 < gf16_bytes(count as nat)) by {
            assert(i / 2 <= (count - 1) / 2);
        }
        let b = bytes[start + i / 2];
        if i % 2 == 0 {
            v.push(GFElement(b % 16));
        } else {
            v.push(GFElement(b / 16));
        }
        i = i + 1;
    }
    Ok(v)
}

/// SHAKE256 of `data`, `out_len` bytes long.
pub uninterp spec fn shake256_of(data: Seq<u8>, out_len: nat) -> Seq<u8>;

/// Relies on `sha3::Shake256::digest_xof` (digest's `ExtendableOutput`): it
/// fills the whole output buffer with the XOF stream of `data`.
#[verifier::external_body]
fn shake256(data: &[u8], out_len: usize) -> (r: Vec<u8>)
    ensures
        r@ == shake256_of(data@, out_len as nat),
        r@.len() == out_len,
{
    let mut out = vec![0u8; out_len];
    sha3::Shake256::digest_xof(data, &mut out);
    out
}

/// Evaluation of the public map at s, P*(s); not available yet.
pub fn compute_p_star_s(
    s_vector: &Vec<GFElement>,
    p1_matrices: &Vec<GFElement>,
    p2_matrices: &Vec<GFElement>,
    p3_matrices: &Vec<GFElement>,
    params: &MayoVariantParams,
) -> (r: Result<Vec<GFElement>, &'static str>)
    ensures
        r == Err::<Vec<GFElement>, &'static str>(P_STAR_S_MISSING),
{
    Err(P_STAR_S_MISSING)
}

/// Whether two element vectors are equal.
fn same_elements(a: &Vec<GFElement>, b: &Vec<GFElement>) -> (r: bool)
    ensures
        r == (a@ == b@),
{
    if a.len() != b.len() {
        return false;
    }
    let mut i: usize = 0;
    while i < a.len()
        invariant
            i <= a@.len(),
            a@.len() == b@.len(),
            forall|j: int| 0 <= j < i ==> a@[j] == b@[j],
        decreases a@.len() - i,
    {
        if a[i].0 != b[i].0 {
            return false;
        }
        i = i + 1;
    }
    assert(a@ =~= b@);
    true
}

/// Appends `b[from..]` to `out`.
fn push_tail(out: &mut Vec<u8>, b: &[u8], from: usize)
    requires
        from <= b@.len(),
    ensures
        final(out)@ == old(out)@ + b@.subrange(from as int, b@.len() as int),
{
    let ghost start = out@;
    let mut i: usize = from;
    while i < b.len()
        invariant
            from <= i <= b@.len(),
            out@ == start + b@.subrange(from as int, i as int),
        decreases b@.len() - i,
    {
        out.push(b[i]);
        i = i + 1;
        assert(out@ =~= start + b@.subrange(from as int, i as int));
    }
}

/// MAYO verification of `signature` on `message` under `epk`. A key of the
/// wrong length and a signature of the wrong length are reported as such;
/// well-framed input is decoded, the message is hashed and the target vector
/// derived, and the flow then ends because P*(s) cannot be evaluated yet.
pub fn verify_signature(
    epk: &ExpandedPublicKey,
    message: &Message,
    signature: &Signature,
    params_enum: &MayoParams,
) -> (r: Result<bool, &'static str>)
    ensures
        ({
            let p = variant_of(*params_enum);
            if epk.0@.len() != p.p1_bytes + p.p2_bytes + p.p3_bytes {
                r == Err::<bool, &'static str>(EPK_LENGTH_ERROR)
            } else if signature.0@.len() != gf16_bytes(p.n as nat) + p.salt_bytes {
                r == Err::<bool, &'static str>(SIGNATURE_LENGTH_ERROR)
            } else {
                r == Err::<bool, &'static str>(VERIFY_CORE_MISSING)
            }
        }),
{
    let params = params_enum.variant();
    let p1_end = params.p1_bytes;
    let p2_end = params.p1_bytes + params.p2_bytes;
    if epk.0.len() != params.p1_bytes + params.p2_bytes + params.p3_bytes {
        return Err(EPK_LENGTH_ERROR);
    }
    let key = epk.0.as_slice();
    let p1_matrices = match decode_gf_elements(key, 0, 2 * params.p1_bytes) {
        Ok(v) => v,
        Err(e) => return Err(e),
    };
    let p2_matrices = match decode_gf_elements(key, p1_end, 2 * params.p2_bytes) {
        Ok(v) => v,
        Err(e) => return Err(e),
    };
    let p3_matrices = match decode_gf_elements(key, p2_end, 2 * params.p3_bytes) {
        Ok(v) => v,
        Err(e) => return Err(e),
    };
    let s_bytes_len = params_enum.bytes_for_gf16_elements(params.n);
    if signature.0.len() != s_bytes_len + params.salt_bytes {
        return Err(SIGNATURE_LENGTH_ERROR);
    }
    let sig = signature.0.as_slice();
    let s_vector = match decode_gf_elements(sig, 0, params.n) {
        Ok(v) => v,
        Err(e) => return Err(e),
    };
    let m_digest = shake256(message.0.as_slice(), params.digest_bytes);
    let mut target_input = m_digest;
    push_tail(&mut target_input, sig, s_bytes_len);
    let t_bytes = shake256(target_input.as_slice(), params_enum.bytes_for_gf16_elements(params.m));
    let t_vector = match decode_gf_elements(t_bytes.as_slice(), 0, params.m) {
        Ok(v) => v,
        Err(e) => return Err(e),
    };
    let y = match compute_p_star_s(&s_vector, &p1_matrices, &p2_matrices, &p3_matrices, &params) {
        Ok(y) => y,
        Err(_) => return Err(VERIFY_CORE_MISSING),
    };
    if y.len() != params.m {
        return Err(Y_LENGTH_ERROR);
    }
    Ok(same_elements(&y, &t_vector))
}

} // verus!
