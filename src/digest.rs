//! Content digests and the digital root used to pick slots.

use vstd::prelude::*;
use vstd::utf8::encode_utf8;
use sha2::Digest;

verus! {

/// The 32-byte SHA-256 digest of `data`.
pub uninterp spec fn sha256_of(data: Seq<u8>) -> Seq<u8>;

/// The lowercase hexadecimal digit for `d < 16`.
pub open spec fn hex_char(d: nat) -> char {
    seq!['0', '1', '2', '3', '4', '5', '6', '7', '8', '9', 'a', 'b', 'c', 'd', 'e', 'f'][d as int]
}

/// Two lowercase hexadecimal digits per byte, high half first.
pub open spec fn lower_hex(b: Seq<u8>) -> Seq<char>
    decreases b.len(),
{
    if b.len() == 0 {
        seq![]
    } else {
        lower_hex(b.drop_last()) + seq![
            hex_char(b.last() as nat / 16),
            hex_char(b.last() as nat % 16),
        ]
    }
}

/// The lowercase hexadecimal text of the SHA-256 digest of `data`.
pub open spec fn sha256_hex(data: Seq<u8>) -> Seq<char> {
    lower_hex(sha256_of(data))
}

/// Every char is a lowercase hexadecimal digit.
pub open spec fn is_lower_hex_text(s: Seq<char>) -> bool {
    forall|i: int| 0 <= i < s.len() ==> ('0' <= #[trigger] s[i] <= '9') || ('a' <= s[i] <= 'f')
}

proof fn lemma_hex_char(d: nat)
    requires
        d < 16,
    ensures
        ('0' <= hex_char(d) <= '9') || ('a' <= hex_char(d) <= 'f'),
{
    if d == 0 {
        assert(hex_char(d) == '0');
    } else if d == 1 {
        assert(hex_char(d) == '1');
    } else if d == 2 {
        assert(hex_char(d) == '2');
    } else if d == 3 {
        assert(hex_char(d) == '3');
    } else if d == 4 {
        assert(hex_char(d) == '4');
    } else if d == 5 {
        assert(hex_char(d) == '5');
    } else if d == 6 {
        assert(hex_char(d) == '6');
    } else if d == 7 {
        assert(hex_char(d) == '7');
    } else if d == 8 {
        assert(hex_char(d) == '8');
    } else if d == 9 {
        assert(hex_char(d) == '9');
    } else if d == 10 {
        assert(hex_char(d) == 'a');
    } else if d == 11 {
        assert(hex_char(d) == 'b');
    } else if d == 12 {
        assert(hex_char(d) == 'c');
    } else if d == 13 {
        assert(hex_char(d) == 'd');
    } else if d == 14 {
        assert(hex_char(d) == 'e');
    } else if d == 15 {
        assert(hex_char(d) == 'f');
    }
}

/// The hexadecimal text of any bytes holds only lowercase hexadecimal digits.
pub proof fn lemma_lower_hex_is_hex_text(b: Seq<u8>)
    ensures
        is_lower_hex_text(lower_hex(b)),
        lower_hex(b).len() == 2 * b.len(),
    decreases b.len(),
{
    if b.len() > 0 {
        lemma_lower_hex_is_hex_text(b.drop_last());
        let x = b.last() as nat;
        lemma_hex_char(x / 16);
        lemma_hex_char(x % 16);
        let t = lower_hex(b);
        let p = lower_hex(b.drop_last());
        assert forall|i: int| 0 <= i < t.len() implies ('0' <= #[trigger] t[i] <= '9') || ('a'
            <= t[i] <= 'f') by {
            if i < p.len() {
                assert(t[i] == p[i]);
            }
        }
    }
}

/// Relies on `sha2::Sha256::digest` and on the lowercase-hex formatting of its
/// 32-byte output (generic-array's `LowerHex`: two digits per byte from the
/// table `0123456789abcdef`).
#[verifier::external_body]
pub(crate) fn sha256_hex_digest(data: &[u8]) -> (r: String)
    ensures
        r@ == lower_hex(sha256_of(data@)),
        r@.len() == 64,
{
    format!("{:x}", sha2::Sha256::digest(data))
}

/// The UTF-8 bytes of each text, one after the other.
pub open spec fn concat_utf8(parts: Seq<Seq<char>>) -> Seq<u8>
    decreases parts.len(),
{
    if parts.len() == 0 {
        seq![]
    } else {
        concat_utf8(parts.drop_last()) + encode_utf8(parts.last())
    }
}

pub open spec fn strings_view(v: Seq<String>) -> Seq<Seq<char>> {
    v.map_values(|h: String| h@)
}

/// Appends the UTF-8 bytes of `s` to `out`.
pub(crate) fn push_utf8(out: &mut Vec<u8>, s: &str)
    ensures
        final(out)@ == old(out)@ + encode_utf8(s@),
{
    let b = s.as_bytes();
    let ghost start = out@;
    let mut i: usize = 0;
    while i < b.len()
        invariant
            i <= b@.len(),
            b@ == encode_utf8(s@),
            out@ == start + b@.subrange(0, i as int),
        decreases b@.len() - i,
    {
        out.push(b[i]);
        i = i + 1;
        assert(out@ =~= start + b@.subrange(0, i as int));
    }
    assert(b@.subrange(0, b@.len() as int) =~= b@);
}

/// Appends the UTF-8 bytes of every string of `parts`, in order, to `out`.
pub(crate) fn push_all_utf8(out: &mut Vec<u8>, parts: &Vec<String>)
    ensures
        final(out)@ == old(out)@ + concat_utf8(strings_view(parts@)),
{
    let ghost start = out@;
    let mut i: usize = 0;
    while i < parts.len()
        invariant
            i <= parts@.len(),
            out@ == start + concat_utf8(strings_view(parts@.subrange(0, i as int))),
        decreases parts@.len() - i,
    {
        push_utf8(out, parts[i].as_str());
        proof {
            let pre = strings_view(parts@.subrange(0, i as int + 1));
            assert(pre.drop_last() =~= strings_view(parts@.subrange(0, i as int)));
            assert(pre.last() == parts@[i as int]@);
        }
        i = i + 1;
        assert(out@ =~= start + concat_utf8(strings_view(parts@.subrange(0, i as int))));
    }
    assert(parts@.subrange(0, parts@.len() as int) =~= parts@);
}

/// Digest of several hashes: SHA-256 over their texts' bytes, one after the other.
pub fn combine_hashes(hashes: &Vec<String>) -> (r: String)
    ensures
        r@ == sha256_hex(concat_utf8(strings_view(hashes@))),
        r@.len() == 64,
        is_lower_hex_text(r@),
{
    let mut data: Vec<u8> = Vec::new();
    push_all_utf8(&mut data, hashes);
    assert(data@ =~= concat_utf8(strings_view(hashes@)));
    let r = sha256_hex_digest(data.as_slice());
    proof {
        lemma_lower_hex_is_hex_text(sha256_of(data@));
    }
    r
}

/// The value of a hexadecimal digit (either case), or `None` for any other char.
pub open spec fn hex_value(c: char) -> Option<nat> {
    if '0' <= c && c <= '9' {
        Some((c as nat - '0' as nat) as nat)
    } else if 'a' <= c && c <= 'f' {
        Some((c as nat - 'a' as nat + 10) as nat)
    } else if 'A' <= c && c <= 'F' {
        Some((c as nat - 'A' as nat + 10) as nat)
    } else {
        None
    }
}

/// Sum of the values of the hexadecimal digits of `s`; other chars count 0.
pub open spec fn hex_digit_sum(s: Seq<char>) -> nat
    decreases s.len(),
{
    if s.len() == 0 {
        0
    } else {
        hex_digit_sum(s.drop_last()) + match hex_value(s.last()) {
            Some(v) => v,
            None => 0,
        }
    }
}

/// The classic digital root: 0 for 0, otherwise the single digit 1..=9
/// reached by summing decimal digits repeatedly.
pub open spec fn classic_digital_root(n: nat) -> nat {
    if n == 0 {
        0
    } else {
        1 + ((n - 1) as nat) % 9
    }
}

/// Sum of the decimal digits of `n`.
pub open spec fn decimal_digit_sum(n: nat) -> nat
    decreases n,
{
    if n == 0 {
        0
    } else {
        n % 10 + decimal_digit_sum(n / 10)
    }
}

/// The digital root of a hash's hexadecimal text.
#[verifier::opaque]
pub open spec fn hash_digital_root(h: Seq<char>) -> nat {
    classic_digital_root(hex_digit_sum(h))
}

proof fn lemma_hex_digit_sum_bound(s: Seq<char>)
    ensures
        hex_digit_sum(s) <= 15 * s.len(),
    decreases s.len(),
{
    if s.len() > 0 {
        lemma_hex_digit_sum_bound(s.drop_last());
    }
}

proof fn lemma_decimal_digit_sum(n: nat)
    ensures
        decimal_digit_sum(n) % 9 == n % 9,
        n > 0 ==> decimal_digit_sum(n) > 0,
        n > 9 ==> decimal_digit_sum(n) < n,
    decreases n,
{
    if n > 0 {
        lemma_decimal_digit_sum(n / 10);
        let q = n / 10;
        let r = n % 10;
        assert(n == 10 * q + r);
        assert((10 * q + r) % 9 == (q + r + 9 * q) % 9) by (nonlinear_arith);
        assert((q + r + 9 * q) % 9 == (q + r) % 9) by {
            vstd::arithmetic::div_mod::lemma_mod_multiples_vanish(q as int, (q + r) as int, 9);
        }
        assert((decimal_digit_sum(q) + r) % 9 == (q + r) % 9) by {
            vstd::arithmetic::div_mod::lemma_add_mod_noop(decimal_digit_sum(q) as int, r as int, 9);
            vstd::arithmetic::div_mod::lemma_add_mod_noop(q as int, r as int, 9);
        }
        if n > 9 {
            assert(q >= 1);
            if q > 9 {
                assert(decimal_digit_sum(q) < q);
            } else {
                assert(decimal_digit_sum(q) <= q) by {
                    if q > 0 {
                        assert(q / 10 == 0);
                        assert(decimal_digit_sum(0) == 0);
                    }
                }
            }
            assert(decimal_digit_sum(q) <= q);
            assert(q + r < n);
        }
    }
}

proof fn lemma_classic_digital_root_step(n: nat)
    requires
        n > 9,
    ensures
        classic_digital_root(decimal_digit_sum(n)) == classic_digital_root(n),
{
    lemma_decimal_digit_sum(n);
    let d = decimal_digit_sum(n);
    assert(d > 0);
    assert((d - 1) as nat % 9 == (n - 1) as nat % 9) by {
        vstd::arithmetic::div_mod::lemma_sub_mod_noop(d as int, 1, 9);
        vstd::arithmetic::div_mod::lemma_sub_mod_noop(n as int, 1, 9);
    }
}

/// The value of a hexadecimal digit, as `char::to_digit(16)` gives it.
pub fn hex_digit_value(c: char) -> (r: Option<u32>)
    ensures
        match hex_value(c) {
            Some(v) => r == Some(v as u32),
            None => r is None,
        },
{
    if '0' <= c && c <= '9' {
        Some((c as u32) - ('0' as u32))
    } else if 'a' <= c && c <= 'f' {
        Some((c as u32) - ('a' as u32) + 10)
    } else if 'A' <= c && c <= 'F' {
        Some((c as u32) - ('A' as u32) + 10)
    } else {
        None
    }
}

/// Digital root of the hexadecimal text of a hash: the values of its hex
/// digits are summed, then decimal digits are summed until at most 9 is left.
pub fn get_digital_root(hash: &str) -> (r: usize)
    requires
        15 * hash@.len() <= usize::MAX,
    ensures
        r as nat == hash_digital_root(hash@),
        r <= 9,
{
    let n = hash.unicode_len();
    let mut sum: usize = 0;
    let mut i: usize = 0;
    while i < n
        invariant
            n == hash@.len(),
            15 * n <= usize::MAX,
            i <= n,
            sum as nat == hex_digit_sum(hash@.subrange(0, i as int)),
            sum <= 15 * i,
        decreases n - i,
    {
        let c = hash.get_char(i);
        proof {
            let s = hash@.subrange(0, i as int + 1);
            assert(s.drop_last() =~= hash@.subrange(0, i as int));
            assert(s.last() == c);
        }
        match hex_digit_value(c) {
            Some(d) => {
                sum = sum + d as usize;
            },
            None => {},
        }
        i = i + 1;
    }
    proof {
        assert(hash@.subrange(0, n as int) =~= hash@);
    }
    let ghost total = sum as nat;
    while sum > 9
        invariant
            classic_digital_root(sum as nat) == classic_digital_root(total),
        decreases sum,
    {
        let ghost before = sum as nat;
        let mut new_sum: usize = 0;
        let mut rest = sum;
        while rest > 0
            invariant
                new_sum as nat + decimal_digit_sum(rest as nat) == decimal_digit_sum(before),
                rest <= before,
                new_sum <= before,
                before == sum,
            decreases rest,
        {
            proof {
                lemma_decimal_digit_sum(before);
            }
            new_sum = new_sum + rest % 10;
            rest = rest / 10;
        }
        proof {
            lemma_classic_digital_root_step(before);
            lemma_decimal_digit_sum(before);
        }
        sum = new_sum;
    }
    proof {
        reveal(hash_digital_root);
        if sum == 0 {
        } else {
            assert((sum - 1) as nat % 9 == (sum - 1) as nat);
        }
    }
    sum
}

} // verus!
