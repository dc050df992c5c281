//! SHA-256 digests in lowercase hexadecimal, used for password checks.

use vstd::prelude::*;

verus! {

/// The SHA-256 digest (FIPS 180-4) of a byte string.
pub uninterp spec fn sha256_digest(data: Seq<u8>) -> Seq<u8>;

/// `Sha256::digest` of the sha2 crate. Trusted to compute the SHA-256
/// digest of `data`, named `sha256_digest`, which is 32 bytes long.
#[verifier::external_body]
fn digest(data: &[u8]) -> (r: Vec<u8>)
    ensures
        r@ == sha256_digest(data@),
        r@.len() == 32,
{
    <sha2::Sha256 as sha2::Digest>::digest(data).to_vec()
}

/// The lowercase hexadecimal digit for `d < 16`.
pub open spec fn hex_digit(d: u8) -> char {
    if d < 10 {
        (d as int + 48) as char
    } else {
        (d as int - 10 + 97) as char
    }
}

/// Two lowercase hexadecimal digits per byte, most significant first.
pub open spec fn hex_lower(b: Seq<u8>) -> Seq<char>
    decreases b.len(),
{
    if b.len() == 0 {
        Seq::empty()
    } else {
        hex_lower(b.drop_last()) + seq![hex_digit(b.last() / 16), hex_digit(b.last() % 16)]
    }
}

fn hex_digit_exec(d: u8) -> (r: char)
    requires
        d < 16,
    ensures
        r == hex_digit(d),
{
    if d < 10 {
        (d + 48) as char
    } else {
        (d - 10 + 97) as char
    }
}

/// Lowercase hexadecimal text of a byte string.
pub fn to_hex(b: &[u8]) -> (r: String)
    ensures
        r@ == hex_lower(b@),
{
    let mut out: Vec<char> = Vec::new();
    let mut i: usize = 0;
    while i < b.len()
        invariant
            i <= b@.len(),
            out@ == hex_lower(b@.take(i as int)),
        decreases b@.len() - i,
    {
        let x = b[i];
        out.push(hex_digit_exec(x / 16));
        out.push(hex_digit_exec(x % 16));
        proof {
            assert(b@.take(i + 1).drop_last() =~= b@.take(i as int));
            assert(out@ =~= hex_lower(b@.take(i + 1)));
        }
        i += 1;
    }
    assert(b@.take(b@.len() as int) =~= b@);
    crate::text::string_of(&out)
}

/// A lowercase hexadecimal digit.
pub open spec fn is_hex_lower_digit(c: char) -> bool {
    ('0' <= c && c <= '9') || ('a' <= c && c <= 'f')
}

/// Hexadecimal text is two digits per byte, each `0-9` or `a-f`.
pub proof fn lemma_hex_lower_shape(b: Seq<u8>)
    ensures
        hex_lower(b).len() == 2 * b.len(),
        forall|k: int| 0 <= k < hex_lower(b).len() ==> is_hex_lower_digit(#[trigger] hex_lower(b)[k]),
    decreases b.len(),
{
    if b.len() > 0 {
        lemma_hex_lower_shape(b.drop_last());
        let p = hex_lower(b.drop_last());
        assert forall|k: int| 0 <= k < hex_lower(b).len() implies is_hex_lower_digit(#[trigger] hex_lower(b)[k]) by {
            if k < p.len() {
                assert(hex_lower(b)[k] == p[k]);
            }
        }
    }
}

/// The SHA-256 digest of `data` in lowercase hexadecimal: 64 digits.
pub fn sha256_hex(data: &[u8]) -> (r: String)
    ensures
        sha256_digest(data@).len() == 32,
        r@ == hex_lower(sha256_digest(data@)),
        r@.len() == 64,
{
    let d = digest(data);
    proof {
        lemma_hex_lower_shape(d@);
    }
    to_hex(&d)
}

} // verus!
