//! Base64 decoding (RFC 4648, standard alphabet); padding is optional but
//! may only end the text.

use vstd::prelude::*;
use crate::text::chars_of;

verus! {

/// Whether `c` belongs to the standard Base64 alphabet.
pub open spec fn is_b64_char(c: char) -> bool {
    ||| ('A' <= c && c <= 'Z')
    ||| ('a' <= c && c <= 'z')
    ||| ('0' <= c && c <= '9')
    ||| c == '+'
    ||| c == '/'
}

/// The six-bit value of an alphabet character.
pub open spec fn sextet(c: char) -> u8 {
    if 'A' <= c && c <= 'Z' {
        (c as u32 - 'A' as u32) as u8
    } else if 'a' <= c && c <= 'z' {
        (c as u32 - 'a' as u32 + 26) as u8
    } else if '0' <= c && c <= '9' {
        (c as u32 - '0' as u32 + 52) as u8
    } else if c == '+' {
        62
    } else {
        63
    }
}

/// The six-bit values of the non-`=` characters of `s`, or `None` when some
/// character is neither `=` nor in the alphabet.
pub open spec fn sextets(s: Seq<char>) -> Option<Seq<u8>>
    decreases s.len(),
{
    if s.len() == 0 {
        Some(Seq::empty())
    } else {
        match sextets(s.drop_first()) {
            None => None,
            Some(rest) => if s[0] == '=' {
                Some(rest)
            } else if is_b64_char(s[0]) {
                Some(seq![sextet(s[0])] + rest)
            } else {
                None
            },
        }
    }
}

/// First byte encoded by the sextets `a`, `b`.
pub open spec fn byte0(a: u8, b: u8) -> u8 {
    ((a as int * 4 + b as int / 16) % 256) as u8
}

/// Second byte encoded by the sextets `b`, `c`.
pub open spec fn byte1(b: u8, c: u8) -> u8 {
    (((b as int % 16) * 16 + c as int / 4) % 256) as u8
}

/// Third byte encoded by the sextets `c`, `d`.
pub open spec fn byte2(c: u8, d: u8) -> u8 {
    (((c as int % 4) * 64 + d as int) % 256) as u8
}

/// Bytes carried by a sequence of sextets: three per full group of four,
/// then one for a trailing pair and two for a trailing triple.
pub open spec fn decode_groups(v: Seq<u8>) -> Seq<u8>
    decreases v.len(),
{
    if v.len() >= 4 {
        seq![byte0(v[0], v[1]), byte1(v[1], v[2]), byte2(v[2], v[3])] + decode_groups(v.skip(4))
    } else if v.len() == 3 {
        seq![byte0(v[0], v[1]), byte1(v[1], v[2])]
    } else if v.len() == 2 {
        seq![byte0(v[0], v[1])]
    } else {
        Seq::empty()
    }
}

/// Padding is well placed: every `=` stands in the last two characters and
/// is followed only by `=`.
pub open spec fn padding_ok(s: Seq<char>) -> bool {
    forall|i: int|
        0 <= i < s.len() && #[trigger] s[i] == '=' ==> (s.len() - i <= 2 && forall|j: int|
            i < j < s.len() ==> #[trigger] s[j] == '=')
}

/// What `decode` returns: `None` when an `=` is followed by anything but
/// `=` or when there are more than two of them, when a character is neither
/// `=` nor in the alphabet, or when the sextet count leaves a single sextet
/// over; else the bytes the sextets carry (padding may be left out).
pub open spec fn base64_decode(s: Seq<char>) -> Option<Seq<u8>> {
    if !padding_ok(s) {
        None
    } else {
        match sextets(s) {
            Some(v) => if v.len() % 4 == 1 {
                None
            } else {
                Some(decode_groups(v))
            },
            None => None,
        }
    }
}

/// The alphabet character that stands for the six-bit value `x`.
pub open spec fn b64_char(x: u8) -> char {
    if x < 26 {
        (x as int + 65) as char
    } else if x < 52 {
        (x as int - 26 + 97) as char
    } else if x < 62 {
        (x as int - 52 + 48) as char
    } else if x == 62 {
        '+'
    } else {
        '/'
    }
}

/// Standard Base64 encoding with `=` padding (RFC 4648, section 4).
pub open spec fn base64_encode(b: Seq<u8>) -> Seq<char>
    decreases b.len(),
{
    if b.len() == 0 {
        Seq::empty()
    } else if b.len() == 1 {
        seq![b64_char((b[0] / 4) as u8), b64_char(((b[0] % 4) * 16) as u8), '=', '=']
    } else if b.len() == 2 {
        seq![
            b64_char((b[0] / 4) as u8),
            b64_char(((b[0] % 4) * 16 + b[1] / 16) as u8),
            b64_char(((b[1] % 16) * 4) as u8),
            '=',
        ]
    } else {
        seq![
            b64_char((b[0] / 4) as u8),
            b64_char(((b[0] % 4) * 16 + b[1] / 16) as u8),
            b64_char(((b[1] % 16) * 4 + b[2] / 64) as u8),
            b64_char((b[2] % 64) as u8),
        ] + base64_encode(b.skip(3))
    }
}

proof fn lemma_char_roundtrip(x: u8)
    requires
        x < 64,
    ensures
        is_b64_char(b64_char(x)),
        b64_char(x) != '=',
        sextet(b64_char(x)) == x,
{
}

proof fn lemma_sextets_concat(a: Seq<char>, b: Seq<char>)
    ensures
        sextets(a + b) == (match (sextets(a), sextets(b)) {
            (Some(x), Some(y)) => Some(x + y),
            _ => None,
        }),
    decreases a.len(),
{
    if a.len() == 0 {
        assert(a + b =~= b);
        if let Some(y) = sextets(b) {
            assert(Seq::<u8>::empty() + y =~= y);
        }
    } else {
        lemma_sextets_concat(a.drop_first(), b);
        assert((a + b).drop_first() =~= a.drop_first() + b);
        assert((a + b)[0] == a[0]);
        if let (Some(x), Some(y)) = (sextets(a.drop_first()), sextets(b)) {
            assert(seq![sextet(a[0])] + (x + y) =~= (seq![sextet(a[0])] + x) + y);
        }
    }
}

proof fn lemma_single(c: char)
    ensures
        sextets(seq![c]) == (if c == '=' {
            Some(Seq::<u8>::empty())
        } else if is_b64_char(c) {
            Some(seq![sextet(c)])
        } else {
            None
        }),
{
    reveal_with_fuel(sextets, 2);
    assert(seq![c].drop_first() =~= Seq::<char>::empty());
    assert(seq![sextet(c)] + Seq::<u8>::empty() =~= seq![sextet(c)]);
}

/// The sextets of four characters, each of which is `=` or in the alphabet.
proof fn lemma_four(a: char, b: char, c: char, d: char)
    requires
        a == '=' || is_b64_char(a),
        b == '=' || is_b64_char(b),
        c == '=' || is_b64_char(c),
        d == '=' || is_b64_char(d),
    ensures
        sextets(seq![a, b, c, d]) == Some(
            sextets(seq![a]).unwrap() + sextets(seq![b]).unwrap() + sextets(seq![c]).unwrap()
                + sextets(seq![d]).unwrap(),
        ),
{
    lemma_single(a);
    lemma_single(b);
    lemma_single(c);
    lemma_single(d);
    lemma_sextets_concat(seq![a], seq![b]);
    lemma_sextets_concat(seq![a] + seq![b], seq![c]);
    lemma_sextets_concat(seq![a] + seq![b] + seq![c], seq![d]);
    assert(seq![a] + seq![b] + seq![c] + seq![d] =~= seq![a, b, c, d]);
}

proof fn lemma_bytes(b0: u8, b1: u8, b2: u8)
    ensures
        byte0((b0 / 4) as u8, ((b0 % 4) * 16 + b1 / 16) as u8) == b0,
        byte1(((b0 % 4) * 16 + b1 / 16) as u8, ((b1 % 16) * 4 + b2 / 64) as u8) == b1,
        byte2(((b1 % 16) * 4 + b2 / 64) as u8, (b2 % 64) as u8) == b2,
{
}

proof fn lemma_encode_one(b: Seq<u8>)
    requires
        b.len() == 1,
    ensures
        base64_decode(base64_encode(b)) == Some(b),
{
    let s0 = (b[0] / 4) as u8;
    let s1 = ((b[0] % 4) * 16) as u8;
    lemma_char_roundtrip(s0);
    lemma_char_roundtrip(s1);
    lemma_bytes(b[0], 0, 0);
    lemma_four(b64_char(s0), b64_char(s1), '=', '=');
    lemma_single(b64_char(s0));
    lemma_single(b64_char(s1));
    lemma_single('=');
    assert(base64_encode(b) == seq![b64_char(s0), b64_char(s1), '=', '=']);
    let v = seq![s0] + seq![s1] + Seq::<u8>::empty() + Seq::<u8>::empty();
    assert(v =~= seq![s0, s1]);
    assert(decode_groups(seq![s0, s1]) =~= b);
}

proof fn lemma_encode_two(b: Seq<u8>)
    requires
        b.len() == 2,
    ensures
        base64_decode(base64_encode(b)) == Some(b),
{
    let s0 = (b[0] / 4) as u8;
    let s1 = ((b[0] % 4) * 16 + b[1] / 16) as u8;
    let s2 = ((b[1] % 16) * 4) as u8;
    lemma_char_roundtrip(s0);
    lemma_char_roundtrip(s1);
    lemma_char_roundtrip(s2);
    lemma_bytes(b[0], b[1], 0);
    lemma_four(b64_char(s0), b64_char(s1), b64_char(s2), '=');
    lemma_single(b64_char(s0));
    lemma_single(b64_char(s1));
    lemma_single(b64_char(s2));
    lemma_single('=');
    assert(base64_encode(b) == seq![b64_char(s0), b64_char(s1), b64_char(s2), '=']);
    let v = seq![s0] + seq![s1] + seq![s2] + Seq::<u8>::empty();
    assert(v =~= seq![s0, s1, s2]);
    assert(decode_groups(seq![s0, s1, s2]) =~= b);
}

proof fn lemma_encode_padding(b: Seq<u8>)
    ensures
        padding_ok(base64_encode(b)),
    decreases b.len(),
{
    if b.len() >= 3 {
        lemma_encode_padding(b.skip(3));
        let q = seq![
            b64_char((b[0] / 4) as u8),
            b64_char(((b[0] % 4) * 16 + b[1] / 16) as u8),
            b64_char(((b[1] % 16) * 4 + b[2] / 64) as u8),
            b64_char((b[2] % 64) as u8),
        ];
        let t = base64_encode(b.skip(3));
        let e = base64_encode(b);
        lemma_char_roundtrip((b[0] / 4) as u8);
        lemma_char_roundtrip(((b[0] % 4) * 16 + b[1] / 16) as u8);
        lemma_char_roundtrip(((b[1] % 16) * 4 + b[2] / 64) as u8);
        lemma_char_roundtrip((b[2] % 64) as u8);
        assert(e == q + t);
        assert forall|i: int| 0 <= i < e.len() && #[trigger] e[i] == '=' implies (e.len() - i <= 2 && forall|j: int|
            i < j < e.len() ==> #[trigger] e[j] == '=') by {
            assert(i >= 4);
            assert(t[i - 4] == '=');
            assert forall|j: int| i < j < e.len() implies #[trigger] e[j] == '=' by {
                assert(e[j] == t[j - 4]);
                assert(t[j - 4] == '=');
            }
        }
    } else if b.len() == 1 {
        lemma_char_roundtrip((b[0] / 4) as u8);
        lemma_char_roundtrip(((b[0] % 4) * 16) as u8);
    } else if b.len() == 2 {
        lemma_char_roundtrip((b[0] / 4) as u8);
        lemma_char_roundtrip(((b[0] % 4) * 16 + b[1] / 16) as u8);
        lemma_char_roundtrip(((b[1] % 16) * 4) as u8);
    }
}

/// Decoding undoes standard Base64 encoding: every byte string is given
/// back from its RFC 4648 encoding.
pub proof fn law_decode_encode(b: Seq<u8>)
    ensures
        base64_decode(base64_encode(b)) == Some(b),
    decreases b.len(),
{
    lemma_encode_padding(b);
    if b.len() == 0 {
        assert(sextets(base64_encode(b)) == Some(Seq::<u8>::empty()));
        assert(b =~= Seq::<u8>::empty());
    } else if b.len() == 1 {
        lemma_encode_one(b);
    } else if b.len() == 2 {
        lemma_encode_two(b);
    } else {
        let s0 = (b[0] / 4) as u8;
        let s1 = ((b[0] % 4) * 16 + b[1] / 16) as u8;
        let s2 = ((b[1] % 16) * 4 + b[2] / 64) as u8;
        let s3 = (b[2] % 64) as u8;
        let q = seq![b64_char(s0), b64_char(s1), b64_char(s2), b64_char(s3)];
        let rest = b.skip(3);
        law_decode_encode(rest);
        lemma_char_roundtrip(s0);
        lemma_char_roundtrip(s1);
        lemma_char_roundtrip(s2);
        lemma_char_roundtrip(s3);
        lemma_four(q[0], q[1], q[2], q[3]);
        lemma_single(q[0]);
        lemma_single(q[1]);
        lemma_single(q[2]);
        lemma_single(q[3]);
        assert(seq![q[0], q[1], q[2], q[3]] =~= q);
        let v4 = seq![s0] + seq![s1] + seq![s2] + seq![s3];
        assert(v4 =~= seq![s0, s1, s2, s3]);
        lemma_sextets_concat(q, base64_encode(rest));
        lemma_bytes(b[0], b[1], b[2]);
        let vr = sextets(base64_encode(rest)).unwrap();
        let v = seq![s0, s1, s2, s3] + vr;
        assert(base64_encode(b) == q + base64_encode(rest));
        assert(sextets(base64_encode(b)) == Some(v));
        assert(v.skip(4) =~= vr);
        assert(decode_groups(v) == seq![b[0], b[1], b[2]] + rest);
        assert(seq![b[0], b[1], b[2]] + rest =~= b);
    }
}

proof fn lemma_group_bits(a: u32, b: u32, c: u32, d: u32)
    requires
        a < 64,
        b < 64,
        c < 64,
        d < 64,
    ensures
        ((((a << 18) | (b << 12) | (c << 6) | d) >> 16) as u8) == (((a * 4 + b / 16) % 256) as u8),
        ((((a << 18) | (b << 12) | (c << 6) | d) >> 8) as u8) == ((((b % 16) * 16 + c / 4) % 256) as u8),
        ((((a << 18) | (b << 12) | (c << 6) | d)) as u8) == ((((c % 4) * 64 + d) % 256) as u8),
{
    assert(
        a < 64 && b < 64 && c < 64 && d < 64 ==>
        ((((a << 18) | (b << 12) | (c << 6) | d) >> 16) as u8) == (((a * 4 + b / 16) % 256) as u8)
        && ((((a << 18) | (b << 12) | (c << 6) | d) >> 8) as u8) == ((((b % 16) * 16 + c / 4) % 256) as u8)
        && ((((a << 18) | (b << 12) | (c << 6) | d)) as u8) == ((((c % 4) * 64 + d) % 256) as u8)
    ) by (bit_vector);
}

fn sextet_of(c: char) -> (r: Option<u8>)
    ensures
        is_b64_char(c) ==> r == Some(sextet(c)),
        !is_b64_char(c) ==> r is None,
{
    if 'A' <= c && c <= 'Z' {
        Some((c as u32 - 'A' as u32) as u8)
    } else if 'a' <= c && c <= 'z' {
        Some((c as u32 - 'a' as u32 + 26) as u8)
    } else if '0' <= c && c <= '9' {
        Some((c as u32 - '0' as u32 + 52) as u8)
    } else if c == '+' {
        Some(62)
    } else if c == '/' {
        Some(63)
    } else {
        None
    }
}

fn padding_ok_exec(cs: &[char]) -> (r: bool)
    ensures
        r == padding_ok(cs@),
{
    let n = cs.len();
    let mut i: usize = 0;
    while i < n && cs[i] != '='
        invariant
            i <= n,
            n == cs@.len(),
            forall|k: int| 0 <= k < i ==> cs@[k] != '=',
        decreases n - i,
    {
        i += 1;
    }
    if n - i > 2 {
        assert(cs@[i as int] == '=');
        return false;
    }
    let mut j: usize = i;
    while j < n
        invariant
            i <= j <= n,
            n == cs@.len(),
            n - i <= 2,
            i < n ==> cs@[i as int] == '=',
            forall|k: int| 0 <= k < i ==> cs@[k] != '=',
            forall|k: int| i <= k < j ==> cs@[k] == '=',
        decreases n - j,
    {
        if cs[j] != '=' {
            assert(cs@[i as int] == '=');
            return false;
        }
        j += 1;
    }
    assert forall|a: int| 0 <= a < cs@.len() && #[trigger] cs@[a] == '=' implies (cs@.len() - a <= 2 && forall|b: int|
        a < b < cs@.len() ==> #[trigger] cs@[b] == '=') by {
        assert(a >= i);
    }
    true
}

/// Decode standard Base64 text. Returns None on invalid input.
pub fn decode(input: &str) -> (r: Option<Vec<u8>>)
    ensures
        r matches Some(v) ==> base64_decode(input@) == Some(v@),
        r is None ==> base64_decode(input@) is None,
{
    let all = chars_of(input);
    if !padding_ok_exec(&all) {
        return None;
    }
    let mut vals: Vec<u8> = Vec::new();
    assert(input@.skip(0) =~= input@);
    for c in it: input.chars()
        invariant
            it.seq() == input@,
            0 <= it.index() <= input@.len(),
            forall|k: int| 0 <= k < vals@.len() ==> vals@[k] < 64,
            sextets(input@.skip(it.index())) matches Some(rest) ==> sextets(input@) == Some(vals@ + rest),
            sextets(input@.skip(it.index())) is None ==> sextets(input@) is None,
    {
        let ghost i = it.index();
        assert(input@.skip(i).drop_first() =~= input@.skip(i + 1));
        assert(input@.skip(i)[0] == c);
        if c != '=' {
        match sextet_of(c) {
            Some(v) => {
                proof {
                    if let Some(rest) = sextets(input@.skip(i + 1)) {
                        assert(vals@.push(v) + rest =~= vals@ + (seq![v] + rest));
                    }
                }
                vals.push(v);
            },
            None => {
                return None;
            },
        }
        }
    }
    proof {
        assert(input@.skip(input@.len() as int) =~= Seq::<char>::empty());
        assert(vals@ + Seq::<u8>::empty() =~= vals@);
    }
    let ghost v = vals@;
    if vals.len() % 4 == 1 {
        return None;
    }
    let mut out: Vec<u8> = Vec::new();
    let mut i: usize = 0;
    assert(v.skip(0) =~= v);
    assert(out@ + decode_groups(v) =~= decode_groups(v));
    while vals.len() - i >= 4
        invariant
            vals@ == v,
            i <= v.len(),
            forall|k: int| 0 <= k < v.len() ==> v[k] < 64,
            decode_groups(v) == out@ + decode_groups(v.skip(i as int)),
        decreases v.len() - i,
    {
        let a = vals[i] as u32;
        let b = vals[i + 1] as u32;
        let c = vals[i + 2] as u32;
        let d = vals[i + 3] as u32;
        let n = (a << 18) | (b << 12) | (c << 6) | d;
        proof {
            lemma_group_bits(a, b, c, d);
            let w = v.skip(i as int);
            assert(w.skip(4) =~= v.skip(i + 4));
            assert(w[0] == a && w[1] == b && w[2] == c && w[3] == d);
        }
        out.push((n >> 16) as u8);
        out.push((n >> 8) as u8);
        out.push(n as u8);
        proof {
            let w = v.skip(i as int);
            let g = seq![byte0(w[0], w[1]), byte1(w[1], w[2]), byte2(w[2], w[3])];
            assert(out@ + decode_groups(v.skip(i + 4)) =~= (out@.take(out@.len() - 3)) + (g + decode_groups(v.skip(i + 4))));
        }
        i += 4;
    }
    let rem = vals.len() - i;
    proof {
        assert(v.skip(i as int).len() == rem);
    }
    if rem == 2 {
        let a = vals[i] as u32;
        let b = vals[i + 1] as u32;
        let n = (a << 18) | (b << 12);
        proof {
            lemma_group_bits(a, b, 0, 0);
            assert((a << 18) | (b << 12) | (0u32 << 6) | 0u32 == (a << 18) | (b << 12)) by (bit_vector);
        }
        out.push((n >> 16) as u8);
    } else if rem == 3 {
        let a = vals[i] as u32;
        let b = vals[i + 1] as u32;
        let c = vals[i + 2] as u32;
        let n = (a << 18) | (b << 12) | (c << 6);
        proof {
            lemma_group_bits(a, b, c, 0);
            assert((a << 18) | (b << 12) | (c << 6) | 0u32 == (a << 18) | (b << 12) | (c << 6)) by (bit_vector);
        }
        out.push((n >> 16) as u8);
        out.push((n >> 8) as u8);
    }
    proof {
        assert(out@ =~= decode_groups(v));
    }
    Some(out)
}

} // verus!
