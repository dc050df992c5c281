//! Request-level logic of the server: request classification, percent
//! decoding, safe relative paths, content types, query parameters, cookies,
//! Basic authentication and routing decisions.

use vstd::prelude::*;
use vstd::utf8::{decode_utf8, encode_scalar, encode_utf8, valid_utf8};
use crate::text::{
    ascii_lower, ascii_lowercase, chars_of, contains_str, eq_str, slice_range, starts_with,
    starts_with_chars, string_of, trim, trim_chars, int_text, push_int, push_str_chars, contains_lit,
};
use crate::html::{find_char, find_from, lemma_scans, strip_leading};
use crate::base64::{base64_decode, decode};
use crate::sha256::{hex_lower, sha256_digest, sha256_hex};
use crate::gate::{acquire_next, Gate};

verus! {

broadcast use vstd::string::group_string_axioms;

// ---------------------------------------------------------------- classification

/// `str::to_lowercase` (Unicode lowercase mapping) of a text.
pub uninterp spec fn unicode_lowercase(s: Seq<char>) -> Seq<char>;

/// Every character of `s` is ASCII.
pub open spec fn is_ascii_text(s: Seq<char>) -> bool {
    forall|k: int| 0 <= k < s.len() ==> (#[trigger] s[k] as u32) < 128
}

/// std's `str::to_lowercase`; trusted to be a function of its argument
/// alone (Unicode's locale-free lowercase mapping), named
/// `unicode_lowercase`, which on ASCII text maps `A-Z` to `a-z` and keeps
/// every other character, as its documentation states. Nothing else is
/// claimed about the mapping of other characters.
#[verifier::external_body]
fn to_lowercase(s: &str) -> (r: String)
    ensures
        r@ == unicode_lowercase(s@),
        is_ascii_text(s@) ==> r@ == ascii_lower(s@),
{
    s.to_lowercase()
}

/// The log category of a request from its lowercased User-Agent and its
/// status: `crawler` for a User-Agent naming a bot, crawler, spider or
/// scanner, else `scan` for 404, `blocked` for 503, `bruteforce` for 401
/// and `normal` otherwise.
pub open spec fn category_of(ua_lower: Seq<char>, status: i64) -> Seq<char> {
    if contains_str(ua_lower, "bot"@) || contains_str(ua_lower, "crawler"@)
        || contains_str(ua_lower, "spider"@) || contains_str(ua_lower, "scanner"@) {
        "crawler"@
    } else if status == 404 {
        "scan"@
    } else if status == 503 {
        "blocked"@
    } else if status == 401 {
        "bruteforce"@
    } else {
        "normal"@
    }
}

/// Classification law: a lowercased User-Agent that names a bot, crawler,
/// spider or scanner is a crawler whatever the status; otherwise 404 is a
/// scan, 503 blocked, 401 brute force, and any other status normal.
pub proof fn law_category_rules(ua_lower: Seq<char>, status: i64)
    ensures
        contains_str(ua_lower, "bot"@) || contains_str(ua_lower, "crawler"@) || contains_str(ua_lower, "spider"@)
            || contains_str(ua_lower, "scanner"@) ==> category_of(ua_lower, status) == "crawler"@,
        ({
            let named = contains_str(ua_lower, "bot"@) || contains_str(ua_lower, "crawler"@) || contains_str(
                ua_lower,
                "spider"@,
            ) || contains_str(ua_lower, "scanner"@);
            &&& !named && status == 404 ==> category_of(ua_lower, status) == "scan"@
            &&& !named && status == 503 ==> category_of(ua_lower, status) == "blocked"@
            &&& !named && status == 401 ==> category_of(ua_lower, status) == "bruteforce"@
            &&& !named && status != 404 && status != 503 && status != 401 ==> category_of(ua_lower, status)
                == "normal"@
        }),
{
}

/// The category of a request given its already lowercased User-Agent.
pub fn classify_lowered(ua_lower: &str, status: i64) -> (r: &'static str)
    ensures
        r@ == category_of(ua_lower@, status),
{
    let u = chars_of(ua_lower);
    if contains_lit(&u, "bot") || contains_lit(&u, "crawler") || contains_lit(&u, "spider")
        || contains_lit(&u, "scanner") {
        return "crawler";
    }
    if status == 404 {
        "scan"
    } else if status == 503 {
        "blocked"
    } else if status == 401 {
        "bruteforce"
    } else {
        "normal"
    }
}

/// The log category of a request (see `category_of`); the User-Agent is
/// lowercased with `str::to_lowercase` first.
pub fn classify(ua: &str, status: i64) -> (r: &'static str)
    ensures
        r@ == category_of(unicode_lowercase(ua@), status),
        is_ascii_text(ua@) ==> r@ == category_of(ascii_lower(ua@), status),
{
    let lower = to_lowercase(ua);
    classify_lowered(lower.as_str(), status)
}

// ---------------------------------------------------------------- constant time

proof fn lemma_or_xor(r: u8, x: u8, y: u8)
    ensures
        ((r | (x ^ y)) == 0) == (r == 0 && x == y),
{
    assert(((r | (x ^ y)) == 0) == (r == 0 && x == y)) by (bit_vector);
}

/// Byte-string equality that reads every byte of equal-length inputs.
pub fn ct_eq(a: &[u8], b: &[u8]) -> (r: bool)
    ensures
        r == (a@ == b@),
{
    if a.len() != b.len() {
        return false;
    }
    let mut r: u8 = 0;
    let mut i: usize = 0;
    while i < a.len()
        invariant
            a@.len() == b@.len(),
            i <= a@.len(),
            (r == 0) == (forall|j: int| 0 <= j < i ==> a@[j] == b@[j]),
        decreases a@.len() - i,
    {
        proof {
            lemma_or_xor(r, a@[i as int], b@[i as int]);
        }
        r = r | (a[i] ^ b[i]);
        i += 1;
    }
    proof {
        if r == 0 {
            assert(a@ =~= b@);
        }
    }
    r == 0
}

// ---------------------------------------------------------------- percent decoding

/// The value of an ASCII hexadecimal digit.
pub open spec fn hex_value(b: u8) -> Option<u8> {
    if 48 <= b <= 57 {
        Some((b - 48) as u8)
    } else if 97 <= b <= 102 {
        Some((b - 97 + 10) as u8)
    } else if 65 <= b <= 70 {
        Some((b - 65 + 10) as u8)
    } else {
        None
    }
}

/// The value of an ASCII hexadecimal digit (`0-9`, `a-f`, `A-F`).
pub fn hexval(b: u8) -> (r: Option<u8>)
    ensures
        r == hex_value(b),
{
    if 48 <= b && b <= 57 {
        Some(b - 48)
    } else if 97 <= b && b <= 102 {
        Some(b - 97 + 10)
    } else if 65 <= b && b <= 70 {
        Some(b - 65 + 10)
    } else {
        None
    }
}

/// The bytes of `b` from `i` on with each `%XY` replaced by the byte of hex
/// value `XY`; `None` when a `%` is not followed by two hex digits.
pub open spec fn pct_bytes(b: Seq<u8>, i: int) -> Option<Seq<u8>>
    decreases b.len() - i,
{
    if i < 0 || i >= b.len() {
        Some(Seq::empty())
    } else if b[i] == 37 {
        if i + 2 >= b.len() {
            None
        } else {
            match (hex_value(b[i + 1]), hex_value(b[i + 2]), pct_bytes(b, i + 3)) {
                (Some(h), Some(l), Some(rest)) => Some(seq![(h * 16 + l) as u8] + rest),
                _ => None,
            }
        }
    } else {
        match pct_bytes(b, i + 1) {
            Some(rest) => Some(seq![b[i]] + rest),
            None => None,
        }
    }
}

/// What `percent_decode` returns: the percent-decoded bytes of the UTF-8
/// text of `s`, when they are themselves UTF-8.
pub open spec fn percent_decode_spec(s: Seq<char>) -> Option<Seq<char>> {
    match pct_bytes(encode_utf8(s), 0) {
        Some(v) => if valid_utf8(v) {
            Some(decode_utf8(v))
        } else {
            None
        },
        None => None,
    }
}

/// std's `String::from_utf8`. Trusted, as its documentation states: it
/// succeeds exactly on valid UTF-8, with the text those bytes encode.
#[verifier::external_body]
fn string_from_utf8(v: Vec<u8>) -> (r: Option<String>)
    ensures
        r is Some <==> valid_utf8(v@),
        r matches Some(s) ==> s@ == decode_utf8(v@),
{
    String::from_utf8(v).ok()
}

proof fn lemma_hex_pair(h: u8, l: u8)
    requires
        h < 16,
        l < 16,
    ensures
        (h << 4) | l == (h * 16 + l) as u8,
{
    assert(h < 16 && l < 16 ==> (h << 4) | l == (h * 16 + l) as u8) by (bit_vector);
}

/// Decodes `%XY` escapes; `None` on a malformed escape or when the result
/// is not UTF-8.
pub fn percent_decode(input: &str) -> (r: Option<String>)
    ensures
        r matches Some(s) ==> percent_decode_spec(input@) == Some(s@),
        r is None ==> percent_decode_spec(input@) is None,
{
    let bytes = input.as_bytes();
    let ghost b = bytes@;
    let mut out: Vec<u8> = Vec::new();
    let mut i: usize = 0;
    assert(out@ + Seq::<u8>::empty() =~= out@);
    while i < bytes.len()
        invariant
            b == bytes@,
            b == encode_utf8(input@),
            i <= b.len(),
            pct_bytes(b, i as int) matches Some(rest) ==> pct_bytes(b, 0) == Some(out@ + rest),
            pct_bytes(b, i as int) is None ==> pct_bytes(b, 0) is None,
        decreases b.len() - i,
    {
        if bytes[i] == 37 {
            if bytes.len() - i <= 2 {
                return None;
            }
            let hi = match hexval(bytes[i + 1]) {
                Some(h) => h,
                None => {
                    return None;
                },
            };
            let lo = match hexval(bytes[i + 2]) {
                Some(l) => l,
                None => {
                    return None;
                },
            };
            proof {
                lemma_hex_pair(hi, lo);
                if let Some(rest) = pct_bytes(b, i + 3) {
                    assert(out@.push((hi * 16 + lo) as u8) + rest =~= out@ + (seq![(hi * 16 + lo) as u8] + rest));
                }
            }
            out.push((hi << 4) | lo);
            i += 3;
        } else {
            proof {
                if let Some(rest) = pct_bytes(b, i + 1) {
                    assert(out@.push(b[i as int]) + rest =~= out@ + (seq![b[i as int]] + rest));
                }
            }
            out.push(bytes[i]);
            i += 1;
        }
    }
    string_from_utf8(out)
}

/// A hexadecimal digit for `d < 16`, upper- or lowercase.
pub open spec fn hex_char(d: u8, upper: bool) -> char {
    if d < 10 {
        (d as u32 + 48) as char
    } else if upper {
        (d as u32 + 55) as char
    } else {
        (d as u32 + 87) as char
    }
}

/// Every byte of `b` written as `%` and two hexadecimal digits.
pub open spec fn pct_encode(b: Seq<u8>, upper: bool) -> Seq<char>
    decreases b.len(),
{
    if b.len() == 0 {
        Seq::empty()
    } else {
        seq!['%', hex_char(b[0] / 16, upper), hex_char(b[0] % 16, upper)] + pct_encode(b.drop_first(), upper)
    }
}

proof fn lemma_scalar_bytes(c: char)
    ensures
        (c as u32) < 128 ==> encode_scalar(c as u32).len() == 1 && encode_scalar(c as u32)[0] as u32 == c as u32,
        (c as u32) >= 128 ==> forall|k: int|
            0 <= k < encode_scalar(c as u32).len() ==> #[trigger] encode_scalar(c as u32)[k] >= 128,
{
    let v = c as u32;
    vstd::utf8::char_is_scalar(c);
    if v < 128 {
        assert(v <= 0x7f ==> ((v & 0x7f) as u8) as u32 == v) by (bit_vector);
    } else {
        assert(0xC0 | ((v >> 6) & 0x1F) as u8 >= 0x80u8) by (bit_vector);
        assert(0xE0 | ((v >> 12) & 0x0F) as u8 >= 0x80u8) by (bit_vector);
        assert(0xF0 | ((v >> 18) & 0x7) as u8 >= 0x80u8) by (bit_vector);
        assert(0x80 | (v & 0x3F) as u8 >= 0x80u8) by (bit_vector);
        assert(0x80 | ((v >> 6) & 0x3F) as u8 >= 0x80u8) by (bit_vector);
        assert(0x80 | ((v >> 12) & 0x3F) as u8 >= 0x80u8) by (bit_vector);
    }
}

proof fn lemma_encode_no_percent(s: Seq<char>)
    requires
        !s.contains('%'),
    ensures
        forall|j: int| 0 <= j < encode_utf8(s).len() ==> #[trigger] encode_utf8(s)[j] != 37,
    decreases s.len(),
{
    if s.len() > 0 {
        let rest = s.drop_first();
        assert(!rest.contains('%')) by {
            if rest.contains('%') {
                let j = choose|j: int| 0 <= j < rest.len() && rest[j] == '%';
                assert(s[j + 1] == '%');
            }
        }
        lemma_encode_no_percent(rest);
        lemma_scalar_bytes(s[0]);
        let f = encode_scalar(s[0] as u32);
        let e = encode_utf8(s);
        assert(e == f + encode_utf8(rest));
        assert forall|j: int| 0 <= j < e.len() implies #[trigger] e[j] != 37 by {
            if j < f.len() {
                if (s[0] as u32) < 128 && e[j] == 37 {
                    vstd::utf8::char_u32_cast(s[0], 37);
                    vstd::utf8::char_u32_cast('%', 37);
                }
            } else {
                assert(e[j] == encode_utf8(rest)[j - f.len()]);
            }
        }
    }
}

proof fn lemma_no_percent_bytes(b: Seq<u8>, i: int)
    requires
        0 <= i <= b.len(),
        forall|j: int| i <= j < b.len() ==> b[j] != 37,
    ensures
        pct_bytes(b, i) == Some(b.skip(i)),
    decreases b.len() - i,
{
    if i < b.len() {
        lemma_no_percent_bytes(b, i + 1);
        assert(seq![b[i]] + b.skip(i + 1) =~= b.skip(i));
    } else {
        assert(b.skip(i) =~= Seq::<u8>::empty());
    }
}

proof fn lemma_encode_ascii(t: Seq<char>)
    requires
        forall|j: int| 0 <= j < t.len() ==> (#[trigger] t[j] as u32) < 128,
    ensures
        encode_utf8(t).len() == t.len(),
        forall|j: int| 0 <= j < t.len() ==> #[trigger] encode_utf8(t)[j] as u32 == t[j] as u32,
    decreases t.len(),
{
    if t.len() > 0 {
        let rest = t.drop_first();
        assert forall|j: int| 0 <= j < rest.len() implies (#[trigger] rest[j] as u32) < 128 by {
            assert(rest[j] == t[j + 1]);
        }
        lemma_encode_ascii(rest);
        lemma_scalar_bytes(t[0]);
        let e = encode_utf8(t);
        assert(e == encode_scalar(t[0] as u32) + encode_utf8(rest));
        assert forall|j: int| 0 <= j < t.len() implies #[trigger] encode_utf8(t)[j] as u32 == t[j] as u32 by {
            if j > 0 {
                assert(e[j] == encode_utf8(rest)[j - 1]);
                assert(t[j] == rest[j - 1]);
            }
        }
    }
}

proof fn lemma_pct_encode_shape(b: Seq<u8>, upper: bool)
    ensures
        pct_encode(b, upper).len() == 3 * b.len(),
        forall|k: int| 0 <= k < b.len() ==> {
            &&& #[trigger] pct_encode(b, upper)[3 * k] == '%'
            &&& pct_encode(b, upper)[3 * k + 1] == hex_char(b[k] / 16, upper)
            &&& pct_encode(b, upper)[3 * k + 2] == hex_char(b[k] % 16, upper)
        },
        forall|j: int| 0 <= j < pct_encode(b, upper).len() ==> (#[trigger] pct_encode(b, upper)[j] as u32) < 128,
    decreases b.len(),
{
    if b.len() > 0 {
        let rest = b.drop_first();
        lemma_pct_encode_shape(rest, upper);
        let t = pct_encode(b, upper);
        let tr = pct_encode(rest, upper);
        let h = seq!['%', hex_char(b[0] / 16, upper), hex_char(b[0] % 16, upper)];
        assert(t == h + tr);
        assert forall|k: int| 0 <= k < b.len() implies {
            &&& #[trigger] t[3 * k] == '%'
            &&& t[3 * k + 1] == hex_char(b[k] / 16, upper)
            &&& t[3 * k + 2] == hex_char(b[k] % 16, upper)
        } by {
            if k > 0 {
                assert(b[k] == rest[k - 1]);
                assert(t[3 * k] == tr[3 * (k - 1)]);
                assert(t[3 * k + 1] == tr[3 * (k - 1) + 1]);
                assert(t[3 * k + 2] == tr[3 * (k - 1) + 2]);
            }
        }
        assert forall|j: int| 0 <= j < t.len() implies (#[trigger] t[j] as u32) < 128 by {
            if j >= 3 {
                assert(t[j] == tr[j - 3]);
            }
        }
    }
}

proof fn lemma_hex_char_value(x: u8, d: u8, upper: bool)
    requires
        d < 16,
        x as u32 == hex_char(d, upper) as u32,
    ensures
        hex_value(x) == Some(d),
{
}

proof fn lemma_pct_decode_encoded(b: Seq<u8>, upper: bool, k: int)
    requires
        0 <= k <= b.len(),
    ensures
        pct_bytes(encode_utf8(pct_encode(b, upper)), 3 * k) == Some(b.skip(k)),
    decreases b.len() - k,
{
    let t = pct_encode(b, upper);
    let e = encode_utf8(t);
    lemma_pct_encode_shape(b, upper);
    lemma_encode_ascii(t);
    if k == b.len() {
        assert(b.skip(k) =~= Seq::<u8>::empty());
    } else {
        lemma_pct_decode_encoded(b, upper, k + 1);
        assert(t[3 * k] == '%');
        assert(e[3 * k] as u32 == t[3 * k] as u32);
        assert(e[3 * k + 1] as u32 == t[3 * k + 1] as u32);
        assert(e[3 * k + 2] as u32 == t[3 * k + 2] as u32);
        lemma_hex_char_value(e[3 * k + 1], b[k] / 16, upper);
        lemma_hex_char_value(e[3 * k + 2], b[k] % 16, upper);
        assert(3 * k + 3 == 3 * (k + 1));
        assert(((b[k] / 16) * 16 + b[k] % 16) as u8 == b[k]);
        assert(seq![b[k]] + b.skip(k + 1) =~= b.skip(k));
    }
}

/// Percent-decoding laws: text without `%` is given back as it is, and
/// text whose UTF-8 bytes are each written as `%XY` (in either case) is
/// given back from that encoding.
pub proof fn law_percent_decode_round_trip(s: Seq<char>, upper: bool)
    ensures
        !s.contains('%') ==> percent_decode_spec(s) == Some(s),
        percent_decode_spec(pct_encode(encode_utf8(s), upper)) == Some(s),
{
    vstd::utf8::encode_utf8_valid_utf8(s);
    vstd::utf8::encode_utf8_decode_utf8(s);
    if !s.contains('%') {
        lemma_encode_no_percent(s);
        lemma_no_percent_bytes(encode_utf8(s), 0);
        assert(encode_utf8(s).skip(0) =~= encode_utf8(s));
    }
    lemma_pct_decode_encoded(encode_utf8(s), upper, 0);
    assert(encode_utf8(s).skip(0) =~= encode_utf8(s));
}

// ---------------------------------------------------------------- relative paths

/// A `..` path segment starts at index `i` of `s` (segments are separated
/// by `/`).
pub open spec fn dotdot_at(s: Seq<char>, i: int) -> bool {
    &&& 0 <= i
    &&& i + 2 <= s.len()
    &&& (i == 0 || s[i - 1] == '/')
    &&& s[i] == '.'
    &&& s[i + 1] == '.'
    &&& (i + 2 == s.len() || s[i + 2] == '/')
}

/// What `sanitize_relative_path` returns: the percent-decoded target
/// without its leading `/`s, refused when it cannot be decoded or holds a
/// NUL, a backslash or a `..` segment.
pub open spec fn relative_path_spec(raw: Seq<char>) -> Option<Seq<char>> {
    match percent_decode_spec(raw) {
        None => None,
        Some(d) => if d.contains('\0') || d.contains('\\') {
            None
        } else if exists|i: int| dotdot_at(strip_leading(d, '/'), i) {
            None
        } else {
            Some(strip_leading(d, '/'))
        },
    }
}

/// Turns a request path into a path relative to the site root, refusing
/// anything that could climb out of it.
pub fn sanitize_relative_path(raw: &str) -> (r: Option<String>)
    ensures
        r matches Some(s) ==> relative_path_spec(raw@) == Some(s@),
        r is None ==> relative_path_spec(raw@) is None,
{
    let decoded = match percent_decode(raw) {
        Some(d) => d,
        None => {
            return None;
        },
    };
    let d = chars_of(decoded.as_str());
    assert(percent_decode_spec(raw@) == Some(d@));
    let mut i: usize = 0;
    while i < d.len()
        invariant
            i <= d@.len(),
            percent_decode_spec(raw@) == Some(d@),
            forall|j: int| 0 <= j < i ==> d@[j] != '\0' && d@[j] != '\\',
        decreases d@.len() - i,
    {
        if d[i] == '\0' || d[i] == '\\' {
            proof {
                if d[i as int] == '\0' {
                    assert(d@.contains('\0'));
                } else {
                    assert(d@.contains('\\'));
                }
            }
            return None;
        }
        i += 1;
    }
    let mut a: usize = 0;
    assert(d@.skip(0) =~= d@);
    while a < d.len() && d[a] == '/'
        invariant
            a <= d@.len(),
            strip_leading(d@, '/') == strip_leading(d@.skip(a as int), '/'),
        decreases d@.len() - a,
    {
        assert(d@.skip(a as int).drop_first() =~= d@.skip(a + 1));
        a += 1;
    }
    let rest = crate::text::slice_range(&d, a, d.len());
    proof {
        assert(d@.skip(a as int) =~= rest@);
        assert(!d@.contains('\0') && !d@.contains('\\'));
        assert(strip_leading(d@, '/') == rest@);
    }
    let mut k: usize = 0;
    while k < rest.len()
        invariant
            k <= rest@.len(),
            percent_decode_spec(raw@) == Some(d@),
            !d@.contains('\0') && !d@.contains('\\'),
            rest@ == strip_leading(d@, '/'),
            forall|j: int| 0 <= j < k ==> !dotdot_at(rest@, j),
        decreases rest@.len() - k,
    {
        if (k == 0 || rest[k - 1] == '/') && rest.len() - k >= 2 && rest[k] == '.' && rest[k + 1] == '.'
            && (rest.len() - k == 2 || rest[k + 2] == '/') {
            assert(dotdot_at(rest@, k as int));
            return None;
        }
        k += 1;
    }
    proof {
        assert forall|j: int| !dotdot_at(rest@, j) by {
            if 0 <= j < k {
            }
        }
    }
    Some(string_of(&rest))
}

proof fn lemma_strip_leading_suffix(s: Seq<char>, c: char)
    ensures
        exists|k: int| 0 <= k <= s.len() && strip_leading(s, c) == s.skip(k),
        strip_leading(s, c).len() > 0 ==> strip_leading(s, c)[0] != c,
    decreases s.len(),
{
    if s.len() > 0 && s[0] == c {
        lemma_strip_leading_suffix(s.drop_first(), c);
        let k = choose|k: int| 0 <= k <= s.drop_first().len() && strip_leading(s.drop_first(), c) == s.drop_first().skip(k);
        assert(s.drop_first().skip(k) =~= s.skip(k + 1));
    } else {
        assert(s.skip(0) =~= s);
    }
}

/// Path law: an accepted path is relative (no leading `/`), has no `..`
/// segment, and holds no NUL and no backslash.
pub proof fn law_relative_path_confined(raw: Seq<char>)
    ensures
        relative_path_spec(raw) matches Some(p) ==> {
            &&& !(exists|i: int| dotdot_at(p, i))
            &&& !p.contains('\0')
            &&& !p.contains('\\')
            &&& (p.len() > 0 ==> p[0] != '/')
        },
{
    if let Some(p) = relative_path_spec(raw) {
        let d = percent_decode_spec(raw).unwrap();
        lemma_strip_leading_suffix(d, '/');
        let k = choose|k: int| 0 <= k <= d.len() && strip_leading(d, '/') == d.skip(k);
        if p.contains('\0') {
            let j = choose|j: int| 0 <= j < p.len() && p[j] == '\0';
            assert(d[j + k] == '\0');
        }
        if p.contains('\\') {
            let j = choose|j: int| 0 <= j < p.len() && p[j] == '\\';
            assert(d[j + k] == '\\');
        }
    }
}

// ---------------------------------------------------------------- content types

/// The extension of a path as `Path::extension` finds it (as text).
pub uninterp spec fn path_extension(path: Seq<char>) -> Option<Seq<char>>;

/// The index of the last `c` in `s`, or -1 when there is none.
pub open spec fn last_index_of(s: Seq<char>, c: char) -> int
    decreases s.len(),
{
    if s.len() == 0 {
        -1
    } else if s.last() == c {
        s.len() - 1
    } else {
        last_index_of(s.drop_last(), c)
    }
}

/// What follows the last `/` of a path (all of it when there is none).
pub open spec fn last_segment(p: Seq<char>) -> Seq<char> {
    p.skip(last_index_of(p, '/') + 1)
}

/// A path whose last segment is a file name: not empty (so the path does
/// not end in `/`), and neither `.` nor `..`.
pub open spec fn plain_file_path(p: Seq<char>) -> bool {
    let f = last_segment(p);
    f.len() > 0 && f != seq!['.'] && f != seq!['.', '.']
}

/// The extension of a file name as `Path::extension` documents it: what
/// follows its last `.`; none when it has no `.`, or when its only `.` is
/// its first character.
pub open spec fn name_extension(f: Seq<char>) -> Option<Seq<char>> {
    let k = last_index_of(f, '.');
    if k <= 0 {
        None
    } else {
        Some(f.skip(k + 1))
    }
}

/// std's `Path::new(path).extension()` read as text. Trusted to be a
/// function of the path alone, named `path_extension`; for a path whose
/// last segment is a plain file name it is that name's extension, as the
/// documentation of `Path::extension` and `Path::file_name` states. For
/// paths that end in `/`, `.` or `..` the result is not restated.
#[verifier::external_body]
fn extension_of(path: &str) -> (r: Option<String>)
    ensures
        r matches Some(e) ==> path_extension(path@) == Some(e@),
        r is None ==> path_extension(path@) is None,
        plain_file_path(path@) && name_extension(last_segment(path@)) is None ==> r is None,
        plain_file_path(path@) && name_extension(last_segment(path@)) is Some ==> r is Some
            && r.unwrap()@ == name_extension(last_segment(path@)).unwrap(),
{
    std::path::Path::new(path).extension().and_then(|e| e.to_str()).map(|e| e.to_string())
}

/// The `Content-Type` served for a file with the given lowercase extension.
pub open spec fn mime_of(ext: Seq<char>) -> Seq<char> {
    if ext == "html"@ || ext == "htm"@ {
        "text/html; charset=utf-8"@
    } else if ext == "css"@ {
        "text/css; charset=utf-8"@
    } else if ext == "js"@ || ext == "mjs"@ {
        "application/javascript; charset=utf-8"@
    } else if ext == "json"@ {
        "application/json; charset=utf-8"@
    } else if ext == "png"@ {
        "image/png"@
    } else if ext == "jpg"@ || ext == "jpeg"@ {
        "image/jpeg"@
    } else if ext == "gif"@ {
        "image/gif"@
    } else if ext == "svg"@ {
        "image/svg+xml"@
    } else if ext == "webp"@ {
        "image/webp"@
    } else if ext == "ico"@ {
        "image/x-icon"@
    } else if ext == "xml"@ {
        "application/xml; charset=utf-8"@
    } else if ext == "txt"@ || ext == "md"@ {
        "text/plain; charset=utf-8"@
    } else if ext == "pdf"@ {
        "application/pdf"@
    } else if ext == "woff"@ {
        "font/woff"@
    } else if ext == "woff2"@ {
        "font/woff2"@
    } else if ext == "ttf"@ {
        "font/ttf"@
    } else {
        "application/octet-stream"@
    }
}

/// The `Content-Type` for an extension, compared in ASCII lowercase.
/// Content-type law: the table of served types, by extension in any ASCII
/// case; every other extension (and none) is served as
/// `application/octet-stream`.
#[verifier::spinoff_prover]
#[verifier::rlimit(50)]
pub proof fn law_content_type_table(e: Seq<char>)
    ensures
        ascii_lower(e) == "html"@ || ascii_lower(e) == "htm"@ ==> mime_of(ascii_lower(e)) == "text/html; charset=utf-8"@,
        ascii_lower(e) == "css"@ ==> mime_of(ascii_lower(e)) == "text/css; charset=utf-8"@,
        ascii_lower(e) == "js"@ || ascii_lower(e) == "mjs"@ ==> mime_of(ascii_lower(e))
            == "application/javascript; charset=utf-8"@,
        ascii_lower(e) == "json"@ ==> mime_of(ascii_lower(e)) == "application/json; charset=utf-8"@,
        ascii_lower(e) == "png"@ ==> mime_of(ascii_lower(e)) == "image/png"@,
        ascii_lower(e) == "jpg"@ || ascii_lower(e) == "jpeg"@ ==> mime_of(ascii_lower(e)) == "image/jpeg"@,
        ascii_lower(e) == "gif"@ ==> mime_of(ascii_lower(e)) == "image/gif"@,
        ascii_lower(e) == "svg"@ ==> mime_of(ascii_lower(e)) == "image/svg+xml"@,
        ascii_lower(e) == "webp"@ ==> mime_of(ascii_lower(e)) == "image/webp"@,
        ascii_lower(e) == "ico"@ ==> mime_of(ascii_lower(e)) == "image/x-icon"@,
        ascii_lower(e) == "xml"@ ==> mime_of(ascii_lower(e)) == "application/xml; charset=utf-8"@,
        ascii_lower(e) == "txt"@ || ascii_lower(e) == "md"@ ==> mime_of(ascii_lower(e)) == "text/plain; charset=utf-8"@,
        ascii_lower(e) == "pdf"@ ==> mime_of(ascii_lower(e)) == "application/pdf"@,
        ascii_lower(e) == "woff"@ ==> mime_of(ascii_lower(e)) == "font/woff"@,
        ascii_lower(e) == "woff2"@ ==> mime_of(ascii_lower(e)) == "font/woff2"@,
        ascii_lower(e) == "ttf"@ ==> mime_of(ascii_lower(e)) == "font/ttf"@,
        !(ascii_lower(e) == "html"@ || ascii_lower(e) == "htm"@ || ascii_lower(e) == "css"@ || ascii_lower(e) == "js"@
            || ascii_lower(e) == "mjs"@ || ascii_lower(e) == "json"@ || ascii_lower(e) == "png"@ || ascii_lower(e)
            == "jpg"@ || ascii_lower(e) == "jpeg"@ || ascii_lower(e) == "gif"@ || ascii_lower(e) == "svg"@ || ascii_lower(
            e,
        ) == "webp"@ || ascii_lower(e) == "ico"@ || ascii_lower(e) == "xml"@ || ascii_lower(e) == "txt"@ || ascii_lower(
            e,
        ) == "md"@ || ascii_lower(e) == "pdf"@ || ascii_lower(e) == "woff"@ || ascii_lower(e) == "woff2"@ || ascii_lower(
            e,
        ) == "ttf"@) ==> mime_of(ascii_lower(e)) == "application/octet-stream"@,
{
    reveal_strlit("html");
    reveal_strlit("htm");
    reveal_strlit("css");
    reveal_strlit("js");
    reveal_strlit("mjs");
    reveal_strlit("json");
    reveal_strlit("png");
    reveal_strlit("jpg");
    reveal_strlit("jpeg");
    reveal_strlit("gif");
    reveal_strlit("svg");
    reveal_strlit("webp");
    reveal_strlit("ico");
    reveal_strlit("xml");
    reveal_strlit("txt");
    reveal_strlit("md");
    reveal_strlit("pdf");
    reveal_strlit("woff");
    reveal_strlit("woff2");
    reveal_strlit("ttf");
    assert("html"@ =~= seq!['h', 't', 'm', 'l']);
    assert("htm"@ =~= seq!['h', 't', 'm']);
    assert("css"@ =~= seq!['c', 's', 's']);
    assert("js"@ =~= seq!['j', 's']);
    assert("mjs"@ =~= seq!['m', 'j', 's']);
    assert("json"@ =~= seq!['j', 's', 'o', 'n']);
    assert("png"@ =~= seq!['p', 'n', 'g']);
    assert("jpg"@ =~= seq!['j', 'p', 'g']);
    assert("jpeg"@ =~= seq!['j', 'p', 'e', 'g']);
    assert("gif"@ =~= seq!['g', 'i', 'f']);
    assert("svg"@ =~= seq!['s', 'v', 'g']);
    assert("webp"@ =~= seq!['w', 'e', 'b', 'p']);
    assert("ico"@ =~= seq!['i', 'c', 'o']);
    assert("xml"@ =~= seq!['x', 'm', 'l']);
    assert("txt"@ =~= seq!['t', 'x', 't']);
    assert("md"@ =~= seq!['m', 'd']);
    assert("pdf"@ =~= seq!['p', 'd', 'f']);
    assert("woff"@ =~= seq!['w', 'o', 'f', 'f']);
    assert("woff2"@ =~= seq!['w', 'o', 'f', 'f', '2']);
    assert("ttf"@ =~= seq!['t', 't', 'f']);
}

pub fn content_type_for_ext(ext: &str) -> (r: String)
    ensures
        r@ == mime_of(ascii_lower(ext@)),
{
    let e0 = chars_of(ext);
    let e = ascii_lowercase(&e0);
    let m = if eq_str(&e, "html") || eq_str(&e, "htm") {
        "text/html; charset=utf-8"
    } else if eq_str(&e, "css") {
        "text/css; charset=utf-8"
    } else if eq_str(&e, "js") || eq_str(&e, "mjs") {
        "application/javascript; charset=utf-8"
    } else if eq_str(&e, "json") {
        "application/json; charset=utf-8"
    } else if eq_str(&e, "png") {
        "image/png"
    } else if eq_str(&e, "jpg") || eq_str(&e, "jpeg") {
        "image/jpeg"
    } else if eq_str(&e, "gif") {
        "image/gif"
    } else if eq_str(&e, "svg") {
        "image/svg+xml"
    } else if eq_str(&e, "webp") {
        "image/webp"
    } else if eq_str(&e, "ico") {
        "image/x-icon"
    } else if eq_str(&e, "xml") {
        "application/xml; charset=utf-8"
    } else if eq_str(&e, "txt") || eq_str(&e, "md") {
        "text/plain; charset=utf-8"
    } else if eq_str(&e, "pdf") {
        "application/pdf"
    } else if eq_str(&e, "woff") {
        "font/woff"
    } else if eq_str(&e, "woff2") {
        "font/woff2"
    } else if eq_str(&e, "ttf") {
        "font/ttf"
    } else {
        "application/octet-stream"
    };
    String::from_str(m)
}

/// The `Content-Type` served for a file: by its extension (none counts as
/// the empty one), compared in ASCII lowercase.
pub fn content_type(path: &str) -> (r: String)
    ensures
        r@ == mime_of(ascii_lower(match path_extension(path@) {
            Some(e) => e,
            None => Seq::empty(),
        })),
        plain_file_path(path@) ==> r@ == mime_of(ascii_lower(match name_extension(last_segment(path@)) {
            Some(e) => e,
            None => Seq::empty(),
        })),
{
    match extension_of(path) {
        Some(e) => content_type_for_ext(e.as_str()),
        None => {
            proof {
                reveal_strlit("");
                assert(""@ =~= Seq::<char>::empty());
            }
            content_type_for_ext("")
        },
    }
}

// ---------------------------------------------------------------- query parameters

/// The view of an optional string slice.
pub open spec fn opt_view(o: Option<&str>) -> Option<Seq<char>> {
    match o {
        Some(s) => Some(s@),
        None => None,
    }
}

/// The raw value of the first `key=value` pair of a query string (pairs
/// separated by `&`, split at their first `=`) whose key is `key`, reading
/// from index `i`.
pub open spec fn param_from(q: Seq<char>, key: Seq<char>, i: int) -> Option<Seq<char>>
    decreases q.len() - i,
{
    if 0 <= i <= q.len() {
        let e = find_from(q, i, '&');
        let seg = q.subrange(i, e);
        let eq = find_from(seg, 0, '=');
        if eq < seg.len() && seg.take(eq) == key {
            Some(seg.skip(eq + 1))
        } else if i <= e < q.len() {
            param_from(q, key, e + 1)
        } else {
            None
        }
    } else {
        None
    }
}

/// What `query_param` returns: the percent-decoded value of the first pair
/// with the key, `None` when there is none or it does not decode.
pub open spec fn query_param_spec(query: Option<Seq<char>>, key: Seq<char>) -> Option<Seq<char>> {
    match query {
        None => None,
        Some(q) => match param_from(q, key, 0) {
            None => None,
            Some(v) => percent_decode_spec(v),
        },
    }
}

/// The value of a query parameter (see `query_param_spec`); `query` is the
/// query part of the request URI, if it has one.
pub fn query_param(query: Option<&str>, key: &str) -> (r: Option<String>)
    ensures
        r matches Some(v) ==> query_param_spec(opt_view(query), key@) == Some(v@),
        r is None ==> query_param_spec(opt_view(query), key@) is None,
{
    let q = match query {
        Some(q) => q,
        None => {
            return None;
        },
    };
    let qs = chars_of(q);
    let ks = chars_of(key);
    let mut i: usize = 0;
    let mut done = false;
    while !done
        invariant
            qs@ == q@,
            ks@ == key@,
            opt_view(query) == Some(q@),
            !done ==> i <= qs@.len() && param_from(q@, key@, 0) == param_from(q@, key@, i as int),
            done ==> param_from(q@, key@, 0) is None,
        decreases qs@.len() + 1 - i, (if done { 0int } else { 1int }),
    {
        let e = find_char(&qs, i, '&');
        proof { lemma_scans(qs@, i as int, '&'); }
        let seg = slice_range(&qs, i, e);
        let eq = find_char(&seg, 0, '=');
        proof { lemma_scans(seg@, 0, '='); }
        if eq < seg.len() {
            let k = slice_range(&seg, 0, eq);
            assert(k@ =~= seg@.take(eq as int));
            if crate::text::eq_chars(&k, &ks) {
                let v = slice_range(&seg, eq + 1, seg.len());
                assert(v@ =~= seg@.skip(eq + 1));
                assert(param_from(q@, key@, i as int) == Some(v@));
                let vs = string_of(&v);
                return percent_decode(vs.as_str());
            }
        }
        if e < qs.len() {
            i = e + 1;
        } else {
            done = true;
        }
    }
    None
}

// ---------------------------------------------------------------- cookies

/// The cookies of a `Cookie` header read from index `i`: the header is
/// split at `;`, each part trimmed and split at its first `=`, key and
/// value trimmed; parts without `=` are skipped.
pub open spec fn cookies_from(h: Seq<char>, i: int) -> Seq<(Seq<char>, Seq<char>)>
    decreases h.len() - i,
{
    if 0 <= i <= h.len() {
        let e = find_from(h, i, ';');
        let part = trim(h.subrange(i, e));
        let eq = find_from(part, 0, '=');
        let here = if eq < part.len() {
            seq![(trim(part.take(eq)), trim(part.skip(eq + 1)))]
        } else {
            Seq::empty()
        };
        here + if i <= e < h.len() {
            cookies_from(h, e + 1)
        } else {
            Seq::empty()
        }
    } else {
        Seq::empty()
    }
}

/// The value of the last cookie named `name` (a later one replaces an
/// earlier one).
pub open spec fn cookie_lookup(c: Seq<(Seq<char>, Seq<char>)>, name: Seq<char>) -> Option<Seq<char>>
    decreases c.len(),
{
    if c.len() == 0 {
        None
    } else if c.last().0 == name {
        Some(c.last().1)
    } else {
        cookie_lookup(c.drop_last(), name)
    }
}

fn parse_cookie_chars(h: &[char]) -> (r: Vec<(Vec<char>, Vec<char>)>)
    ensures
        crate::html::pairs_view(r@) == cookies_from(h@, 0),
{
    let mut out: Vec<(Vec<char>, Vec<char>)> = Vec::new();
    let mut i: usize = 0;
    assert(crate::html::pairs_view(out@) + cookies_from(h@, 0) =~= cookies_from(h@, 0));
    let mut done = false;
    while !done
        invariant
            !done ==> i <= h@.len() && cookies_from(h@, 0) == crate::html::pairs_view(out@) + cookies_from(h@, i as int),
            done ==> cookies_from(h@, 0) == crate::html::pairs_view(out@),
        decreases h@.len() + 1 - i, (if done { 0int } else { 1int }),
    {
        let ghost before = out@;
        let e = find_char(h, i, ';');
        proof { lemma_scans(h@, i as int, ';'); }
        let raw = slice_range(h, i, e);
        let part = trim_chars(&raw);
        let eq = find_char(&part, 0, '=');
        proof { lemma_scans(part@, 0, '='); }
        if eq < part.len() {
            let k0 = slice_range(&part, 0, eq);
            let v0 = slice_range(&part, eq + 1, part.len());
            assert(k0@ =~= part@.take(eq as int));
            assert(v0@ =~= part@.skip(eq + 1));
            let k = trim_chars(&k0);
            let v = trim_chars(&v0);
            out.push((k, v));
        }
        proof {
            let here = if (eq as int) < part@.len() {
                seq![(trim(part@.take(eq as int)), trim(part@.skip(eq + 1)))]
            } else {
                Seq::<(Seq<char>, Seq<char>)>::empty()
            };
            assert(crate::html::pairs_view(out@) =~= crate::html::pairs_view(before) + here);
            if e < h@.len() {
                assert(crate::html::pairs_view(out@) + cookies_from(h@, e + 1)
                    =~= crate::html::pairs_view(before) + (here + cookies_from(h@, e + 1)));
            } else {
                assert(here + Seq::<(Seq<char>, Seq<char>)>::empty() =~= here);
            }
        }
        if e < h.len() {
            i = e + 1;
        } else {
            done = true;
        }
    }
    out
}

/// The value of cookie `name` in a `Cookie` header (the last one of that
/// name), if the header is there and names it.
pub fn cookie_value(header: Option<&str>, name: &str) -> (r: Option<String>)
    ensures
        r matches Some(v) ==> header matches Some(h) && cookie_lookup(cookies_from(h@, 0), name@) == Some(v@),
        r is None ==> header is None || (header matches Some(h) && cookie_lookup(cookies_from(h@, 0), name@) is None),
{
    let h = match header {
        Some(h) => h,
        None => {
            return None;
        },
    };
    let hs = chars_of(h);
    let ns = chars_of(name);
    let pairs = parse_cookie_chars(&hs);
    let mut j: usize = pairs.len();
    assert(crate::html::pairs_view(pairs@).take(j as int) =~= crate::html::pairs_view(pairs@));
    while j > 0
        invariant
            j <= pairs@.len(),
            ns@ == name@,
            header == Some(h),
            crate::html::pairs_view(pairs@) == cookies_from(h@, 0),
            cookie_lookup(cookies_from(h@, 0), name@) == cookie_lookup(crate::html::pairs_view(pairs@).take(j as int), name@),
        decreases j,
    {
        let ghost t = crate::html::pairs_view(pairs@).take(j as int);
        assert(t.last() == (pairs@[j - 1].0@, pairs@[j - 1].1@));
        if crate::text::eq_chars(&pairs[j - 1].0, &ns) {
            assert(cookie_lookup(t, name@) == Some(pairs@[j - 1].1@));
            return Some(string_of(&pairs[j - 1].1));
        }
        assert(t.drop_last() =~= crate::html::pairs_view(pairs@).take(j - 1));
        j -= 1;
    }
    None
}

// ---------------------------------------------------------------- Basic authentication

/// The user and password carried by an `Authorization` header value:
/// `Basic ` then Base64 of UTF-8 `user:password` (split at the first `:`).
pub open spec fn basic_credentials(auth: Seq<char>) -> Option<(Seq<char>, Seq<char>)> {
    if starts_with(auth, "Basic "@) {
        match base64_decode(auth.skip(6)) {
            Some(bytes) => if valid_utf8(bytes) {
                let cred = decode_utf8(bytes);
                let c = find_from(cred, 0, ':');
                if c < cred.len() {
                    Some((cred.take(c), cred.skip(c + 1)))
                } else {
                    None
                }
            } else {
                None
            },
            None => None,
        }
    } else {
        None
    }
}

/// Whether an `Authorization` header value grants access: Basic
/// credentials for `username` whose password hashes (SHA-256 of its UTF-8
/// bytes, lowercase hex) to `password_hash`.
pub open spec fn authorized_spec(auth: Option<Seq<char>>, username: Seq<char>, password_hash: Seq<char>) -> bool {
    match auth {
        None => false,
        Some(a) => match basic_credentials(a) {
            None => false,
            Some((user, pass)) => user == username && hex_lower(sha256_digest(encode_utf8(pass))) == password_hash,
        },
    }
}

proof fn lemma_encode_injective(a: Seq<char>, b: Seq<char>)
    requires
        encode_utf8(a) == encode_utf8(b),
    ensures
        a == b,
{
    vstd::utf8::encode_utf8_decode_utf8(a);
    vstd::utf8::encode_utf8_decode_utf8(b);
}

/// Checks HTTP Basic credentials against the configured user and password
/// hash; the hashes are compared in constant time.
pub fn is_authorized(auth: Option<&str>, username: &str, password_hash: &str) -> (r: bool)
    ensures
        r == authorized_spec(opt_view(auth), username@, password_hash@),
{
    let a = match auth {
        Some(a) => a,
        None => {
            return false;
        },
    };
    let av = chars_of(a);
    let prefix = chars_of("Basic ");
    proof {
        reveal_strlit("Basic ");
    }
    if !starts_with_chars(&av, &prefix) {
        return false;
    }
    let rest_v = slice_range(&av, 6, av.len());
    assert(rest_v@ =~= a@.skip(6));
    let rest = string_of(&rest_v);
    let decoded = match decode(rest.as_str()) {
        Some(d) => d,
        None => {
            return false;
        },
    };
    let cred = match string_from_utf8(decoded) {
        Some(c) => c,
        None => {
            return false;
        },
    };
    let cv = chars_of(cred.as_str());
    let c = find_char(&cv, 0, ':');
    proof { lemma_scans(cv@, 0, ':'); }
    if c >= cv.len() {
        return false;
    }
    let user = slice_range(&cv, 0, c);
    let pass = slice_range(&cv, c + 1, cv.len());
    assert(user@ =~= cv@.take(c as int));
    assert(pass@ =~= cv@.skip(c + 1));
    let uv = chars_of(username);
    if !crate::text::eq_chars(&user, &uv) {
        return false;
    }
    let pass_s = string_of(&pass);
    let hash = sha256_hex(pass_s.as_str().as_bytes());
    let ok = ct_eq(hash.as_str().as_bytes(), password_hash.as_bytes());
    proof {
        if hash@ == password_hash@ {
        } else if ok {
            lemma_encode_injective(hash@, password_hash@);
        }
    }
    ok
}

// ---------------------------------------------------------------- integers

/// An ASCII decimal digit.
pub open spec fn is_digit(c: char) -> bool {
    '0' <= c && c <= '9'
}

/// The value of a string of decimal digits.
pub open spec fn digits_value(d: Seq<char>) -> int
    decreases d.len(),
{
    if d.len() == 0 {
        0
    } else {
        digits_value(d.drop_last()) * 10 + (d.last() as int - 48)
    }
}

/// `str::parse::<i64>`: an optional `+` or `-`, then at least one decimal
/// digit and nothing else, with a value that fits in an `i64`.
pub open spec fn parse_i64_spec(s: Seq<char>) -> Option<i64> {
    let neg = s.len() > 0 && s[0] == '-';
    let d = digits_part(s);
    if d.len() == 0 || !all_digits(d) {
        None
    } else {
        let v = if neg { -digits_value(d) } else { digits_value(d) };
        if i64::MIN <= v <= i64::MAX {
            Some(v as i64)
        } else {
            None
        }
    }
}

/// `s` without a leading sign.
pub open spec fn digits_part(s: Seq<char>) -> Seq<char> {
    if s.len() > 0 && (s[0] == '-' || s[0] == '+') {
        s.drop_first()
    } else {
        s
    }
}

/// Every character of `d` is a decimal digit.
pub open spec fn all_digits(d: Seq<char>) -> bool {
    forall|k: int| 0 <= k < d.len() ==> is_digit(#[trigger] d[k])
}

proof fn lemma_digits_mono(d: Seq<char>, i: int, j: int)
    requires
        0 <= i <= j <= d.len(),
        forall|k: int| 0 <= k < j ==> is_digit(#[trigger] d[k]),
    ensures
        0 <= digits_value(d.take(i)) <= digits_value(d.take(j)),
    decreases j - i,
{
    if i < j {
        lemma_digits_mono(d, i, j - 1);
        assert(d.take(j).drop_last() =~= d.take(j - 1));
        lemma_digits_nonneg(d.take(j - 1));
    } else {
        lemma_digits_nonneg(d.take(i));
    }
}

proof fn lemma_digits_nonneg(d: Seq<char>)
    requires
        forall|k: int| 0 <= k < d.len() ==> is_digit(#[trigger] d[k]),
    ensures
        digits_value(d) >= 0,
    decreases d.len(),
{
    if d.len() > 0 {
        assert forall|k: int| 0 <= k < d.drop_last().len() implies is_digit(#[trigger] d.drop_last()[k]) by {
            assert(d.drop_last()[k] == d[k]);
        }
        lemma_digits_nonneg(d.drop_last());
    }
}

/// Parses a decimal `i64` as `str::parse::<i64>` does.
pub fn parse_i64(s: &str) -> (r: Option<i64>)
    ensures
        r == parse_i64_spec(s@),
{
    let cs = chars_of(s);
    let n = cs.len();
    let neg = n > 0 && cs[0] == '-';
    let start: usize = if n > 0 && (cs[0] == '-' || cs[0] == '+') { 1 } else { 0 };
    let ghost d = digits_part(s@);
    assert(d =~= cs@.skip(start as int));
    if start >= n {
        return None;
    }
    let mut acc: i128 = 0;
    let mut i: usize = start;
    while i < n
        invariant
            cs@ == s@,
            n == cs@.len(),
            start <= i <= n,
            d == cs@.skip(start as int),
            d == digits_part(s@),
            d.len() > 0,
            neg == (s@.len() > 0 && s@[0] == '-'),
            forall|k: int| 0 <= k < i - start ==> is_digit(#[trigger] d[k]),
            acc == digits_value(d.take(i - start)),
            0 <= acc <= 9223372036854775808,
        decreases n - i,
    {
        let c = cs[i];
        if !('0' <= c && c <= '9') {
            assert(!is_digit(d[i - start]));
            return None;
        }
        let dig = (c as u32 - 48) as i128;
        proof {
            assert(d.take(i - start + 1).drop_last() =~= d.take(i - start));
            assert(d.take(i - start + 1).last() == c);
        }
        acc = acc * 10 + dig;
        i += 1;
        if acc > 9223372036854775808 {
            proof {
                if all_digits(d) {
                    lemma_digits_mono(d, i - start, d.len() as int);
                    assert(d.take(d.len() as int) =~= d);
                }
            }
            return None;
        }
    }
    proof {
        assert(d.take(d.len() as int) =~= d);
    }
    if neg {
        Some((-acc) as i64)
    } else if acc <= 9223372036854775807 {
        Some(acc as i64)
    } else {
        None
    }
}

/// `str::parse::<usize>`: an optional `+`, then at least one decimal digit
/// and nothing else, with a value that fits in a `usize`.
pub open spec fn parse_usize_spec(s: Seq<char>) -> Option<usize> {
    let d = if s.len() > 0 && s[0] == '+' { s.drop_first() } else { s };
    if d.len() == 0 || !all_digits(d) {
        None
    } else if digits_value(d) <= usize::MAX {
        Some(digits_value(d) as usize)
    } else {
        None
    }
}

/// Parses a decimal `usize` as `str::parse::<usize>` does.
pub fn parse_usize(s: &str) -> (r: Option<usize>)
    ensures
        r == parse_usize_spec(s@),
{
    let cs = chars_of(s);
    let n = cs.len();
    let start: usize = if n > 0 && cs[0] == '+' { 1 } else { 0 };
    let ghost d = if s@.len() > 0 && s@[0] == '+' { s@.drop_first() } else { s@ };
    assert(d =~= cs@.skip(start as int));
    if start >= n {
        return None;
    }
    let mut acc: usize = 0;
    let mut i: usize = start;
    while i < n
        invariant
            cs@ == s@,
            n == cs@.len(),
            start <= i <= n,
            d == cs@.skip(start as int),
            d == (if s@.len() > 0 && s@[0] == '+' { s@.drop_first() } else { s@ }),
            d.len() > 0,
            forall|k: int| 0 <= k < i - start ==> is_digit(#[trigger] d[k]),
            acc == digits_value(d.take(i - start)),
        decreases n - i,
    {
        let c = cs[i];
        if !('0' <= c && c <= '9') {
            assert(!is_digit(d[i - start]));
            return None;
        }
        let dig = (c as u32 - 48) as usize;
        proof {
            assert(d.take(i - start + 1).drop_last() =~= d.take(i - start));
            assert(d.take(i - start + 1).last() == c);
        }
        if acc > (usize::MAX - dig) / 10 {
            proof {
                assert(acc * 10 + dig > usize::MAX) by (nonlinear_arith)
                    requires acc > (usize::MAX - dig) / 10, dig <= 9;
                if all_digits(d) {
                    lemma_digits_mono(d, i - start + 1, d.len() as int);
                    assert(d.take(d.len() as int) =~= d);
                }
            }
            return None;
        }
        proof {
            assert(acc * 10 + dig <= usize::MAX) by (nonlinear_arith)
                requires acc <= (usize::MAX - dig) / 10, dig <= 9;
        }
        acc = acc * 10 + dig;
        i += 1;
    }
    proof {
        assert(d.take(d.len() as int) =~= d);
    }
    Some(acc)
}

/// `str::parse::<u64>`: an optional `+`, then at least one decimal digit
/// and nothing else, with a value that fits in a `u64`.
pub open spec fn parse_u64_spec(s: Seq<char>) -> Option<u64> {
    let d = if s.len() > 0 && s[0] == '+' { s.drop_first() } else { s };
    if d.len() == 0 || !all_digits(d) {
        None
    } else if digits_value(d) <= u64::MAX {
        Some(digits_value(d) as u64)
    } else {
        None
    }
}

/// Parses a decimal `u64` as `str::parse::<u64>` does.
pub fn parse_u64(s: &str) -> (r: Option<u64>)
    ensures
        r == parse_u64_spec(s@),
{
    let cs = chars_of(s);
    let n = cs.len();
    let start: usize = if n > 0 && cs[0] == '+' { 1 } else { 0 };
    let ghost d = if s@.len() > 0 && s@[0] == '+' { s@.drop_first() } else { s@ };
    assert(d =~= cs@.skip(start as int));
    if start >= n {
        return None;
    }
    let mut acc: u64 = 0;
    let mut i: usize = start;
    while i < n
        invariant
            cs@ == s@,
            n == cs@.len(),
            start <= i <= n,
            d == cs@.skip(start as int),
            d == (if s@.len() > 0 && s@[0] == '+' { s@.drop_first() } else { s@ }),
            d.len() > 0,
            forall|k: int| 0 <= k < i - start ==> is_digit(#[trigger] d[k]),
            acc == digits_value(d.take(i - start)),
        decreases n - i,
    {
        let c = cs[i];
        if !('0' <= c && c <= '9') {
            assert(!is_digit(d[i - start]));
            return None;
        }
        let dig = (c as u32 - 48) as u64;
        proof {
            assert(d.take(i - start + 1).drop_last() =~= d.take(i - start));
            assert(d.take(i - start + 1).last() == c);
        }
        if acc > (u64::MAX - dig) / 10 {
            proof {
                assert(acc * 10 + dig > u64::MAX) by (nonlinear_arith)
                    requires acc > (u64::MAX - dig) / 10, dig <= 9;
                if all_digits(d) {
                    lemma_digits_mono(d, i - start + 1, d.len() as int);
                    assert(d.take(d.len() as int) =~= d);
                }
            }
            return None;
        }
        proof {
            assert(acc * 10 + dig <= u64::MAX) by (nonlinear_arith)
                requires acc <= (u64::MAX - dig) / 10, dig <= 9;
        }
        acc = acc * 10 + dig;
        i += 1;
    }
    proof {
        assert(d.take(d.len() as int) =~= d);
    }
    Some(acc)
}

// ---------------------------------------------------------------- routing

/// What the public listener does with a request.
pub enum ExternalOutcome {
    /// Not a `GET` or `HEAD`: answered 404.
    NotFound,
    /// The admission limit is reached: answered 503.
    Unavailable,
    /// Admitted: served, then released.
    Serve,
}

/// Admission on the public listener: only `GET` and `HEAD` are served, and only
/// while admission allows them.
pub fn external_admit(method: &str, gate: &mut Gate) -> (r: ExternalOutcome)
    ensures
        !(method@ == "GET"@ || method@ == "HEAD"@) ==> (r is NotFound) && final(gate).active() == old(gate).active(),
        (method@ == "GET"@ || method@ == "HEAD"@) ==> {
            &&& (r is Serve) == (old(gate).active() < old(gate).effective())
            &&& (r is Serve || r is Unavailable)
            &&& final(gate).active() == acquire_next(old(gate).active(), old(gate).effective()).1
        },
        final(gate).effective() == old(gate).effective(),
{
    let m = chars_of(method);
    if !(eq_str(&m, "GET") || eq_str(&m, "HEAD")) {
        return ExternalOutcome::NotFound;
    }
    if gate.try_acquire() {
        ExternalOutcome::Serve
    } else {
        ExternalOutcome::Unavailable
    }
}

/// What the management listener does with a request.
pub enum LocalRoute {
    /// Not from the loopback interface: answered 403.
    Forbidden,
    /// An `/api/` path: authenticated (with the privileged tier when
    /// `privileged`), then the admin API when `admin`, else the post API.
    Api { privileged: bool, admin: bool },
    /// `GET /` or `HEAD /`: the authenticated dashboard.
    Dashboard,
    /// Another `GET` or `HEAD`: the read-only site.
    Read,
    /// Anything else: answered 404.
    NotFound,
}

/// The route of a management request.
pub open spec fn local_route_spec(is_loopback: bool, method: Seq<char>, path: Seq<char>) -> LocalRoute {
    if !is_loopback {
        LocalRoute::Forbidden
    } else if starts_with(path, "/api/"@) {
        LocalRoute::Api {
            privileged: path == "/api/admin/exec"@ || path == "/api/admin/file"@,
            admin: starts_with(path, "/api/admin/"@),
        }
    } else if method == "GET"@ || method == "HEAD"@ {
        if path == "/"@ {
            LocalRoute::Dashboard
        } else {
            LocalRoute::Read
        }
    } else {
        LocalRoute::NotFound
    }
}

fn starts_with_lit(s: &[char], p: &str) -> (r: bool)
    ensures
        r == starts_with(s@, p@),
{
    let pv = chars_of(p);
    starts_with_chars(s, &pv)
}

/// Routes a management request (see `local_route_spec`).
pub fn local_route(is_loopback: bool, method: &str, path: &str) -> (r: LocalRoute)
    ensures
        r == local_route_spec(is_loopback, method@, path@),
{
    if !is_loopback {
        return LocalRoute::Forbidden;
    }
    let p = chars_of(path);
    let m = chars_of(method);
    if starts_with_lit(&p, "/api/") {
        let privileged = eq_str(&p, "/api/admin/exec") || eq_str(&p, "/api/admin/file");
        let admin = starts_with_lit(&p, "/api/admin/");
        return LocalRoute::Api { privileged, admin };
    }
    if eq_str(&m, "GET") || eq_str(&m, "HEAD") {
        if eq_str(&p, "/") {
            LocalRoute::Dashboard
        } else {
            LocalRoute::Read
        }
    } else {
        LocalRoute::NotFound
    }
}

/// What the read-only site serves for a path.
pub enum ReadRoute {
    /// `/posts.json`: the list of posts.
    PostsJson,
    /// `/post/<slug>`: one post as a page.
    Post(String),
    /// Anything else: a file under the site root.
    Static,
}

/// Routes a read-only request.
pub fn read_route(path: &str) -> (r: ReadRoute)
    ensures
        path@ == "/posts.json"@ ==> (r is PostsJson),
        path@ != "/posts.json"@ && starts_with(path@, "/post/"@) ==> (r matches ReadRoute::Post(slug) && slug@ == path@.skip(6)),
        path@ != "/posts.json"@ && !starts_with(path@, "/post/"@) ==> (r is Static),
{
    let p = chars_of(path);
    if eq_str(&p, "/posts.json") {
        ReadRoute::PostsJson
    } else if starts_with_lit(&p, "/post/") {
        proof {
            reveal_strlit("/post/");
        }
        let slug = slice_range(&p, 6, p.len());
        assert(slug@ =~= path@.skip(6));
        ReadRoute::Post(string_of(&slug))
    } else {
        ReadRoute::Static
    }
}

/// The post API's operations.
pub enum ApiRoute {
    ListPosts,
    CreatePost,
    UpdatePost(i64),
    DeletePost(i64),
    Search,
    Status,
    NotFound,
}

/// The id in `/api/posts/<id>`: the decimal after the prefix, 0 when it
/// does not parse.
pub open spec fn post_id_of(path: Seq<char>) -> i64 {
    match parse_i64_spec(path.skip(11)) {
        Some(v) => v,
        None => 0,
    }
}

/// Routes a post-API request: `/api/posts` lists (`GET`) or creates
/// (`POST`), `/api/posts/<id>` updates (`PUT`) or deletes (`DELETE`),
/// `/api/search` and `/api/status` answer any method.
pub fn api_route(method: &str, path: &str) -> (r: ApiRoute)
    ensures
        path@ == "/api/posts"@ ==> r == (if method@ == "GET"@ {
            ApiRoute::ListPosts
        } else if method@ == "POST"@ {
            ApiRoute::CreatePost
        } else {
            ApiRoute::NotFound
        }),
        path@ != "/api/posts"@ && starts_with(path@, "/api/posts/"@) ==> r == (if method@ == "PUT"@ {
            ApiRoute::UpdatePost(post_id_of(path@))
        } else if method@ == "DELETE"@ {
            ApiRoute::DeletePost(post_id_of(path@))
        } else {
            ApiRoute::NotFound
        }),
        path@ != "/api/posts"@ && !starts_with(path@, "/api/posts/"@) ==> r == (if path@ == "/api/search"@ {
            ApiRoute::Search
        } else if path@ == "/api/status"@ {
            ApiRoute::Status
        } else {
            ApiRoute::NotFound
        }),
{
    let p = chars_of(path);
    let m = chars_of(method);
    if eq_str(&p, "/api/posts") {
        if eq_str(&m, "GET") {
            ApiRoute::ListPosts
        } else if eq_str(&m, "POST") {
            ApiRoute::CreatePost
        } else {
            ApiRoute::NotFound
        }
    } else if starts_with_lit(&p, "/api/posts/") {
        proof {
            reveal_strlit("/api/posts/");
        }
        let rest = slice_range(&p, 11, p.len());
        assert(rest@ =~= path@.skip(11));
        let rs = string_of(&rest);
        let id = match parse_i64(rs.as_str()) {
            Some(v) => v,
            None => 0,
        };
        if eq_str(&m, "PUT") {
            ApiRoute::UpdatePost(id)
        } else if eq_str(&m, "DELETE") {
            ApiRoute::DeletePost(id)
        } else {
            ApiRoute::NotFound
        }
    } else if eq_str(&p, "/api/search") {
        ApiRoute::Search
    } else if eq_str(&p, "/api/status") {
        ApiRoute::Status
    } else {
        ApiRoute::NotFound
    }
}

/// The admin API's operations.
pub enum AdminRoute {
    Logs,
    Stats,
    System,
    Exec,
    File,
    NotFound,
}

/// Routes an admin-API request by its path.
pub fn admin_route(path: &str) -> (r: AdminRoute)
    ensures
        r == (if path@ == "/api/admin/logs"@ {
            AdminRoute::Logs
        } else if path@ == "/api/admin/stats"@ {
            AdminRoute::Stats
        } else if path@ == "/api/admin/system"@ {
            AdminRoute::System
        } else if path@ == "/api/admin/exec"@ {
            AdminRoute::Exec
        } else if path@ == "/api/admin/file"@ {
            AdminRoute::File
        } else {
            AdminRoute::NotFound
        }),
{
    let p = chars_of(path);
    if eq_str(&p, "/api/admin/logs") {
        AdminRoute::Logs
    } else if eq_str(&p, "/api/admin/stats") {
        AdminRoute::Stats
    } else if eq_str(&p, "/api/admin/system") {
        AdminRoute::System
    } else if eq_str(&p, "/api/admin/exec") {
        AdminRoute::Exec
    } else if eq_str(&p, "/api/admin/file") {
        AdminRoute::File
    } else {
        AdminRoute::NotFound
    }
}

/// The page and page size of a log listing: a page below 1 (or missing, or
/// not a number) counts as 1; a size defaults to 20 and is held to 1..=200.
pub open spec fn paging_spec(page: Option<Seq<char>>, per_page: Option<Seq<char>>) -> (i64, i64) {
    let p = match page {
        Some(t) => match parse_i64_spec(t) {
            Some(v) => v,
            None => 1,
        },
        None => 1,
    };
    let n = match per_page {
        Some(t) => match parse_i64_spec(t) {
            Some(v) => v,
            None => 20,
        },
        None => 20,
    };
    (if p >= 1 { p } else { 1 }, if n < 1 { 1 } else if n > 200 { 200 } else { n })
}

/// The page and page size of a log listing (see `paging_spec`).
pub fn logs_paging(page: Option<&str>, per_page: Option<&str>) -> (r: (i64, i64))
    ensures
        r == paging_spec(opt_view(page), opt_view(per_page)),
        r.0 >= 1,
        1 <= r.1 <= 200,
{
    let p = match page {
        Some(t) => match parse_i64(t) {
            Some(v) => v,
            None => 1,
        },
        None => 1,
    };
    let n = match per_page {
        Some(t) => match parse_i64(t) {
            Some(v) => v,
            None => 20,
        },
        None => 20,
    };
    (if p >= 1 { p } else { 1 }, if n < 1 { 1 } else if n > 200 { 200 } else { n })
}

// ---------------------------------------------------------------- sessions

/// How long an admin session lasts: 7 days, in seconds.
pub const ADMIN_TTL_SECS: i64 = 604800;

/// How long a privileged session lasts: 24 hours, in seconds.
pub const PRIV_TTL_SECS: i64 = 86400;

/// The outcome of authenticating a management request.
pub enum AuthOutcome {
    /// A valid session cookie of the needed tier: no new cookie.
    Granted,
    /// No valid session and no valid password: answered 401.
    Denied,
    /// The password was valid: a new admin session is issued, and a new
    /// privileged one too when `privileged`.
    Issue { privileged: bool },
}

/// Authentication decision: a valid session of the needed tier (the
/// privileged tier for privileged operations, the admin tier otherwise)
/// suffices; failing that the password must be valid, and then sessions
/// are issued.
pub open spec fn auth_outcome_spec(session_ok: bool, password_ok: bool, need_priv: bool) -> AuthOutcome {
    if session_ok {
        AuthOutcome::Granted
    } else if !password_ok {
        AuthOutcome::Denied
    } else {
        AuthOutcome::Issue { privileged: need_priv }
    }
}

/// The authentication decision (see `auth_outcome_spec`).
pub fn auth_outcome(session_ok: bool, password_ok: bool, need_priv: bool) -> (r: AuthOutcome)
    ensures
        r == auth_outcome_spec(session_ok, password_ok, need_priv),
{
    if session_ok {
        AuthOutcome::Granted
    } else if !password_ok {
        AuthOutcome::Denied
    } else {
        AuthOutcome::Issue { privileged: need_priv }
    }
}

/// The cookie that carries the session tier needed: `blog_priv` for
/// privileged operations, `blog_admin` otherwise.
pub open spec fn session_cookie_spec(need_priv: bool) -> Seq<char> {
    if need_priv { "blog_priv"@ } else { "blog_admin"@ }
}

/// The session tier needed: `priv` for privileged operations, `admin`
/// otherwise.
pub open spec fn session_tier_spec(need_priv: bool) -> Seq<char> {
    if need_priv { "priv"@ } else { "admin"@ }
}

/// The session cookie name for a tier (see `session_cookie_spec`).
pub fn session_cookie_name(need_priv: bool) -> (r: &'static str)
    ensures
        r@ == session_cookie_spec(need_priv),
{
    if need_priv { "blog_priv" } else { "blog_admin" }
}

/// The session tier name (see `session_tier_spec`).
pub fn session_tier(need_priv: bool) -> (r: &'static str)
    ensures
        r@ == session_tier_spec(need_priv),
{
    if need_priv { "priv" } else { "admin" }
}

/// Privilege law: on the management listener exactly the system-command
/// and file-reading operations need the privileged tier; that tier is
/// checked against its own cookie and session tier, never those of an
/// ordinary admin session; and a privileged session is issued only for a
/// privileged operation, after a valid password and without a valid
/// session of that tier.
pub proof fn law_privileged_ops_need_priv_session(
    method: Seq<char>,
    path: Seq<char>,
    session_ok: bool,
    password_ok: bool,
    need_priv: bool,
)
    ensures
        local_route_spec(true, method, path) matches LocalRoute::Api { privileged, .. } ==> (privileged
            <==> (path == "/api/admin/exec"@ || path == "/api/admin/file"@)),
        session_cookie_spec(true) != session_cookie_spec(false),
        session_tier_spec(true) != session_tier_spec(false),
        auth_outcome_spec(session_ok, password_ok, need_priv) == (AuthOutcome::Issue { privileged: true })
            ==> !session_ok && password_ok && need_priv,
        auth_outcome_spec(session_ok, password_ok, need_priv) is Granted ==> session_ok,
{
    reveal_strlit("blog_priv");
    reveal_strlit("blog_admin");
    reveal_strlit("priv");
    reveal_strlit("admin");
    assert(session_cookie_spec(true)[5] != session_cookie_spec(false)[5]);
    assert(session_tier_spec(true)[0] != session_tier_spec(false)[0]);
}

/// The `Set-Cookie` value for a session cookie.
pub open spec fn set_cookie_spec(name: Seq<char>, value: Seq<char>, max_age: int) -> Seq<char> {
    name + seq!['='] + value + "; Path=/; HttpOnly; Max-Age="@ + int_text(max_age) + "; SameSite=Strict"@
}

/// The `Set-Cookie` value for a session cookie: path `/`, HTTP only,
/// strict same-site, with the given lifetime.
pub fn set_cookie_value(name: &str, value: &str, max_age: i64) -> (r: String)
    ensures
        r@ == set_cookie_spec(name@, value@, max_age as int),
{
    let mut out: Vec<char> = Vec::new();
    push_str_chars(&mut out, name);
    out.push('=');
    push_str_chars(&mut out, value);
    push_str_chars(&mut out, "; Path=/; HttpOnly; Max-Age=");
    push_int(&mut out, max_age);
    push_str_chars(&mut out, "; SameSite=Strict");
    assert(out@ =~= set_cookie_spec(name@, value@, max_age as int));
    string_of(&out)
}

} // verus!
