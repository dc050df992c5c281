//! HTML escaping and the whitelist sanitiser applied to rendered Markdown.

use vstd::prelude::*;
use crate::text::{
    ascii_lower, ascii_lower_char, ascii_lowercase, chars_of, contains_str, eq_str, starts_with,
    starts_with_chars, trim, trim_chars, is_ascii_alnum, is_ascii_alphanumeric, is_ascii_whitespace, is_ascii_ws, slice_range,
    string_of, contains_lit, append_chars, occurs_at,
};

verus! {

// ---------------------------------------------------------------- escaping

/// The text that stands for `c` once escaped; `apos` says whether the
/// single quote is escaped too.
pub open spec fn escape_char(c: char, apos: bool) -> Seq<char> {
    if c == '&' {
        seq!['&', 'a', 'm', 'p', ';']
    } else if c == '<' {
        seq!['&', 'l', 't', ';']
    } else if c == '>' {
        seq!['&', 'g', 't', ';']
    } else if c == '"' {
        seq!['&', 'q', 'u', 'o', 't', ';']
    } else if apos && c == '\'' {
        seq!['&', '#', '3', '9', ';']
    } else {
        seq![c]
    }
}

/// `s` with every character replaced by its escaped text.
pub open spec fn escape_seq(s: Seq<char>, apos: bool) -> Seq<char>
    decreases s.len(),
{
    if s.len() == 0 {
        Seq::empty()
    } else {
        escape_seq(s.drop_last(), apos) + escape_char(s.last(), apos)
    }
}

fn push_escaped(out: &mut Vec<char>, c: char, apos: bool)
    ensures
        final(out)@ == old(out)@ + escape_char(c, apos),
{
    let ghost start = out@;
    if c == '&' {
        out.push('&'); out.push('a'); out.push('m'); out.push('p'); out.push(';');
    } else if c == '<' {
        out.push('&'); out.push('l'); out.push('t'); out.push(';');
    } else if c == '>' {
        out.push('&'); out.push('g'); out.push('t'); out.push(';');
    } else if c == '"' {
        out.push('&'); out.push('q'); out.push('u'); out.push('o'); out.push('t'); out.push(';');
    } else if apos && c == '\'' {
        out.push('&'); out.push('#'); out.push('3'); out.push('9'); out.push(';');
    } else {
        out.push(c);
    }
    assert(out@ =~= start + escape_char(c, apos));
}

/// Appends the escaped form of `s` to `out`.
fn escape_into(out: &mut Vec<char>, s: &[char], apos: bool)
    ensures
        final(out)@ == old(out)@ + escape_seq(s@, apos),
{
    let ghost start = out@;
    let mut i: usize = 0;
    while i < s.len()
        invariant
            i <= s@.len(),
            out@ == start + escape_seq(s@.take(i as int), apos),
        decreases s@.len() - i,
    {
        push_escaped(out, s[i], apos);
        proof {
            assert(s@.take(i + 1).drop_last() =~= s@.take(i as int));
            assert(start + escape_seq(s@.take(i as int), apos) + escape_char(s@[i as int], apos)
                =~= start + escape_seq(s@.take(i + 1), apos));
        }
        i += 1;
    }
    assert(s@.take(s@.len() as int) =~= s@);
}

/// Escapes `&`, `<`, `>`, `"` and `'` for use in HTML text or attributes.
pub fn html_escape(s: &str) -> (r: String)
    ensures
        r@ == escape_seq(s@, true),
{
    let cs = chars_of(s);
    let mut out: Vec<char> = Vec::new();
    escape_into(&mut out, &cs, true);
    assert(out@ =~= escape_seq(s@, true));
    string_of(&out)
}

/// Escapes `&`, `<`, `>` and `"`: how a refused tag is shown as text.
pub fn escape_tag(s: &str) -> (r: String)
    ensures
        r@ == escape_seq(s@, false),
{
    let cs = chars_of(s);
    let mut out: Vec<char> = Vec::new();
    escape_into(&mut out, &cs, false);
    assert(out@ =~= escape_seq(s@, false));
    string_of(&out)
}

/// Escapes an attribute value; the same five characters as `html_escape`.
pub fn escape_attr(v: &str) -> (r: String)
    ensures
        r@ == escape_seq(v@, true),
{
    let cs = chars_of(v);
    let mut out: Vec<char> = Vec::new();
    escape_into(&mut out, &cs, true);
    assert(out@ =~= escape_seq(v@, true));
    string_of(&out)
}

/// Escaped text holds no `<`, `>` or `"`, and no `'` when `apos` is set:
/// the only markup character left is `&`, each one opening an entity.
pub proof fn law_escape_has_no_markup(s: Seq<char>, apos: bool)
    ensures
        forall|k: int| 0 <= k < escape_seq(s, apos).len() ==> {
            let c = #[trigger] escape_seq(s, apos)[k];
            c != '<' && c != '>' && c != '"' && (apos ==> c != '\'')
        },
    decreases s.len(),
{
    if s.len() > 0 {
        law_escape_has_no_markup(s.drop_last(), apos);
        let p = escape_seq(s.drop_last(), apos);
        let e = escape_char(s.last(), apos);
        assert forall|k: int| 0 <= k < escape_seq(s, apos).len() implies {
            let c = #[trigger] escape_seq(s, apos)[k];
            c != '<' && c != '>' && c != '"' && (apos ==> c != '\'')
        } by {
            if k < p.len() {
                assert(escape_seq(s, apos)[k] == p[k]);
            } else {
                assert(escape_seq(s, apos)[k] == e[k - p.len()]);
            }
        }
    }
}

/// The text an HTML reader makes of escaped text, reading from the left:
/// each `&amp;`, `&lt;`, `&gt;`, `&quot;` and `&#39;` becomes its character,
/// every other character stays.
pub open spec fn unescape_html(t: Seq<char>) -> Seq<char>
    decreases t.len(),
{
    if t.len() == 0 {
        Seq::empty()
    } else if t.len() >= 5 && t.take(5) == seq!['&', 'a', 'm', 'p', ';'] {
        seq!['&'] + unescape_html(t.skip(5))
    } else if t.len() >= 4 && t.take(4) == seq!['&', 'l', 't', ';'] {
        seq!['<'] + unescape_html(t.skip(4))
    } else if t.len() >= 4 && t.take(4) == seq!['&', 'g', 't', ';'] {
        seq!['>'] + unescape_html(t.skip(4))
    } else if t.len() >= 6 && t.take(6) == seq!['&', 'q', 'u', 'o', 't', ';'] {
        seq!['"'] + unescape_html(t.skip(6))
    } else if t.len() >= 5 && t.take(5) == seq!['&', '#', '3', '9', ';'] {
        seq!['\''] + unescape_html(t.skip(5))
    } else {
        seq![t[0]] + unescape_html(t.skip(1))
    }
}

proof fn lemma_escape_front(s: Seq<char>, apos: bool)
    requires
        s.len() > 0,
    ensures
        escape_seq(s, apos) == escape_char(s[0], apos) + escape_seq(s.drop_first(), apos),
    decreases s.len(),
{
    if s.len() == 1 {
        assert(s.drop_first() =~= Seq::<char>::empty());
        assert(s.drop_last() =~= Seq::<char>::empty());
        assert(escape_seq(s.drop_last(), apos) == Seq::<char>::empty());
        assert(escape_seq(s.drop_first(), apos) == Seq::<char>::empty());
        assert(escape_seq(s, apos) =~= escape_char(s[0], apos) + escape_seq(s.drop_first(), apos));
    } else {
        lemma_escape_front(s.drop_last(), apos);
        assert(s.drop_last().drop_first() =~= s.drop_first().drop_last());
        assert(s.drop_first().last() == s.last());
        assert(escape_seq(s, apos) =~= escape_char(s[0], apos) + escape_seq(s.drop_first(), apos));
    }
}

proof fn lemma_unescape_one(c: char, rest: Seq<char>)
    ensures
        unescape_html(escape_char(c, true) + rest) == seq![c] + unescape_html(rest),
{
    let e = escape_char(c, true);
    let t = e + rest;
    assert(t.skip(e.len() as int) =~= rest);
    assert(t.take(e.len() as int) =~= e);
    if c != '&' && c != '<' && c != '>' && c != '"' && c != '\'' {
        assert(t[0] == c);
        assert(t.len() >= 4 ==> t.take(4)[0] == c);
        assert(t.len() >= 5 ==> t.take(5)[0] == c);
        assert(t.len() >= 6 ==> t.take(6)[0] == c);
    } else if c == '<' || c == '>' {
        assert(t.len() >= 5 ==> t.take(5)[1] != 'a' && t.take(5)[1] != '#');
        assert(t.len() >= 6 ==> t.take(6)[1] != 'q');
    } else if c == '"' {
        assert(t.take(5)[1] != 'a' && t.take(5)[1] != '#');
        assert(t.take(4)[1] != 'l' && t.take(4)[1] != 'g');
    } else if c == '\'' {
        assert(t.take(5)[1] != 'a');
        assert(t.take(4)[1] != 'l' && t.take(4)[1] != 'g');
        assert(t.len() >= 6 ==> t.take(6)[1] != 'q');
    }
}

/// Escaping law: reading escaped text back gives the original text, so
/// `html_escape` is one-to-one and loses nothing.
pub proof fn law_escape_unescape(s: Seq<char>)
    ensures
        unescape_html(escape_seq(s, true)) == s,
        forall|t: Seq<char>| #[trigger] escape_seq(t, true) == escape_seq(s, true) ==> t == s,
{
    lemma_unescape_escape(s);
    assert forall|t: Seq<char>| #[trigger] escape_seq(t, true) == escape_seq(s, true) implies t == s by {
        lemma_unescape_escape(t);
    }
}

proof fn lemma_unescape_escape(t: Seq<char>)
    ensures
        unescape_html(escape_seq(t, true)) == t,
    decreases t.len(),
{
    if t.len() > 0 {
        lemma_escape_front(t, true);
        lemma_unescape_escape(t.drop_first());
        lemma_unescape_one(t[0], escape_seq(t.drop_first(), true));
        assert(seq![t[0]] + t.drop_first() =~= t);
    }
}

// ---------------------------------------------------------------- tag names

/// A character that may appear in a tag name: ASCII letter, digit or `-`.
pub open spec fn is_name_char(c: char) -> bool {
    is_ascii_alnum(c) || c == '-'
}

/// `s` without the leading run of `c` (`str::trim_start_matches` for a char).
pub open spec fn strip_leading(s: Seq<char>, c: char) -> Seq<char>
    decreases s.len(),
{
    if s.len() > 0 && s[0] == c {
        strip_leading(s.drop_first(), c)
    } else {
        s
    }
}

/// The longest prefix of `s` made of name characters.
pub open spec fn name_run(s: Seq<char>) -> Seq<char>
    decreases s.len(),
{
    if s.len() > 0 && is_name_char(s[0]) {
        seq![s[0]] + name_run(s.drop_first())
    } else {
        Seq::empty()
    }
}

/// The lowercased name of a tag: after the leading `<`s and then `/`s,
/// the run of name characters.
pub open spec fn tag_name(tag: Seq<char>) -> Seq<char> {
    ascii_lower(name_run(strip_leading(strip_leading(tag, '<'), '/')))
}

/// A non-empty run of name characters.
pub open spec fn is_tag_name_spec(s: Seq<char>) -> bool {
    s.len() > 0 && forall|k: int| 0 <= k < s.len() ==> is_name_char(#[trigger] s[k])
}

/// The tags that the sanitiser lets through.
pub open spec fn is_safe_tag(n: Seq<char>) -> bool {
    ||| n == "p"@ ||| n == "br"@ ||| n == "hr"@ ||| n == "h1"@ ||| n == "h2"@
    ||| n == "h3"@ ||| n == "h4"@ ||| n == "h5"@ ||| n == "h6"@ ||| n == "ul"@
    ||| n == "ol"@ ||| n == "li"@ ||| n == "strong"@ ||| n == "em"@ ||| n == "b"@
    ||| n == "i"@ ||| n == "a"@ ||| n == "code"@ ||| n == "pre"@ ||| n == "blockquote"@
    ||| n == "img"@ ||| n == "span"@ ||| n == "div"@ ||| n == "table"@ ||| n == "thead"@
    ||| n == "tbody"@ ||| n == "tr"@ ||| n == "th"@ ||| n == "td"@ ||| n == "caption"@
    ||| n == "del"@ ||| n == "s"@ ||| n == "sub"@ ||| n == "sup"@ ||| n == "kbd"@
    ||| n == "figure"@ ||| n == "figcaption"@ ||| n == "dl"@ ||| n == "dt"@ ||| n == "dd"@
}

/// The attributes that the sanitiser lets through.
pub open spec fn is_safe_attr(n: Seq<char>) -> bool {
    ||| n == "href"@ ||| n == "src"@ ||| n == "alt"@ ||| n == "title"@ ||| n == "class"@
    ||| n == "id"@ ||| n == "rel"@ ||| n == "target"@ ||| n == "width"@ ||| n == "height"@
    ||| n == "colspan"@ ||| n == "rowspan"@ ||| n == "scope"@ ||| n == "lang"@ ||| n == "type"@
}

fn safe_tag(n: &[char]) -> (r: bool)
    ensures
        r == is_safe_tag(n@),
{
    eq_str(n, "p") || eq_str(n, "br") || eq_str(n, "hr") || eq_str(n, "h1") || eq_str(n, "h2")
    || eq_str(n, "h3") || eq_str(n, "h4") || eq_str(n, "h5") || eq_str(n, "h6") || eq_str(n, "ul")
    || eq_str(n, "ol") || eq_str(n, "li") || eq_str(n, "strong") || eq_str(n, "em") || eq_str(n, "b")
    || eq_str(n, "i") || eq_str(n, "a") || eq_str(n, "code") || eq_str(n, "pre") || eq_str(n, "blockquote")
    || eq_str(n, "img") || eq_str(n, "span") || eq_str(n, "div") || eq_str(n, "table") || eq_str(n, "thead")
    || eq_str(n, "tbody") || eq_str(n, "tr") || eq_str(n, "th") || eq_str(n, "td") || eq_str(n, "caption")
    || eq_str(n, "del") || eq_str(n, "s") || eq_str(n, "sub") || eq_str(n, "sup") || eq_str(n, "kbd")
    || eq_str(n, "figure") || eq_str(n, "figcaption") || eq_str(n, "dl") || eq_str(n, "dt") || eq_str(n, "dd")
}

fn safe_attr(n: &[char]) -> (r: bool)
    ensures
        r == is_safe_attr(n@),
{
    eq_str(n, "href") || eq_str(n, "src") || eq_str(n, "alt") || eq_str(n, "title") || eq_str(n, "class")
    || eq_str(n, "id") || eq_str(n, "rel") || eq_str(n, "target") || eq_str(n, "width") || eq_str(n, "height")
    || eq_str(n, "colspan") || eq_str(n, "rowspan") || eq_str(n, "scope") || eq_str(n, "lang") || eq_str(n, "type")
}

fn is_tag_name_chars(s: &[char]) -> (r: bool)
    ensures
        r == is_tag_name_spec(s@),
{
    if s.len() == 0 {
        return false;
    }
    let mut i: usize = 0;
    while i < s.len()
        invariant
            i <= s@.len(),
            forall|k: int| 0 <= k < i ==> is_name_char(#[trigger] s@[k]),
        decreases s@.len() - i,
    {
        if !(is_ascii_alphanumeric(s[i]) || s[i] == '-') {
            return false;
        }
        i += 1;
    }
    true
}

/// Whether `s` is a non-empty run of ASCII letters, digits and `-`.
pub fn is_tag_name(s: &str) -> (r: bool)
    ensures
        r == is_tag_name_spec(s@),
{
    let cs = chars_of(s);
    is_tag_name_chars(&cs)
}

proof fn lemma_strip_leading_skip(s: Seq<char>, c: char, i: int)
    requires
        0 <= i <= s.len(),
        forall|j: int| 0 <= j < i ==> #[trigger] s[j] == c,
    ensures
        strip_leading(s, c) == strip_leading(s.skip(i), c),
    decreases i,
{
    if i > 0 {
        lemma_strip_leading_skip(s.drop_first(), c, i - 1);
        assert(s.drop_first().skip(i - 1) =~= s.skip(i));
    } else {
        assert(s.skip(0) =~= s);
    }
}

/// Index of the first character of `s` at or after `i` that is not `c`.
fn skip_char(s: &[char], i: usize, c: char) -> (r: usize)
    requires
        i <= s@.len(),
    ensures
        i <= r <= s@.len(),
        strip_leading(s@.skip(i as int), c) == s@.skip(r as int),
{
    let mut j = i;
    while j < s.len() && s[j] == c
        invariant
            i <= j <= s@.len(),
            forall|k: int| i <= k < j ==> #[trigger] s@[k] == c,
        decreases s@.len() - j,
    {
        j += 1;
    }
    proof {
        let t = s@.skip(i as int);
        assert forall|k: int| 0 <= k < j - i implies #[trigger] t[k] == c by {
            assert(t[k] == s@[k + i]);
        }
        lemma_strip_leading_skip(t, c, j - i);
        assert(t.skip(j - i) =~= s@.skip(j as int));
    }
    j
}

fn extract_name_chars(tag: &[char]) -> (r: Vec<char>)
    ensures
        r@ == tag_name(tag@),
{
    assert(tag@.skip(0) =~= tag@);
    let a = skip_char(tag, 0, '<');
    let b = skip_char(tag, a, '/');
    let mut name: Vec<char> = Vec::new();
    let mut j = b;
    assert(name_run(tag@.skip(b as int)) == name@ + name_run(tag@.skip(j as int)));
    while j < tag.len() && (is_ascii_alphanumeric(tag[j]) || tag[j] == '-')
        invariant
            b <= j <= tag@.len(),
            name_run(tag@.skip(b as int)) == name@ + name_run(tag@.skip(j as int)),
        decreases tag@.len() - j,
    {
        proof {
            assert(tag@.skip(j as int).drop_first() =~= tag@.skip(j + 1));
            assert(name@.push(tag@[j as int]) + name_run(tag@.skip(j + 1))
                =~= name@ + (seq![tag@[j as int]] + name_run(tag@.skip(j + 1))));
        }
        name.push(tag[j]);
        j += 1;
    }
    assert(name@ + name_run(tag@.skip(j as int)) =~= name@);
    ascii_lowercase(&name)
}

/// The lowercased tag name at the start of `tag`, after `<` and `/`.
pub fn extract_name(tag: &str) -> (r: String)
    ensures
        r@ == tag_name(tag@),
{
    let cs = chars_of(tag);
    let n = extract_name_chars(&cs);
    string_of(&n)
}

// ---------------------------------------------------------------- attributes

/// First index at or after `i` that is not ASCII whitespace (or the end).
pub open spec fn skip_ws_from(s: Seq<char>, i: int) -> int
    decreases s.len() - i,
{
    if 0 <= i < s.len() && is_ascii_ws(s[i]) {
        skip_ws_from(s, i + 1)
    } else {
        i
    }
}

/// First index at or after `i` holding `=` or ASCII whitespace (or the end).
pub open spec fn key_end_from(s: Seq<char>, i: int) -> int
    decreases s.len() - i,
{
    if 0 <= i < s.len() && s[i] != '=' && !is_ascii_ws(s[i]) {
        key_end_from(s, i + 1)
    } else {
        i
    }
}

/// First index at or after `i` holding `q` (or the end).
pub open spec fn find_from(s: Seq<char>, i: int, q: char) -> int
    decreases s.len() - i,
{
    if 0 <= i < s.len() && s[i] != q {
        find_from(s, i + 1, q)
    } else {
        i
    }
}

/// First index at or after `i` holding ASCII whitespace (or the end).
pub open spec fn word_end_from(s: Seq<char>, i: int) -> int
    decreases s.len() - i,
{
    if 0 <= i < s.len() && !is_ascii_ws(s[i]) {
        word_end_from(s, i + 1)
    } else {
        i
    }
}

pub(crate) proof fn lemma_scans(s: Seq<char>, i: int, q: char)
    requires
        0 <= i <= s.len(),
    ensures
        i <= skip_ws_from(s, i) <= s.len(),
        i <= key_end_from(s, i) <= s.len(),
        i <= find_from(s, i, q) <= s.len(),
        i <= word_end_from(s, i) <= s.len(),
        skip_ws_from(s, i) < s.len() ==> !is_ascii_ws(s[skip_ws_from(s, i)]),
        key_end_from(s, i) < s.len() ==> (s[key_end_from(s, i)] == '=' || is_ascii_ws(s[key_end_from(s, i)])),
        find_from(s, i, q) < s.len() ==> s[find_from(s, i, q)] == q,
        forall|j: int| i <= j < find_from(s, i, q) ==> #[trigger] s[j] != q,
    decreases s.len() - i,
{
    if i < s.len() {
        lemma_scans(s, i + 1, q);
    }
}

/// The value that follows a key ending at `i2` (after its whitespace), and
/// where scanning resumes: a quoted value runs to the matching quote, an
/// unquoted one to the next whitespace; no `=` means no value.
pub open spec fn attr_value(s: Seq<char>, i2: int) -> (Seq<char>, int) {
    if 0 <= i2 < s.len() && s[i2] == '=' {
        let i3 = skip_ws_from(s, i2 + 1);
        if i3 < s.len() && (s[i3] == '"' || s[i3] == '\'') {
            let e = find_from(s, i3 + 1, s[i3]);
            (s.subrange(i3 + 1, e), if e < s.len() { e + 1 } else { e })
        } else {
            let e = word_end_from(s, i3);
            (s.subrange(i3, e), e)
        }
    } else {
        (Seq::empty(), i2)
    }
}

/// The `key`/`value` pairs of an attribute list, read from index `i` on;
/// pairs with an empty key are dropped.
pub open spec fn tokens_from(s: Seq<char>, i: int) -> Seq<(Seq<char>, Seq<char>)>
    decreases s.len() - i,
{
    if 0 <= i && skip_ws_from(s, i) < s.len() {
        let i1 = skip_ws_from(s, i);
        let ke = key_end_from(s, i1);
        let key = s.subrange(i1, ke);
        let i2 = skip_ws_from(s, ke);
        let (val, next) = attr_value(s, i2);
        let rest = if i < next <= s.len() { tokens_from(s, next) } else { Seq::empty() };
        if key.len() > 0 {
            seq![(key, val)] + rest
        } else {
            rest
        }
    } else {
        Seq::empty()
    }
}

/// The attribute list read from the start of `s`.
pub open spec fn attr_tokens(s: Seq<char>) -> Seq<(Seq<char>, Seq<char>)> {
    tokens_from(s, 0)
}

fn skip_ws(s: &[char], i: usize) -> (r: usize)
    requires
        i <= s@.len(),
    ensures
        r == skip_ws_from(s@, i as int),
{
    let mut j = i;
    while j < s.len() && is_ascii_whitespace(s[j])
        invariant
            i <= j <= s@.len(),
            skip_ws_from(s@, i as int) == skip_ws_from(s@, j as int),
        decreases s@.len() - j,
    {
        j += 1;
    }
    j
}

fn key_end(s: &[char], i: usize) -> (r: usize)
    requires
        i <= s@.len(),
    ensures
        r == key_end_from(s@, i as int),
{
    let mut j = i;
    while j < s.len() && s[j] != '=' && !is_ascii_whitespace(s[j])
        invariant
            i <= j <= s@.len(),
            key_end_from(s@, i as int) == key_end_from(s@, j as int),
        decreases s@.len() - j,
    {
        j += 1;
    }
    j
}

pub(crate) fn find_char(s: &[char], i: usize, q: char) -> (r: usize)
    requires
        i <= s@.len(),
    ensures
        r == find_from(s@, i as int, q),
{
    let mut j = i;
    while j < s.len() && s[j] != q
        invariant
            i <= j <= s@.len(),
            find_from(s@, i as int, q) == find_from(s@, j as int, q),
        decreases s@.len() - j,
    {
        j += 1;
    }
    j
}

fn word_end(s: &[char], i: usize) -> (r: usize)
    requires
        i <= s@.len(),
    ensures
        r == word_end_from(s@, i as int),
{
    let mut j = i;
    while j < s.len() && !is_ascii_whitespace(s[j])
        invariant
            i <= j <= s@.len(),
            word_end_from(s@, i as int) == word_end_from(s@, j as int),
        decreases s@.len() - j,
    {
        j += 1;
    }
    j
}

/// The view of a list of exec string pairs.
pub open spec fn pairs_view(v: Seq<(Vec<char>, Vec<char>)>) -> Seq<(Seq<char>, Seq<char>)> {
    v.map_values(|p: (Vec<char>, Vec<char>)| (p.0@, p.1@))
}

fn tokenize_chars(s: &[char]) -> (r: Vec<(Vec<char>, Vec<char>)>)
    ensures
        pairs_view(r@) == attr_tokens(s@),
{
    let mut out: Vec<(Vec<char>, Vec<char>)> = Vec::new();
    let mut i: usize = 0;
    assert(pairs_view(out@) + tokens_from(s@, 0) =~= tokens_from(s@, 0));
    while i < s.len()
        invariant
            i <= s@.len(),
            attr_tokens(s@) == pairs_view(out@) + tokens_from(s@, i as int),
        decreases s@.len() - i,
    {
        let ghost gi = i as int;
        let i1 = skip_ws(s, i);
        proof { lemma_scans(s@, gi, '='); }
        if i1 >= s.len() {
            i = i1;
        } else {
            let ke = key_end(s, i1);
            proof {
                lemma_scans(s@, i1 as int, '=');
                if ke == i1 {
                    assert(s@[i1 as int] == '=');
                }
            }
            let key = slice_range(s, i1, ke);
            let i2 = skip_ws(s, ke);
            proof {
                lemma_scans(s@, ke as int, '=');
                if ke == i1 {
                    assert(i2 == ke);
                }
            }
            let mut val: Vec<char> = Vec::new();
            let mut next = i2;
            if i2 < s.len() && s[i2] == '=' {
                let i3 = skip_ws(s, i2 + 1);
                proof { lemma_scans(s@, i2 + 1, '='); }
                if i3 < s.len() && (s[i3] == '"' || s[i3] == '\'') {
                    let q = s[i3];
                    let e = find_char(s, i3 + 1, q);
                    proof { lemma_scans(s@, i3 + 1, q); }
                    val = slice_range(s, i3 + 1, e);
                    next = if e < s.len() { e + 1 } else { e };
                } else {
                    let e = word_end(s, i3);
                    proof { lemma_scans(s@, i3 as int, '='); }
                    val = slice_range(s, i3, e);
                    next = e;
                }
            }
            proof {
                let (sv, sn) = attr_value(s@, i2 as int);
                assert(sv == val@ && sn == next as int);
                assert(gi < next <= s@.len());
            }
            if key.len() > 0 {
                let ghost before = out@;
                out.push((key, val));
                proof {
                    assert(pairs_view(out@) =~= pairs_view(before).push((s@.subrange(i1 as int, ke as int), val@)));
                    assert(pairs_view(out@) + tokens_from(s@, next as int)
                        =~= pairs_view(before) + (seq![(s@.subrange(i1 as int, ke as int), val@)] + tokens_from(s@, next as int)));
                }
            }
            i = next;
        }
    }
    proof {
        assert(tokens_from(s@, i as int) =~= Seq::<(Seq<char>, Seq<char>)>::empty());
        assert(pairs_view(out@) + Seq::<(Seq<char>, Seq<char>)>::empty() =~= pairs_view(out@));
    }
    out
}

/// Splits an attribute list into `key`/`value` pairs: keys run to `=` or
/// whitespace, values are quoted with `"` or `'` or run to whitespace.
pub fn tokenize_attrs(s: &str) -> (r: Vec<(String, String)>)
    ensures
        r@.len() == attr_tokens(s@).len(),
        forall|k: int| 0 <= k < r@.len() ==> (#[trigger] r@[k]).0@ == attr_tokens(s@)[k].0
            && r@[k].1@ == attr_tokens(s@)[k].1,
{
    let cs = chars_of(s);
    let toks = tokenize_chars(&cs);
    let mut out: Vec<(String, String)> = Vec::new();
    let mut i: usize = 0;
    while i < toks.len()
        invariant
            i <= toks@.len(),
            pairs_view(toks@) == attr_tokens(s@),
            out@.len() == i,
            forall|k: int| 0 <= k < i ==> (#[trigger] out@[k]).0@ == toks@[k].0@
                && out@[k].1@ == toks@[k].1@,
        decreases toks@.len() - i,
    {
        let k = string_of(&toks[i].0);
        let v = string_of(&toks[i].1);
        out.push((k, v));
        i += 1;
    }
    proof {
        assert forall|k: int| 0 <= k < out@.len() implies (#[trigger] out@[k]).0@ == attr_tokens(s@)[k].0
            && out@[k].1@ == attr_tokens(s@)[k].1 by {
            assert(pairs_view(toks@)[k] == (toks@[k].0@, toks@[k].1@));
        }
    }
    out
}

// ---------------------------------------------------------------- start tags

/// An ASCII control character (below space, or DEL); browsers drop tab,
/// CR and LF from inside URLs and control characters around them.
pub open spec fn is_control(c: char) -> bool {
    (c as u32) < 32 || (c as u32) == 127
}

/// `s` without its control characters.
pub open spec fn drop_controls(s: Seq<char>) -> Seq<char>
    decreases s.len(),
{
    if s.len() == 0 {
        Seq::empty()
    } else {
        drop_controls(s.drop_last()) + if is_control(s.last()) {
            Seq::empty()
        } else {
            seq![s.last()]
        }
    }
}

/// Whether the sanitiser keeps the attribute `k` with value `v`: a
/// whitelisted name that is no `on*` handler, and a value that mentions no
/// script scheme (`javascript:`, `vbscript:`, `data:`) or `expression`,
/// both compared in ASCII lowercase, the value with its control characters
/// removed (as a browser reads a URL).
pub open spec fn attr_allowed(k: Seq<char>, v: Seq<char>) -> bool {
    let lk = ascii_lower(k);
    let lv = drop_controls(ascii_lower(v));
    &&& !starts_with(lk, "on"@)
    &&& !contains_str(lv, "javascript:"@)
    &&& !contains_str(lv, "vbscript:"@)
    &&& !contains_str(lv, "data:"@)
    &&& !contains_str(lv, "expression"@)
    &&& is_safe_attr(lk)
}

/// How a kept attribute is written: ` key` or ` key="escaped value"`.
pub open spec fn attr_text(k: Seq<char>, v: Seq<char>) -> Seq<char> {
    seq![' '] + k + if v.len() > 0 {
        seq!['=', '"'] + escape_seq(v, true) + seq!['"']
    } else {
        Seq::empty()
    }
}

/// The kept attributes of `t`, in order, as text.
pub open spec fn render_attrs(t: Seq<(Seq<char>, Seq<char>)>) -> Seq<char>
    decreases t.len(),
{
    if t.len() == 0 {
        Seq::empty()
    } else {
        render_attrs(t.drop_last()) + if attr_allowed(t.last().0, t.last().1) {
            attr_text(t.last().0, t.last().1)
        } else {
            Seq::empty()
        }
    }
}

/// The attribute list of a start tag: what follows the name inside the
/// angle brackets, trimmed; nothing when the tag does not begin with the
/// name exactly.
pub open spec fn attr_part(tag: Seq<char>, name: Seq<char>) -> Seq<char> {
    let inner = tag.subrange(1, tag.len() - 1);
    if starts_with(inner, name) {
        trim(inner.skip(name.len() as int))
    } else {
        Seq::empty()
    }
}

/// A start tag rebuilt from its name and its kept attributes.
pub open spec fn scrubbed(tag: Seq<char>, name: Seq<char>) -> Seq<char> {
    seq!['<'] + name + render_attrs(attr_tokens(attr_part(tag, name))) + seq!['>']
}

fn drop_controls_exec(s: &[char]) -> (r: Vec<char>)
    ensures
        r@ == drop_controls(s@),
{
    let mut out: Vec<char> = Vec::new();
    let mut i: usize = 0;
    while i < s.len()
        invariant
            i <= s@.len(),
            out@ == drop_controls(s@.take(i as int)),
        decreases s@.len() - i,
    {
        let c = s[i];
        assert(s@.take(i + 1).drop_last() =~= s@.take(i as int));
        if !((c as u32) < 32 || (c as u32) == 127) {
            out.push(c);
            assert(out@ =~= drop_controls(s@.take(i + 1)));
        } else {
            assert(out@ =~= drop_controls(s@.take(i + 1)));
        }
        i += 1;
    }
    assert(s@.take(s@.len() as int) =~= s@);
    out
}

fn attr_allowed_exec(k: &[char], v: &[char]) -> (r: bool)
    ensures
        r == attr_allowed(k@, v@),
{
    let lk = ascii_lowercase(k);
    let lv0 = ascii_lowercase(v);
    let lv = drop_controls_exec(&lv0);
    let on = chars_of("on");
    !(starts_with_chars(&lk, &on) || contains_lit(&lv, "javascript:") || contains_lit(&lv, "vbscript:")
        || contains_lit(&lv, "data:") || contains_lit(&lv, "expression") || !safe_attr(&lk))
}

fn scrub_open_chars(tag: &[char], name: &[char]) -> (r: Vec<char>)
    requires
        tag@.len() >= 2,
    ensures
        r@ == scrubbed(tag@, name@),
{
    let inner = slice_range(tag, 1, tag.len() - 1);
    let ap: Vec<char> = if starts_with_chars(&inner, name) {
        let rest = slice_range(&inner, name.len(), inner.len());
        assert(rest@ =~= inner@.skip(name@.len() as int));
        trim_chars(&rest)
    } else {
        Vec::new()
    };
    assert(ap@ =~= attr_part(tag@, name@));
    let toks = tokenize_chars(&ap);
    let mut out: Vec<char> = Vec::new();
    out.push('<');
    append_chars(&mut out, name);
    let ghost head = out@;
    let mut i: usize = 0;
    assert(toks@.take(0) =~= Seq::<(Vec<char>, Vec<char>)>::empty());
    assert(pairs_view(toks@.take(0)) =~= Seq::<(Seq<char>, Seq<char>)>::empty());
    assert(head + render_attrs(Seq::<(Seq<char>, Seq<char>)>::empty()) =~= head);
    while i < toks.len()
        invariant
            i <= toks@.len(),
            pairs_view(toks@) == attr_tokens(attr_part(tag@, name@)),
            out@ == head + render_attrs(pairs_view(toks@.take(i as int))),
        decreases toks@.len() - i,
    {
        let k = &toks[i].0;
        let v = &toks[i].1;
        let ghost before = out@;
        if attr_allowed_exec(k, v) {
            out.push(' ');
            append_chars(&mut out, k);
            if v.len() > 0 {
                out.push('=');
                out.push('"');
                escape_into(&mut out, v, true);
                out.push('"');
            }
            assert(out@ =~= before + attr_text(k@, v@));
        } else {
            assert(out@ =~= before + Seq::<char>::empty());
        }
        proof {
            let t = pairs_view(toks@.take(i + 1));
            assert(t.drop_last() =~= pairs_view(toks@.take(i as int)));
            assert(t.last() == (k@, v@));
            assert(head + render_attrs(t) =~= before + (if attr_allowed(k@, v@) {
                attr_text(k@, v@)
            } else {
                Seq::empty()
            }));
        }
        i += 1;
    }
    assert(toks@.take(toks@.len() as int) =~= toks@);
    out.push('>');
    out
}

/// Rebuilds a whitelisted start tag `<name ...>` keeping only the allowed
/// attributes, each re-quoted with its value escaped.
pub fn scrub_open(tag: &str, name: &str) -> (r: String)
    requires
        tag@.len() >= 2,
        (tag@[0] as u32) < 128,
        (tag@.last() as u32) < 128,
    ensures
        r@ == scrubbed(tag@, name@),
{
    let t = chars_of(tag);
    let n = chars_of(name);
    let out = scrub_open_chars(&t, &n);
    string_of(&out)
}

// ---------------------------------------------------------------- sanitiser

/// What becomes of one tag (from `<` to the first `>`): a tag whose name is
/// not whitelisted is shown escaped, a whitelisted end tag is kept as it is,
/// and a whitelisted start tag is rebuilt.
pub open spec fn sanitize_tag(tag: Seq<char>) -> Seq<char> {
    let name = tag_name(tag);
    if name.len() == 0 || !is_tag_name_spec(name) || !is_safe_tag(name) {
        escape_seq(tag, false)
    } else if starts_with(tag, seq!['<', '/']) {
        tag
    } else {
        scrubbed(tag, name)
    }
}

/// The sanitised text of `s` from index `i` on: runs of text without `<`
/// are copied, each `<` up to the next `>` is treated as a tag.
pub open spec fn sanitize_from(s: Seq<char>, i: int) -> Seq<char>
    decreases s.len() - i,
{
    if 0 <= i < s.len() {
        if s[i] == '<' {
            let e = find_from(s, i, '>');
            if i < e < s.len() {
                sanitize_tag(s.subrange(i, e + 1)) + sanitize_from(s, e + 1)
            } else {
                Seq::empty()
            }
        } else {
            let e = find_from(s, i, '<');
            if i < e <= s.len() {
                s.subrange(i, e) + sanitize_from(s, e)
            } else {
                Seq::empty()
            }
        }
    } else {
        Seq::empty()
    }
}

/// What `sanitize_html` returns.
pub open spec fn sanitize(s: Seq<char>) -> Seq<char> {
    sanitize_from(s, 0)
}

/// Every `<` in `s` has a `>` somewhere after it. On other input the
/// sanitiser never finishes: at a `<` with no `>` after it, it makes no
/// progress.
pub open spec fn gt_follows_every_lt(s: Seq<char>) -> bool {
    forall|i: int| 0 <= i < s.len() && s[i] == '<' ==> exists|j: int| i < j < s.len() && s[j] == '>'
}

fn sanitize_tag_chars(tag: &[char]) -> (r: Vec<char>)
    requires
        tag@.len() >= 2,
    ensures
        r@ == sanitize_tag(tag@),
{
    let name = extract_name_chars(tag);
    if name.len() == 0 || !is_tag_name_chars(&name) || !safe_tag(&name) {
        let mut out: Vec<char> = Vec::new();
        escape_into(&mut out, tag, false);
        assert(out@ =~= escape_seq(tag@, false));
        out
    } else if tag.len() >= 2 && tag[0] == '<' && tag[1] == '/' {
        assert(tag@.take(2) =~= seq!['<', '/']);
        let mut out: Vec<char> = Vec::new();
        append_chars(&mut out, tag);
        assert(out@ =~= tag@);
        out
    } else {
        proof {
            if starts_with(tag@, seq!['<', '/']) {
                assert(tag@.take(2)[0] == tag@[0] && tag@.take(2)[1] == tag@[1]);
            }
        }
        scrub_open_chars(tag, &name)
    }
}

fn sanitize_chars(s: &[char]) -> (r: Vec<char>)
    requires
        gt_follows_every_lt(s@),
    ensures
        r@ == sanitize(s@),
{
    let mut out: Vec<char> = Vec::new();
    let mut i: usize = 0;
    assert(out@ + sanitize_from(s@, 0) =~= sanitize_from(s@, 0));
    while i < s.len()
        invariant
            i <= s@.len(),
            gt_follows_every_lt(s@),
            sanitize(s@) == out@ + sanitize_from(s@, i as int),
        decreases s@.len() - i,
    {
        let ghost before = out@;
        if s[i] == '<' {
            let e = find_char(s, i, '>');
            proof {
                lemma_scans(s@, i as int, '>');
                let j = choose|j: int| i < j < s@.len() && s@[j] == '>';
                assert(e <= j);
            }
            let tag = slice_range(s, i, e + 1);
            let t = sanitize_tag_chars(&tag);
            append_chars(&mut out, &t);
            assert(out@ + sanitize_from(s@, e + 1) =~= before + (t@ + sanitize_from(s@, e + 1)));
            i = e + 1;
        } else {
            let e = find_char(s, i, '<');
            proof {
                lemma_scans(s@, i as int, '<');
            }
            let run = slice_range(s, i, e);
            append_chars(&mut out, &run);
            assert(out@ + sanitize_from(s@, e as int) =~= before + (run@ + sanitize_from(s@, e as int)));
            i = e;
        }
    }
    assert(out@ + sanitize_from(s@, i as int) =~= out@);
    out
}

/// Whitelist sanitiser for rendered Markdown: tags outside the whitelist
/// are shown as escaped text, whitelisted start tags keep only the allowed
/// attributes, whitelisted end tags are kept.
pub fn sanitize_html(html: &str) -> (r: String)
    requires
        gt_follows_every_lt(html@),
    ensures
        r@ == sanitize(html@),
{
    let cs = chars_of(html);
    let out = sanitize_chars(&cs);
    string_of(&out)
}

/// Whether every `<` in `s` has a `>` after it.
pub fn every_lt_closed(s: &[char]) -> (r: bool)
    ensures
        r == gt_follows_every_lt(s@),
{
    let mut seen_gt = false;
    let mut i: usize = s.len();
    while i > 0
        invariant
            i <= s@.len(),
            seen_gt == exists|j: int| i <= j < s@.len() && s@[j] == '>',
            forall|k: int| i <= k < s@.len() && s@[k] == '<' ==> exists|j: int| k < j < s@.len() && s@[j] == '>',
        decreases i,
    {
        let c = s[i - 1];
        if c == '<' && !seen_gt {
            assert(!gt_follows_every_lt(s@)) by {
                assert(s@[i - 1] == '<');
                if exists|j: int| i - 1 < j < s@.len() && s@[j] == '>' {
                    let j = choose|j: int| i - 1 < j < s@.len() && s@[j] == '>';
                    assert(i <= j);
                }
            }
            return false;
        }
        if c == '>' {
            seen_gt = true;
        }
        i -= 1;
        proof {
            if seen_gt && c != '>' {
                let j = choose|j: int| i + 1 <= j < s@.len() && s@[j] == '>';
                assert(i <= j);
            }
            if c == '>' {
                assert(s@[i as int] == '>');
            }
        }
    }
    true
}

// ---------------------------------------------------------------- Markdown

/// The HTML that pulldown-cmark renders from Markdown text with no
/// extension enabled (CommonMark).
pub uninterp spec fn cmark_html(md: Seq<char>) -> Seq<char>;

/// pulldown-cmark's `Parser::new_ext(md, Options::empty())` fed to
/// `html::push_html`. Trusted to be a function of `md` alone, named
/// `cmark_html`; nothing more is claimed about the HTML it writes.
#[verifier::external_body]
fn markdown_to_html(md: &str) -> (r: String)
    ensures
        r@ == cmark_html(md@),
{
    let parser = pulldown_cmark::Parser::new_ext(md, pulldown_cmark::Options::empty());
    let mut out = String::new();
    pulldown_cmark::html::push_html(&mut out, parser);
    out
}

/// Renders Markdown to HTML and sanitises it. The rendered HTML must have a
/// `>` after each `<`, else the sanitiser would not finish.
pub fn render_markdown(md: &str) -> (r: String)
    requires
        gt_follows_every_lt(cmark_html(md@)),
    ensures
        r@ == sanitize(cmark_html(md@)),
{
    let out = markdown_to_html(md);
    sanitize_html(out.as_str())
}

/// `render_markdown` where the rendered HTML allows it; `None` where some
/// `<` of the rendered HTML has no `>` after it. The Markdown is rendered
/// once to test the HTML, then `render_markdown` renders it again.
pub fn try_render_markdown(md: &str) -> (r: Option<String>)
    ensures
        r is None <==> !gt_follows_every_lt(cmark_html(md@)),
        r matches Some(h) ==> h@ == sanitize(cmark_html(md@)),
{
    let html = markdown_to_html(md);
    let cs = chars_of(html.as_str());
    if every_lt_closed(&cs) {
        Some(render_markdown(md))
    } else {
        None
    }
}

// ---------------------------------------------------------------- the whitelist law

/// The `<` at index `k` of `o` opens an end tag (`</`), or a start tag whose
/// name is whitelisted and is followed by a space or by `>`.
pub open spec fn lt_opens_allowed_tag(o: Seq<char>, k: int) -> bool {
    ||| (k + 1 < o.len() && o[k + 1] == '/')
    ||| exists|n: Seq<char>|
        is_safe_tag(n) && k + 1 + n.len() < o.len() && #[trigger] o.subrange(k + 1, k + 1 + n.len()) == n
            && (o[k + 1 + n.len()] == ' ' || o[k + 1 + n.len()] == '>')
}

/// Every `<` of `o` opens an end tag or a whitelisted start tag.
pub open spec fn only_allowed_tags(o: Seq<char>) -> bool {
    forall|k: int| 0 <= k < o.len() && o[k] == '<' ==> #[trigger] lt_opens_allowed_tag(o, k)
}

/// A tag that the sanitiser keeps verbatim (a whitelisted end tag) holds
/// no `<` besides its first character.
pub open spec fn kept_end_tag_clean(tag: Seq<char>) -> bool {
    let name = tag_name(tag);
    (name.len() > 0 && is_tag_name_spec(name) && is_safe_tag(name) && starts_with(tag, seq!['<', '/']))
        ==> forall|k: int| 1 <= k < tag.len() ==> tag[k] != '<'
}

/// Every tag that the sanitiser would keep verbatim, reading `s` from `i`
/// as it does, is clean.
pub open spec fn end_tags_clean_from(s: Seq<char>, i: int) -> bool
    decreases s.len() - i,
{
    if 0 <= i < s.len() {
        if s[i] == '<' {
            let e = find_from(s, i, '>');
            if i < e < s.len() {
                kept_end_tag_clean(s.subrange(i, e + 1)) && end_tags_clean_from(s, e + 1)
            } else {
                true
            }
        } else {
            let e = find_from(s, i, '<');
            if i < e <= s.len() {
                end_tags_clean_from(s, e)
            } else {
                true
            }
        }
    } else {
        true
    }
}

proof fn lemma_no_lt_ok(o: Seq<char>)
    requires
        forall|k: int| 0 <= k < o.len() ==> o[k] != '<',
    ensures
        only_allowed_tags(o),
{
}

proof fn lemma_concat_ok(a: Seq<char>, b: Seq<char>)
    requires
        only_allowed_tags(a),
        only_allowed_tags(b),
    ensures
        only_allowed_tags(a + b),
{
    let o = a + b;
    assert forall|k: int| 0 <= k < o.len() && o[k] == '<' implies #[trigger] lt_opens_allowed_tag(o, k) by {
        if k < a.len() {
            assert(a[k] == '<');
            assert(lt_opens_allowed_tag(a, k));
            if k + 1 < a.len() && a[k + 1] == '/' {
                assert(o[k + 1] == '/');
            } else {
                let n = choose|n: Seq<char>|
                    is_safe_tag(n) && k + 1 + n.len() < a.len() && #[trigger] a.subrange(k + 1, k + 1 + n.len()) == n
                        && (a[k + 1 + n.len()] == ' ' || a[k + 1 + n.len()] == '>');
                assert(o.subrange(k + 1, k + 1 + n.len()) =~= a.subrange(k + 1, k + 1 + n.len()));
                assert(o[k + 1 + n.len()] == a[k + 1 + n.len()]);
            }
        } else {
            let j = k - a.len();
            assert(b[j] == '<');
            assert(lt_opens_allowed_tag(b, j));
            if j + 1 < b.len() && b[j + 1] == '/' {
                assert(o[k + 1] == b[j + 1]);
            } else {
                let n = choose|n: Seq<char>|
                    is_safe_tag(n) && j + 1 + n.len() < b.len() && #[trigger] b.subrange(j + 1, j + 1 + n.len()) == n
                        && (b[j + 1 + n.len()] == ' ' || b[j + 1 + n.len()] == '>');
                assert(o.subrange(k + 1, k + 1 + n.len()) =~= b.subrange(j + 1, j + 1 + n.len()));
                assert(o[k + 1 + n.len()] == b[j + 1 + n.len()]);
            }
        }
    }
}

proof fn lemma_name_run_chars(s: Seq<char>)
    ensures
        forall|k: int| 0 <= k < name_run(s).len() ==> is_name_char(#[trigger] name_run(s)[k]),
    decreases s.len(),
{
    if s.len() > 0 && is_name_char(s[0]) {
        lemma_name_run_chars(s.drop_first());
        let r = name_run(s.drop_first());
        assert forall|k: int| 0 <= k < name_run(s).len() implies is_name_char(#[trigger] name_run(s)[k]) by {
            if k > 0 {
                assert(name_run(s)[k] == r[k - 1]);
            }
        }
    }
}

proof fn lemma_safe_attr_no_lt(n: Seq<char>)
    requires
        is_safe_attr(n),
    ensures
        forall|k: int| 0 <= k < n.len() ==> n[k] != '<',
{
    reveal_strlit("href");
    reveal_strlit("src");
    reveal_strlit("alt");
    reveal_strlit("title");
    reveal_strlit("class");
    reveal_strlit("id");
    reveal_strlit("rel");
    reveal_strlit("target");
    reveal_strlit("width");
    reveal_strlit("height");
    reveal_strlit("colspan");
    reveal_strlit("rowspan");
    reveal_strlit("scope");
    reveal_strlit("lang");
    reveal_strlit("type");
}

proof fn lemma_attr_text_no_lt(k: Seq<char>, v: Seq<char>)
    requires
        attr_allowed(k, v),
    ensures
        forall|j: int| 0 <= j < attr_text(k, v).len() ==> attr_text(k, v)[j] != '<',
        attr_text(k, v).len() > 0 && attr_text(k, v)[0] == ' ',
{
    lemma_safe_attr_no_lt(ascii_lower(k));
    law_escape_has_no_markup(v, true);
    let t = attr_text(k, v);
    assert forall|j: int| 0 <= j < t.len() implies t[j] != '<' by {
        if 1 <= j < 1 + k.len() {
            assert(t[j] == k[j - 1]);
            assert(ascii_lower(k)[j - 1] == ascii_lower_char(k[j - 1]));
        } else if j >= 1 + k.len() + 2 && v.len() > 0 && j < 1 + k.len() + 2 + escape_seq(v, true).len() {
            assert(t[j] == escape_seq(v, true)[j - 1 - k.len() - 2]);
        }
    }
}

proof fn lemma_render_attrs_no_lt(t: Seq<(Seq<char>, Seq<char>)>)
    ensures
        forall|j: int| 0 <= j < render_attrs(t).len() ==> render_attrs(t)[j] != '<',
        render_attrs(t).len() > 0 ==> render_attrs(t)[0] == ' ',
    decreases t.len(),
{
    if t.len() > 0 {
        lemma_render_attrs_no_lt(t.drop_last());
        let p = render_attrs(t.drop_last());
        if attr_allowed(t.last().0, t.last().1) {
            lemma_attr_text_no_lt(t.last().0, t.last().1);
            let a = attr_text(t.last().0, t.last().1);
            assert forall|j: int| 0 <= j < render_attrs(t).len() implies render_attrs(t)[j] != '<' by {
                if j < p.len() {
                    assert(render_attrs(t)[j] == p[j]);
                } else {
                    assert(render_attrs(t)[j] == a[j - p.len()]);
                }
            }
            if p.len() == 0 {
                assert(render_attrs(t)[0] == a[0]);
            } else {
                assert(render_attrs(t)[0] == p[0]);
            }
        } else {
            assert(render_attrs(t) =~= p);
        }
    }
}

proof fn lemma_scrubbed_ok(tag: Seq<char>, name: Seq<char>)
    requires
        is_safe_tag(name),
        forall|k: int| 0 <= k < name.len() ==> is_name_char(#[trigger] name[k]),
    ensures
        only_allowed_tags(scrubbed(tag, name)),
{
    let r = render_attrs(attr_tokens(attr_part(tag, name)));
    lemma_render_attrs_no_lt(attr_tokens(attr_part(tag, name)));
    let o = scrubbed(tag, name);
    assert forall|k: int| 0 <= k < o.len() && o[k] == '<' implies #[trigger] lt_opens_allowed_tag(o, k) by {
        if k == 0 {
            assert(o.subrange(1, 1 + name.len() as int) =~= name);
            if r.len() > 0 {
                assert(o[1 + name.len() as int] == r[0]);
            } else {
                assert(o[1 + name.len() as int] == '>');
            }
        } else if k < 1 + name.len() {
            assert(o[k] == name[k - 1]);
        } else if k < 1 + name.len() + r.len() {
            assert(o[k] == r[k - 1 - name.len()]);
        } else {
            assert(o[k] == '>');
        }
    }
}

proof fn lemma_tag_ok(tag: Seq<char>)
    requires
        tag.len() >= 2,
        tag[0] == '<',
        kept_end_tag_clean(tag),
    ensures
        only_allowed_tags(sanitize_tag(tag)),
{
    let name = tag_name(tag);
    if name.len() == 0 || !is_tag_name_spec(name) || !is_safe_tag(name) {
        law_escape_has_no_markup(tag, false);
        lemma_no_lt_ok(escape_seq(tag, false));
    } else if starts_with(tag, seq!['<', '/']) {
        assert(tag.take(2)[1] == tag[1]);
        assert forall|k: int| 0 <= k < tag.len() && tag[k] == '<' implies #[trigger] lt_opens_allowed_tag(tag, k) by {
            assert(k == 0);
        }
    } else {
        lemma_scrubbed_ok(tag, name);
    }
}

proof fn lemma_sanitize_from_ok(s: Seq<char>, i: int)
    requires
        end_tags_clean_from(s, i),
    ensures
        only_allowed_tags(sanitize_from(s, i)),
    decreases s.len() - i,
{
    if 0 <= i < s.len() {
        if s[i] == '<' {
            let e = find_from(s, i, '>');
            if i < e < s.len() {
                let tag = s.subrange(i, e + 1);
                lemma_tag_ok(tag);
                lemma_sanitize_from_ok(s, e + 1);
                lemma_concat_ok(sanitize_tag(tag), sanitize_from(s, e + 1));
            }
        } else {
            let e = find_from(s, i, '<');
            if i < e <= s.len() {
                lemma_scans(s, i, '<');
                lemma_sanitize_from_ok(s, e);
                assert forall|k: int| 0 <= k < s.subrange(i, e).len() implies s.subrange(i, e)[k] != '<' by {
                    assert(s.subrange(i, e)[k] == s[i + k]);
                }
                lemma_no_lt_ok(s.subrange(i, e));
                lemma_concat_ok(s.subrange(i, e), sanitize_from(s, e));
            }
        }
    }
}

/// Whitelist law: in sanitised HTML every `<` opens either an end tag or a
/// start tag whose name is on the whitelist (followed by a space or `>`),
/// for every input whose whitelisted end tags hold no second `<`.
pub proof fn law_sanitize_only_allowed_tags(s: Seq<char>)
    requires
        end_tags_clean_from(s, 0),
    ensures
        only_allowed_tags(sanitize(s)),
{
    lemma_sanitize_from_ok(s, 0);
}

/// Attribute law: a rebuilt start tag is `<name` followed by the written
/// form of attributes each of which passes the filter (whitelisted name,
/// no `on*` handler, no script scheme in the value), then `>`.
pub proof fn law_scrubbed_attrs_allowed(tag: Seq<char>, name: Seq<char>)
    ensures
        exists|kept: Seq<(Seq<char>, Seq<char>)>|
            (forall|j: int| 0 <= j < kept.len() ==> attr_allowed(#[trigger] kept[j].0, kept[j].1))
            && scrubbed(tag, name) == seq!['<'] + name + attrs_text(kept) + seq!['>'],
{
    let t = attr_tokens(attr_part(tag, name));
    let kept = kept_attrs(t);
    lemma_kept_attrs(t);
    assert(scrubbed(tag, name) == seq!['<'] + name + attrs_text(kept) + seq!['>']);
}

/// The written form of a list of attributes.
pub open spec fn attrs_text(t: Seq<(Seq<char>, Seq<char>)>) -> Seq<char>
    decreases t.len(),
{
    if t.len() == 0 {
        Seq::empty()
    } else {
        attrs_text(t.drop_last()) + attr_text(t.last().0, t.last().1)
    }
}

/// The attributes of `t` that pass the filter, in order.
pub open spec fn kept_attrs(t: Seq<(Seq<char>, Seq<char>)>) -> Seq<(Seq<char>, Seq<char>)>
    decreases t.len(),
{
    if t.len() == 0 {
        Seq::empty()
    } else if attr_allowed(t.last().0, t.last().1) {
        kept_attrs(t.drop_last()).push(t.last())
    } else {
        kept_attrs(t.drop_last())
    }
}

proof fn lemma_kept_attrs(t: Seq<(Seq<char>, Seq<char>)>)
    ensures
        forall|j: int| 0 <= j < kept_attrs(t).len() ==> attr_allowed(#[trigger] kept_attrs(t)[j].0, kept_attrs(t)[j].1),
        render_attrs(t) == attrs_text(kept_attrs(t)),
    decreases t.len(),
{
    if t.len() > 0 {
        lemma_kept_attrs(t.drop_last());
        if attr_allowed(t.last().0, t.last().1) {
            let k = kept_attrs(t.drop_last()).push(t.last());
            assert(k.drop_last() =~= kept_attrs(t.drop_last()));
            assert forall|j: int| 0 <= j < k.len() implies attr_allowed(#[trigger] k[j].0, k[j].1) by {
                if j < k.len() - 1 {
                    assert(k[j] == kept_attrs(t.drop_last())[j]);
                }
            }
        } else {
            assert(render_attrs(t) =~= render_attrs(t.drop_last()));
        }
    }
}

proof fn lemma_contains_extend(x: Seq<char>, y: Seq<char>, p: Seq<char>)
    requires
        contains_str(x, p),
    ensures
        contains_str(x + y, p),
        contains_str(y + x, p),
{
    let i = choose|i: int| occurs_at(x, p, i);
    assert((x + y).subrange(i, i + p.len()) =~= x.subrange(i, i + p.len()));
    assert(occurs_at(x + y, p, i));
    assert((y + x).subrange(y.len() + i, y.len() + i + p.len()) =~= x.subrange(i, i + p.len()));
    assert(occurs_at(y + x, p, y.len() + i));
}

proof fn lemma_contains_end(x: Seq<char>, p: Seq<char>)
    ensures
        contains_str(x + p, p),
{
    assert((x + p).subrange(x.len() as int, (x.len() + p.len()) as int) =~= p);
    assert(occurs_at(x + p, p, x.len() as int));
}

/// The attribute test written out: a lowercased name from the attribute
/// whitelist that is no `on*` handler, and a value that, lowercased and
/// without control characters, holds none of `javascript:`, `vbscript:`,
/// `data:` and `expression`.
pub open spec fn listed_safe_attribute(k: Seq<char>, v: Seq<char>) -> bool {
    let lk = ascii_lower(k);
    let lv = drop_controls(ascii_lower(v));
    &&& (lk == "href"@ || lk == "src"@ || lk == "alt"@ || lk == "title"@ || lk == "class"@ || lk == "id"@
        || lk == "rel"@ || lk == "target"@ || lk == "width"@ || lk == "height"@ || lk == "colspan"@
        || lk == "rowspan"@ || lk == "scope"@ || lk == "lang"@ || lk == "type"@)
    &&& !(lk.len() >= 2 && lk[0] == 'o' && lk[1] == 'n')
    &&& !contains_str(lv, "javascript:"@)
    &&& !contains_str(lv, "vbscript:"@)
    &&& !contains_str(lv, "data:"@)
    &&& !contains_str(lv, "expression"@)
}

/// How an attribute stands in a rebuilt tag: ` key`, or ` key="value"` with
/// the value escaped.
pub open spec fn written_attribute(k: Seq<char>, v: Seq<char>) -> Seq<char> {
    seq![' '] + k + if v.len() > 0 {
        seq!['=', '"'] + escape_seq(v, true) + seq!['"']
    } else {
        Seq::empty()
    }
}

proof fn lemma_render_keeps(t: Seq<(Seq<char>, Seq<char>)>, j: int)
    requires
        0 <= j < t.len(),
        listed_safe_attribute(t[j].0, t[j].1),
    ensures
        contains_str(render_attrs(t), written_attribute(t[j].0, t[j].1)),
    decreases t.len(),
{
    let last = t.last();
    let tail = if attr_allowed(last.0, last.1) {
        attr_text(last.0, last.1)
    } else {
        Seq::empty()
    };
    assert(render_attrs(t) == render_attrs(t.drop_last()) + tail);
    if j < t.len() - 1 {
        assert(t.drop_last()[j] == t[j]);
        lemma_render_keeps(t.drop_last(), j);
        lemma_contains_extend(render_attrs(t.drop_last()), tail, written_attribute(t[j].0, t[j].1));
    } else {
        reveal_strlit("on");
        assert("on"@ =~= seq!['o', 'n']);
        let lk = ascii_lower(last.0);
        assert(!starts_with(lk, "on"@)) by {
            if starts_with(lk, "on"@) {
                assert(lk.take(2)[0] == lk[0]);
                assert(lk.take(2)[1] == lk[1]);
            }
        }
        assert(attr_allowed(last.0, last.1));
        assert(tail == written_attribute(last.0, last.1));
        lemma_contains_end(render_attrs(t.drop_last()), tail);
    }
}

/// Attribute completeness law: in a rebuilt start tag, every attribute
/// whose lowercased name is on the attribute whitelist and is no `on*`
/// handler, and whose lowercased, control-stripped value holds none of
/// `javascript:`, `vbscript:`, `data:` and `expression`, is written as
/// ` key="escaped value"` (or ` key` when the value is empty). A URL that
/// only mentions such a word without the scheme colon keeps its attribute.
pub proof fn law_safe_attributes_kept(tag: Seq<char>, name: Seq<char>)
    ensures
        forall|j: int|
            0 <= j < attr_tokens(attr_part(tag, name)).len() && listed_safe_attribute(
                #[trigger] attr_tokens(attr_part(tag, name))[j].0,
                attr_tokens(attr_part(tag, name))[j].1,
            ) ==> contains_str(
                scrubbed(tag, name),
                written_attribute(attr_tokens(attr_part(tag, name))[j].0, attr_tokens(attr_part(tag, name))[j].1),
            ),
{
    let t = attr_tokens(attr_part(tag, name));
    assert forall|j: int|
        0 <= j < t.len() && listed_safe_attribute(#[trigger] t[j].0, t[j].1) implies contains_str(
            scrubbed(tag, name),
            written_attribute(t[j].0, t[j].1),
        ) by {
        lemma_render_keeps(t, j);
        let w = written_attribute(t[j].0, t[j].1);
        lemma_contains_extend(render_attrs(t), seq!['<'] + name, w);
        lemma_contains_extend((seq!['<'] + name) + render_attrs(t), seq!['>'], w);
        assert(scrubbed(tag, name) =~= (seq!['<'] + name) + render_attrs(t) + seq!['>']);
    }
}

} // verus!
