//! Blog posts and request-log rows: slugs, descriptions, the JSON text of
//! category lists, and the SQL of the log query.

use vstd::prelude::*;
use crate::sha256::hex_digit;
use crate::text::{occurs_at, starts_with, contains_str, 
    chars_of, decimal, find_char_from, is_whitespace, int_text, is_ws, push_decimal, push_int,
    push_str_chars, slice_range, string_of, trim, trim_chars, strings_view, append_chars,
};

verus! {

/// A blog post as stored.
#[derive(Clone)]
pub struct Post {
    pub id: i64,
    pub slug: String,
    pub title: String,
    pub content_md: String,
    pub content_html: String,
    pub categories: Vec<String>,
    pub tags: Vec<String>,
    pub desc: String,
    pub date: String,
    pub updated_at: String,
}

/// One logged request.
#[derive(Clone)]
pub struct LogRow {
    pub id: i64,
    pub timestamp: String,
    pub ip: String,
    pub method: String,
    pub path: String,
    pub status_code: i64,
    pub user_agent: String,
    pub category: String,
}

// ---------------------------------------------------------------- slugs

/// The text built while reading `s` character by character, and whether
/// the last character read was whitespace: a non-whitespace character is
/// copied, a whitespace run after some copied text becomes one `-`.
pub open spec fn slug_scan(s: Seq<char>) -> (Seq<char>, bool)
    decreases s.len(),
{
    if s.len() == 0 {
        (Seq::empty(), false)
    } else {
        let (o, prev) = slug_scan(s.drop_last());
        let c = s.last();
        if is_ws(c) {
            (if !prev && o.len() > 0 { o.push('-') } else { o }, true)
        } else {
            (o.push(c), false)
        }
    }
}

/// `s` without its trailing run of `c` (`str::trim_end_matches` for a char).
pub open spec fn strip_trailing(s: Seq<char>, c: char) -> Seq<char>
    decreases s.len(),
{
    if s.len() > 0 && s.last() == c {
        strip_trailing(s.drop_last(), c)
    } else {
        s
    }
}

/// The slug of a title: trimmed, whitespace runs turned into `-`, trailing
/// `-` removed; `post` when nothing but whitespace was given.
pub open spec fn slug_of(title: Seq<char>) -> Seq<char> {
    let o = slug_scan(trim(title)).0;
    if o.len() == 0 {
        "post"@
    } else {
        strip_trailing(o, '-')
    }
}

/// Runs the slug scan over `s`.
pub fn slug_scan_exec(s: &[char]) -> (r: Vec<char>)
    ensures
        r@ == slug_scan(s@).0,
{
    let mut out: Vec<char> = Vec::new();
    let mut prev_space = false;
    let mut i: usize = 0;
    while i < s.len()
        invariant
            i <= s@.len(),
            (out@, prev_space) == slug_scan(s@.take(i as int)),
        decreases s@.len() - i,
    {
        let ch = s[i];
        assert(s@.take(i + 1).drop_last() =~= s@.take(i as int));
        if is_whitespace(ch) {
            if !prev_space && out.len() > 0 {
                out.push('-');
            }
            prev_space = true;
        } else {
            out.push(ch);
            prev_space = false;
        }
        i += 1;
    }
    assert(s@.take(s@.len() as int) =~= s@);
    out
}

/// The length of `s` without its trailing run of `c`.
pub fn strip_trailing_len(s: &[char], c: char) -> (r: usize)
    ensures
        r <= s@.len(),
        strip_trailing(s@, c) == s@.take(r as int),
{
    let mut n = s.len();
    assert(s@.take(n as int) =~= s@);
    while n > 0 && s[n - 1] == c
        invariant
            n <= s@.len(),
            strip_trailing(s@, c) == strip_trailing(s@.take(n as int), c),
        decreases n,
    {
        assert(s@.take(n as int).drop_last() =~= s@.take(n - 1));
        n -= 1;
    }
    n
}

/// The slug of a post title (see `slug_of`).
pub fn slugify(s: &str) -> (r: String)
    ensures
        r@ == slug_of(s@),
{
    let cs = chars_of(s);
    let t = trim_chars(&cs);
    let out = slug_scan_exec(&t);
    if out.len() == 0 {
        String::from_str("post")
    } else {
        let n = strip_trailing_len(&out, '-');
        let kept = slice_range(&out, 0, n);
        assert(kept@ =~= out@.take(n as int));
        string_of(&kept)
    }
}

/// The `n`-th candidate slug after `base` is taken: `base-n`.
pub open spec fn slug_candidate_spec(base: Seq<char>, n: int) -> Seq<char> {
    base + seq!['-'] + int_text(n)
}

/// The slug tried after `base` and `base-2` .. `base-(n-1)` were taken.
pub fn slug_candidate(base: &str, n: i64) -> (r: String)
    ensures
        r@ == slug_candidate_spec(base@, n as int),
{
    let mut out: Vec<char> = Vec::new();
    push_str_chars(&mut out, base);
    out.push('-');
    push_int(&mut out, n);
    assert(out@ =~= slug_candidate_spec(base@, n as int));
    string_of(&out)
}

proof fn lemma_slug_scan_no_ws(s: Seq<char>)
    ensures
        forall|k: int| 0 <= k < slug_scan(s).0.len() ==> !is_ws(#[trigger] slug_scan(s).0[k]),
    decreases s.len(),
{
    if s.len() > 0 {
        lemma_slug_scan_no_ws(s.drop_last());
        let o = slug_scan(s.drop_last()).0;
        let n = slug_scan(s).0;
        assert forall|k: int| 0 <= k < n.len() implies !is_ws(#[trigger] n[k]) by {
            if k < o.len() {
                assert(n[k] == o[k]);
            }
        }
    }
}

proof fn lemma_strip_trailing_prefix(s: Seq<char>, c: char)
    ensures
        strip_trailing(s, c).len() <= s.len(),
        forall|k: int| 0 <= k < strip_trailing(s, c).len() ==> #[trigger] strip_trailing(s, c)[k] == s[k],
    decreases s.len(),
{
    if s.len() > 0 && s.last() == c {
        lemma_strip_trailing_prefix(s.drop_last(), c);
    }
}

/// Slug law: a slug holds no whitespace, so it can stand in a URL path
/// segment as it is.
pub proof fn law_slug_has_no_whitespace(title: Seq<char>)
    ensures
        forall|k: int| 0 <= k < slug_of(title).len() ==> !is_ws(#[trigger] slug_of(title)[k]),
{
    reveal_strlit("post");
    let o = slug_scan(trim(title)).0;
    lemma_slug_scan_no_ws(trim(title));
    lemma_strip_trailing_prefix(o, '-');
    if o.len() > 0 {
        assert forall|k: int| 0 <= k < slug_of(title).len() implies !is_ws(#[trigger] slug_of(title)[k]) by {
            assert(slug_of(title)[k] == o[k]);
        }
    }
}

// ---------------------------------------------------------------- description

/// The line of `s` that starts at `i`: up to the next `\n`, without the
/// `\r` of a `\r\n` ending; and where the next line starts.
pub open spec fn line_at(s: Seq<char>, i: int) -> (Seq<char>, int) {
    let e = find_nl(s, i);
    let l = s.subrange(i, e);
    if e < s.len() && l.len() > 0 && l.last() == '\r' {
        (l.drop_last(), e + 1)
    } else {
        (l, if e < s.len() { e + 1 } else { e })
    }
}

/// First index at or after `i` holding `\n` (or the end).
pub open spec fn find_nl(s: Seq<char>, i: int) -> int
    decreases s.len() - i,
{
    if 0 <= i < s.len() && s[i] != '\n' {
        find_nl(s, i + 1)
    } else {
        i
    }
}

proof fn lemma_find_nl(s: Seq<char>, i: int)
    requires
        0 <= i <= s.len(),
    ensures
        i <= find_nl(s, i) <= s.len(),
        find_nl(s, i) < s.len() ==> s[find_nl(s, i)] == '\n',
    decreases s.len() - i,
{
    if i < s.len() {
        lemma_find_nl(s, i + 1);
    }
}

proof fn lemma_find_nl_is(s: Seq<char>, i: int, r: int)
    requires
        0 <= i <= r <= s.len(),
        forall|j: int| i <= j < r ==> s[j] != '\n',
        r < s.len() ==> s[r] == '\n',
    ensures
        find_nl(s, i) == r,
    decreases r - i,
{
    if i < r {
        lemma_find_nl_is(s, i + 1, r);
    }
}

/// The first line of `s` from index `i` on (as `str::lines` splits) whose
/// trim is not empty, or nothing.
pub open spec fn first_nonblank_line(s: Seq<char>, i: int) -> Seq<char>
    decreases s.len() - i,
{
    if 0 <= i < s.len() {
        let (l, next) = line_at(s, i);
        if trim(l).len() > 0 {
            l
        } else if i < next <= s.len() {
            first_nonblank_line(s, next)
        } else {
            Seq::empty()
        }
    } else {
        Seq::empty()
    }
}

/// The description stored with a post: the given one unless it is blank,
/// else the first 80 characters of the first non-blank line of the
/// trimmed Markdown.
pub open spec fn desc_of(content_md: Seq<char>, desc: Seq<char>) -> Seq<char> {
    if trim(desc).len() == 0 {
        let l = first_nonblank_line(trim(content_md), 0);
        if l.len() <= 80 {
            l
        } else {
            l.take(80)
        }
    } else {
        desc
    }
}

fn line_at_exec(s: &[char], i: usize) -> (r: (Vec<char>, usize))
    requires
        i < s@.len(),
    ensures
        (r.0@, r.1 as int) == line_at(s@, i as int),
        i < r.1 <= s@.len(),
{
    let e = find_char_from(s, i, '\n');
    proof {
        lemma_find_nl_is(s@, i as int, e as int);
    }
    let l = slice_range(s, i, e);
    if e < s.len() && l.len() > 0 && l[l.len() - 1] == '\r' {
        let d = slice_range(&l, 0, l.len() - 1);
        assert(d@ =~= l@.drop_last());
        (d, e + 1)
    } else {
        proof {
            if e == i {
                assert(s@[i as int] == '\n');
            }
        }
        (l, if e < s.len() { e + 1 } else { e })
    }
}

/// The description to store (see `desc_of`).
pub fn derive_desc(content_md: &str, desc: &str) -> (r: String)
    ensures
        r@ == desc_of(content_md@, desc@),
{
    let dv = chars_of(desc);
    let dt = trim_chars(&dv);
    if dt.len() > 0 {
        return String::from_str(desc);
    }
    let mv = chars_of(content_md);
    let t = trim_chars(&mv);
    let mut i: usize = 0;
    let mut found: Vec<char> = Vec::new();
    let mut done = false;
    while i < t.len() && !done
        invariant
            i <= t@.len(),
            !done ==> first_nonblank_line(t@, 0) == first_nonblank_line(t@, i as int),
            done ==> found@ == first_nonblank_line(t@, 0),
            !done ==> found@ == Seq::<char>::empty(),
        decreases t@.len() - i, (if done { 0int } else { 1int }),
    {
        let (l, next) = line_at_exec(&t, i);
        let lt = trim_chars(&l);
        if lt.len() > 0 {
            found = l;
            done = true;
        } else {
            i = next;
        }
    }
    proof {
        if !done {
            assert(first_nonblank_line(t@, i as int) == Seq::<char>::empty());
            assert(found@ =~= Seq::<char>::empty());
        }
    }
    let n = if found.len() <= 80 { found.len() } else { 80 };
    let out = slice_range(&found, 0, n);
    string_of(&out)
}

/// Description law: a description that is not blank is stored exactly as
/// it was given, whatever its length; only a derived one is cut, to at most
/// 80 characters.
pub proof fn law_given_description_kept(content_md: Seq<char>, desc: Seq<char>)
    ensures
        trim(desc).len() > 0 ==> desc_of(content_md, desc) == desc,
        trim(desc).len() == 0 ==> desc_of(content_md, desc).len() <= 80,
{
}

// ---------------------------------------------------------------- JSON lists

/// How serde_json writes one character inside a string: `"` and `\\`
/// after a backslash, the short escapes `\\b \\t \\n \\f \\r`, other characters
/// below U+0020 as `\\u00` and two lowercase hex digits, anything else as
/// it is.
pub open spec fn json_char(c: char) -> Seq<char> {
    if c == '"' {
        seq!['\\', '"']
    } else if c == '\\' {
        seq!['\\', '\\']
    } else if c == '\u{8}' {
        seq!['\\', 'b']
    } else if c == '\t' {
        seq!['\\', 't']
    } else if c == '\n' {
        seq!['\\', 'n']
    } else if c == '\u{c}' {
        seq!['\\', 'f']
    } else if c == '\r' {
        seq!['\\', 'r']
    } else if (c as u32) < 32 {
        seq!['\\', 'u', '0', '0', hex_digit(((c as u32) / 16) as u8), hex_digit(((c as u32) % 16) as u8)]
    } else {
        seq![c]
    }
}

/// The escaped contents of a JSON string.
pub open spec fn json_chars(s: Seq<char>) -> Seq<char>
    decreases s.len(),
{
    if s.len() == 0 {
        Seq::empty()
    } else {
        json_chars(s.drop_last()) + json_char(s.last())
    }
}

/// The quoted JSON strings of `items`, separated by `,`.
pub open spec fn json_items(items: Seq<Seq<char>>) -> Seq<char>
    decreases items.len(),
{
    if items.len() == 0 {
        Seq::empty()
    } else if items.len() == 1 {
        seq!['"'] + json_chars(items[0]) + seq!['"']
    } else {
        json_items(items.drop_last()) + seq![',', '"'] + json_chars(items.last()) + seq!['"']
    }
}

/// The compact JSON array of strings that serde_json writes for a list.
pub open spec fn json_list_text(items: Seq<Seq<char>>) -> Seq<char> {
    seq!['['] + json_items(items) + seq![']']
}

/// The list of strings that serde_json reads from a JSON text (`None`
/// where the text is not a JSON array of strings).
pub uninterp spec fn parsed_string_list(text: Seq<char>) -> Option<Seq<Seq<char>>>;

/// `serde_json::to_string` on a list of strings. Trusted, as its source
/// shows (the compact formatter and its escape table): it does not fail on
/// strings and writes `json_list_text` of them.
#[verifier::external_body]
fn to_json_string_list(items: &Vec<String>) -> (r: Option<String>)
    ensures
        r is Some,
        r matches Some(t) ==> t@ == json_list_text(strings_view(items@)),
{
    serde_json::to_string(items).ok()
}

/// `serde_json::from_str::<Vec<String>>`; trusted to be a function of the
/// text alone, named `parsed_string_list`, and to read back the list from
/// the text that serde_json writes for it. How other texts are read is not
/// restated.
#[verifier::external_body]
fn from_json_string_list(text: &str) -> (r: Option<Vec<String>>)
    ensures
        r matches Some(v) ==> parsed_string_list(text@) == Some(strings_view(v@)),
        r is None ==> parsed_string_list(text@) is None,
        forall|items: Seq<Seq<char>>|
            #[trigger] json_list_text(items) == text@ ==> r is Some && strings_view(r.unwrap()@) == items,
{
    serde_json::from_str::<Vec<String>>(text).ok()
}

/// The stored text of a category or tag list: its JSON (with `[]` as the
/// fallback should serde_json fail, which it does not on strings).
pub fn string_list_json(items: &Vec<String>) -> (r: String)
    ensures
        r@ == json_list_text(strings_view(items@)),
{
    match to_json_string_list(items) {
        Some(t) => t,
        None => String::from_str("[]"),
    }
}

/// A parsed list, or the empty list where parsing failed.
pub fn list_or_empty(parsed: Option<Vec<String>>) -> (r: Vec<String>)
    ensures
        r@ == (match parsed {
            Some(v) => v@,
            None => Seq::empty(),
        }),
{
    match parsed {
        Some(v) => v,
        None => Vec::new(),
    }
}

/// The category or tag list stored as JSON text; empty when the text is
/// not a JSON array of strings.
pub fn string_list_from_json(text: &str) -> (r: Vec<String>)
    ensures
        strings_view(r@) == (match parsed_string_list(text@) {
            Some(v) => v,
            None => Seq::empty(),
        }),
        forall|items: Seq<Seq<char>>| #[trigger] json_list_text(items) == text@ ==> strings_view(r@) == items,
{
    let parsed = from_json_string_list(text);
    let ghost p = parsed;
    let r = list_or_empty(parsed);
    proof {
        if parsed_string_list(text@) is None {
            assert(strings_view(r@) =~= Seq::<Seq<char>>::empty());
        }
        assert forall|items: Seq<Seq<char>>| #[trigger] json_list_text(items) == text@ implies strings_view(r@)
            == items by {
            assert(p matches Some(v) && strings_view(v@) == items);
        }
    }
    r
}

// ---------------------------------------------------------------- log query

/// The SQL and bound values of one page of the request log.
pub struct LogQuery {
    /// Counts the matching rows.
    pub count_sql: String,
    /// Selects the page, newest first.
    pub data_sql: String,
    /// The text values bound to the filter placeholders, in order.
    pub params: Vec<String>,
    /// Bound to the `LIMIT` placeholder.
    pub limit: i64,
    /// Bound to the `OFFSET` placeholder.
    pub offset: i64,
}

/// The filter of a log query: for each non-empty criterion in turn a clause
/// with the next placeholder number and its bound value; `ip` matches as a
/// substring (`LIKE %ip%`), the others exactly. Also the next number.
pub open spec fn log_filter(category: Seq<char>, ip: Seq<char>, method: Seq<char>) -> (Seq<char>, Seq<Seq<char>>, int) {
    let (w1, p1, n1) = if category.len() > 0 {
        (" AND category=?"@ + decimal(1), seq![category], 2int)
    } else {
        (Seq::empty(), Seq::empty(), 1int)
    };
    let (w2, p2, n2) = if ip.len() > 0 {
        (w1 + " AND ip LIKE ?"@ + decimal(n1 as nat), p1.push(seq!['%'] + ip + seq!['%']), n1 + 1)
    } else {
        (w1, p1, n1)
    };
    if method.len() > 0 {
        (w2 + " AND method=?"@ + decimal(n2 as nat), p2.push(method), n2 + 1)
    } else {
        (w2, p2, n2)
    }
}

/// The query for page `page` of `per_page` rows under the given filters.
pub open spec fn log_query_spec(page: int, per_page: int, category: Seq<char>, ip: Seq<char>, method: Seq<char>) -> (Seq<char>, Seq<char>, Seq<Seq<char>>, int, int) {
    let (w, p, n) = log_filter(category, ip, method);
    (
        "SELECT COUNT(*) FROM request_logs WHERE 1=1"@ + w,
        "SELECT id,timestamp,ip,method,path,status_code,user_agent,category FROM request_logs WHERE 1=1"@ + w
            + " ORDER BY id DESC LIMIT ?"@ + decimal(n as nat) + " OFFSET ?"@ + decimal((n + 1) as nat),
        p,
        per_page,
        (page - 1) * per_page,
    )
}

/// Builds the query for one page of the request log. The offset
/// `(page - 1) * per_page` must fit in an `i64`.
pub fn build_log_query(page: i64, per_page: i64, category: &str, ip: &str, method: &str) -> (r: LogQuery)
    requires
        i64::MIN <= page - 1,
        i64::MIN <= (page - 1) * per_page <= i64::MAX,
    ensures
        (r.count_sql@, r.data_sql@, strings_view(r.params@), r.limit as int, r.offset as int)
            == log_query_spec(page as int, per_page as int, category@, ip@, method@),
{
    let mut w: Vec<char> = Vec::new();
    let mut params: Vec<String> = Vec::new();
    let mut n: u64 = 1;
    let ghost f = log_filter(category@, ip@, method@);
    if !category.is_empty() {
        push_str_chars(&mut w, " AND category=?");
        push_decimal(&mut w, n);
        params.push(String::from_str(category));
        n = n + 1;
    }
    let ghost w1 = w@;
    let ghost p1 = strings_view(params@);
    proof {
        if category@.len() > 0 {
            assert(p1 =~= seq![category@]);
        } else {
            assert(p1 =~= Seq::<Seq<char>>::empty());
            assert(w1 =~= Seq::<char>::empty());
        }
    }
    if !ip.is_empty() {
        push_str_chars(&mut w, " AND ip LIKE ?");
        push_decimal(&mut w, n);
        let mut like: Vec<char> = Vec::new();
        like.push('%');
        push_str_chars(&mut like, ip);
        like.push('%');
        assert(like@ =~= seq!['%'] + ip@ + seq!['%']);
        let ghost before = params@;
        params.push(string_of(&like));
        assert(strings_view(params@) =~= strings_view(before).push(seq!['%'] + ip@ + seq!['%']));
        n = n + 1;
    }
    if !method.is_empty() {
        push_str_chars(&mut w, " AND method=?");
        push_decimal(&mut w, n);
        let ghost before = params@;
        params.push(String::from_str(method));
        assert(strings_view(params@) =~= strings_view(before).push(method@));
        n = n + 1;
    }
    assert(w@ == f.0 && strings_view(params@) == f.1 && n as int == f.2);
    let mut count_sql: Vec<char> = Vec::new();
    push_str_chars(&mut count_sql, "SELECT COUNT(*) FROM request_logs WHERE 1=1");
    let mut data_sql: Vec<char> = Vec::new();
    push_str_chars(&mut data_sql, "SELECT id,timestamp,ip,method,path,status_code,user_agent,category FROM request_logs WHERE 1=1");
    append_chars(&mut count_sql, &w);
    append_chars(&mut data_sql, &w);
    push_str_chars(&mut data_sql, " ORDER BY id DESC LIMIT ?");
    push_decimal(&mut data_sql, n);
    push_str_chars(&mut data_sql, " OFFSET ?");
    push_decimal(&mut data_sql, n + 1);
    let q = LogQuery {
        count_sql: string_of(&count_sql),
        data_sql: string_of(&data_sql),
        params,
        limit: per_page,
        offset: (page - 1) * per_page,
    };
    q
}

/// 1 for a filter that is given (not empty), else 0.
pub open spec fn given(f: Seq<char>) -> int {
    if f.len() > 0 { 1 } else { 0 }
}

proof fn lemma_contains_middle(a: Seq<char>, p: Seq<char>, b: Seq<char>)
    ensures
        contains_str(a + p + b, p),
{
    assert((a + p + b).subrange(a.len() as int, (a.len() + p.len()) as int) =~= p);
    assert(occurs_at(a + p + b, p, a.len() as int));
}

/// Filter law: each filter that is given has its clause, with the next
/// placeholder number, in both SQL texts, and that placeholder's bound
/// value is the filter's value (`category` and `method` exactly, `ip`
/// wrapped in `%` for a substring match), whatever the other filters are;
/// the page size and offset are bound to the two placeholders after them.
#[verifier::spinoff_prover]
#[verifier::rlimit(50)]
pub proof fn law_log_filters_applied(page: int, per_page: int, c: Seq<char>, ip: Seq<char>, m: Seq<char>)
    ensures
        log_query_spec(page, per_page, c, ip, m).2.len() == given(c) + given(ip) + given(m),
        c.len() > 0 ==> log_query_spec(page, per_page, c, ip, m).2[0] == c,
        c.len() > 0 ==> contains_str(log_query_spec(page, per_page, c, ip, m).0, " AND category=?"@ + decimal(1)),
        c.len() > 0 ==> contains_str(log_query_spec(page, per_page, c, ip, m).1, " AND category=?"@ + decimal(1)),
        ip.len() > 0 ==> log_query_spec(page, per_page, c, ip, m).2[given(c)] == seq!['%'] + ip + seq!['%'],
        ip.len() > 0 ==> contains_str(
            log_query_spec(page, per_page, c, ip, m).0,
            " AND ip LIKE ?"@ + decimal((given(c) + 1) as nat),
        ),
        ip.len() > 0 ==> contains_str(
            log_query_spec(page, per_page, c, ip, m).1,
            " AND ip LIKE ?"@ + decimal((given(c) + 1) as nat),
        ),
        m.len() > 0 ==> log_query_spec(page, per_page, c, ip, m).2[given(c) + given(ip)] == m,
        m.len() > 0 ==> contains_str(
            log_query_spec(page, per_page, c, ip, m).0,
            " AND method=?"@ + decimal((given(c) + given(ip) + 1) as nat),
        ),
        m.len() > 0 ==> contains_str(
            log_query_spec(page, per_page, c, ip, m).1,
            " AND method=?"@ + decimal((given(c) + given(ip) + 1) as nat),
        ),
        starts_with(log_query_spec(page, per_page, c, ip, m).0, "SELECT COUNT(*) FROM request_logs WHERE 1=1"@),
        contains_str(
            log_query_spec(page, per_page, c, ip, m).1,
            " ORDER BY id DESC LIMIT ?"@ + decimal((given(c) + given(ip) + given(m) + 1) as nat) + " OFFSET ?"@
                + decimal((given(c) + given(ip) + given(m) + 2) as nat),
        ),
        log_query_spec(page, per_page, c, ip, m).3 == per_page,
        log_query_spec(page, per_page, c, ip, m).4 == (page - 1) * per_page,
{
    let base = "SELECT COUNT(*) FROM request_logs WHERE 1=1"@;
    let dbase = "SELECT id,timestamp,ip,method,path,status_code,user_agent,category FROM request_logs WHERE 1=1"@;
    let pc = " AND category=?"@ + decimal(1);
    let (w1, p1, n1) = if c.len() > 0 {
        (pc, seq![c], 2int)
    } else {
        (Seq::<char>::empty(), Seq::<Seq<char>>::empty(), 1int)
    };
    let pi = " AND ip LIKE ?"@ + decimal(n1 as nat);
    let (w2, p2, n2) = if ip.len() > 0 {
        (w1 + pi, p1.push(seq!['%'] + ip + seq!['%']), n1 + 1)
    } else {
        (w1, p1, n1)
    };
    let pm = " AND method=?"@ + decimal(n2 as nat);
    let (w, p, n) = if m.len() > 0 {
        (w2 + pm, p2.push(m), n2 + 1)
    } else {
        (w2, p2, n2)
    };
    assert(log_filter(c, ip, m) == (w, p, n));
    let tail = " ORDER BY id DESC LIMIT ?"@ + decimal(n as nat) + " OFFSET ?"@ + decimal((n + 1) as nat);
    assert(log_query_spec(page, per_page, c, ip, m).1 =~= dbase + w + tail);
    assert(n == given(c) + given(ip) + given(m) + 1);
    if c.len() > 0 {
        assert(w =~= pc + w.skip(pc.len() as int));
        assert(base + w =~= base + pc + w.skip(pc.len() as int));
        lemma_contains_middle(base, pc, w.skip(pc.len() as int));
        assert(dbase + w + tail =~= dbase + pc + (w.skip(pc.len() as int) + tail));
        lemma_contains_middle(dbase, pc, w.skip(pc.len() as int) + tail);
    }
    if ip.len() > 0 {
        let after = w.skip(w2.len() as int);
        assert(w =~= w1 + pi + after);
        assert(base + w =~= (base + w1) + pi + after);
        lemma_contains_middle(base + w1, pi, after);
        assert(dbase + w + tail =~= (dbase + w1) + pi + (after + tail));
        lemma_contains_middle(dbase + w1, pi, after + tail);
    }
    if m.len() > 0 {
        assert(base + w =~= (base + w2) + pm + Seq::<char>::empty());
        lemma_contains_middle(base + w2, pm, Seq::<char>::empty());
        assert(dbase + w + tail =~= (dbase + w2) + pm + tail);
        lemma_contains_middle(dbase + w2, pm, tail);
    }
    assert(dbase + w + tail =~= (dbase + w) + tail + Seq::<char>::empty());
    lemma_contains_middle(dbase + w, tail, Seq::<char>::empty());
    assert((base + w).take(base.len() as int) =~= base);
}

/// Injection law: the SQL text of a log query depends only on which
/// filters are given, never on their values or on the page; the values
/// travel as bound parameters.
pub proof fn law_log_sql_independent_of_values(
    page1: int, per_page1: int, c1: Seq<char>, ip1: Seq<char>, m1: Seq<char>,
    page2: int, per_page2: int, c2: Seq<char>, ip2: Seq<char>, m2: Seq<char>,
)
    requires
        (c1.len() > 0) == (c2.len() > 0),
        (ip1.len() > 0) == (ip2.len() > 0),
        (m1.len() > 0) == (m2.len() > 0),
    ensures
        log_query_spec(page1, per_page1, c1, ip1, m1).0 == log_query_spec(page2, per_page2, c2, ip2, m2).0,
        log_query_spec(page1, per_page1, c1, ip1, m1).1 == log_query_spec(page2, per_page2, c2, ip2, m2).1,
{
}

} // verus!
