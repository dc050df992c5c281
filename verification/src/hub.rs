//! Text logic of the command-line post manager: CSV input, file slugs,
//! front matter, titles and body rewriting.

use vstd::prelude::*;
use vstd::string::StringSliceAdditionalSpecFns;
use vstd::utf8::{decode_utf8, encode_utf8, is_char_boundary};
use crate::html::{find_char, find_from, lemma_scans};
use crate::http::{parse_i64, parse_i64_spec, parse_usize, parse_usize_spec};
use crate::post::{slug_scan, slug_scan_exec, strip_trailing, strip_trailing_len};
use crate::text::{
    ascii_lower, ascii_lowercase, chars_of, decimal, eq_str, int_text, push_decimal, push_int,
    push_str_chars, slice_range, starts_with, starts_with_chars, string_of, trim, trim_chars, strings_view,
};

verus! {

/// The non-empty trimmed fields of `s` from index `i` on, split at `,`.
pub open spec fn csv_from(s: Seq<char>, i: int) -> Seq<Seq<char>>
    decreases s.len() - i,
{
    if 0 <= i <= s.len() {
        let e = find_from(s, i, ',');
        let t = trim(s.subrange(i, e));
        (if t.len() > 0 { seq![t] } else { Seq::empty() }) + if i <= e < s.len() {
            csv_from(s, e + 1)
        } else {
            Seq::empty()
        }
    } else {
        Seq::empty()
    }
}

/// Splits comma-separated input into its non-empty trimmed fields.
pub fn parse_csv(s: &str) -> (r: Vec<String>)
    ensures
        strings_view(r@) == csv_from(s@, 0),
{
    let c = chars_of(s);
    let mut out: Vec<String> = Vec::new();
    let mut i: usize = 0;
    let mut done = false;
    assert(strings_view(out@) + csv_from(s@, 0) =~= csv_from(s@, 0));
    while !done
        invariant
            c@ == s@,
            !done ==> i <= c@.len() && csv_from(s@, 0) == strings_view(out@) + csv_from(s@, i as int),
            done ==> csv_from(s@, 0) == strings_view(out@),
        decreases c@.len() + 1 - i, (if done { 0int } else { 1int }),
    {
        let ghost before = strings_view(out@);
        let e = find_char(&c, i, ',');
        proof { lemma_scans(c@, i as int, ','); }
        let raw = slice_range(&c, i, e);
        let t = trim_chars(&raw);
        if t.len() > 0 {
            out.push(string_of(&t));
        }
        proof {
            let here = if t@.len() > 0 { seq![t@] } else { Seq::<Seq<char>>::empty() };
            assert(strings_view(out@) =~= before + here);
            if e < c@.len() {
                assert(strings_view(out@) + csv_from(s@, e + 1) =~= before + (here + csv_from(s@, e + 1)));
            } else {
                assert(here + Seq::<Seq<char>>::empty() =~= here);
            }
        }
        if e < c.len() {
            i = e + 1;
        } else {
            done = true;
        }
    }
    out
}

/// The file slug of a title: trimmed, whitespace runs turned into `-`,
/// trailing `-` removed (possibly empty).
pub open spec fn file_slug_of(title: Seq<char>) -> Seq<char> {
    strip_trailing(slug_scan(trim(title)).0, '-')
}

/// The slug used in a post's file name (see `file_slug_of`).
pub fn slugify(s: &str) -> (r: String)
    ensures
        r@ == file_slug_of(s@),
{
    let cs = chars_of(s);
    let t = trim_chars(&cs);
    let out = slug_scan_exec(&t);
    let n = strip_trailing_len(&out, '-');
    let kept = slice_range(&out, 0, n);
    assert(kept@ =~= out@.take(n as int));
    string_of(&kept)
}

/// `s` padded on the left with `0` to `w` characters.
pub open spec fn zero_pad(s: Seq<char>, w: nat) -> Seq<char> {
    if s.len() < w {
        Seq::new((w - s.len()) as nat, |k: int| '0') + s
    } else {
        s
    }
}

/// A date as `YYYY-MM-DD` (`{y:04}-{m:02}-{d:02}`): zero-padded, a negative
/// year with its sign counted in the width.
pub open spec fn date_text_spec(y: i64, m: u32, d: u32) -> Seq<char> {
    (if y < 0 {
        seq!['-'] + zero_pad(decimal((-y) as nat), 3)
    } else {
        zero_pad(decimal(y as nat), 4)
    }) + seq!['-'] + zero_pad(decimal(m as nat), 2) + seq!['-'] + zero_pad(decimal(d as nat), 2)
}

fn push_padded(out: &mut Vec<char>, n: u64, w: usize)
    ensures
        final(out)@ == old(out)@ + zero_pad(decimal(n as nat), w as nat),
{
    let ghost start = out@;
    let mut digits: Vec<char> = Vec::new();
    push_decimal(&mut digits, n);
    assert(digits@ =~= decimal(n as nat));
    let mut k = digits.len();
    while k < w
        invariant
            digits.len() <= k <= w || (digits.len() >= w && k == digits.len()),
            out@ == start + Seq::new((k - digits@.len()) as nat, |j: int| '0'),
        decreases w - k,
    {
        out.push('0');
        assert(out@ =~= start + Seq::new((k + 1 - digits@.len()) as nat, |j: int| '0'));
        k += 1;
    }
    let ghost pad = out@;
    let mut i: usize = 0;
    while i < digits.len()
        invariant
            i <= digits@.len(),
            out@ == pad + digits@.take(i as int),
        decreases digits@.len() - i,
    {
        out.push(digits[i]);
        assert(out@ =~= pad + digits@.take(i + 1));
        i += 1;
    }
    proof {
        assert(digits@.take(digits@.len() as int) =~= digits@);
        if digits@.len() < w {
            assert(out@ =~= start + zero_pad(decimal(n as nat), w as nat));
        } else {
            assert(Seq::new(0, |j: int| '0') =~= Seq::<char>::empty());
            assert(out@ =~= start + zero_pad(decimal(n as nat), w as nat));
        }
    }
}

/// A date as `YYYY-MM-DD` (see `date_text_spec`).
pub fn date_text(y: i64, m: u32, d: u32) -> (r: String)
    ensures
        r@ == date_text_spec(y, m, d),
{
    let mut out: Vec<char> = Vec::new();
    if y < 0 {
        out.push('-');
        let a: u64 = if y == i64::MIN { 9223372036854775808u64 } else { (-y) as u64 };
        push_padded(&mut out, a, 3);
    } else {
        push_padded(&mut out, y as u64, 4);
    }
    out.push('-');
    push_padded(&mut out, m as u64, 2);
    out.push('-');
    push_padded(&mut out, d as u64, 2);
    assert(out@ =~= date_text_spec(y, m, d));
    string_of(&out)
}

/// `"a", "b", ...`: each item in double quotes, joined by `, `.
pub open spec fn quoted_list(items: Seq<Seq<char>>) -> Seq<char>
    decreases items.len(),
{
    if items.len() == 0 {
        Seq::empty()
    } else if items.len() == 1 {
        seq!['"'] + items[0] + seq!['"']
    } else {
        quoted_list(items.drop_last()) + seq![',', ' ', '"'] + items.last() + seq!['"']
    }
}

fn push_quoted_list(out: &mut Vec<char>, items: &Vec<String>)
    ensures
        final(out)@ == old(out)@ + quoted_list(strings_view(items@)),
{
    let ghost start = out@;
    let mut i: usize = 0;
    while i < items.len()
        invariant
            i <= items@.len(),
            out@ == start + quoted_list(strings_view(items@).take(i as int)),
        decreases items@.len() - i,
    {
        let ghost before = out@;
        if i > 0 {
            out.push(',');
            out.push(' ');
        }
        out.push('"');
        push_str_chars(out, items[i].as_str());
        out.push('"');
        proof {
            let t = strings_view(items@).take(i + 1);
            assert(t.drop_last() =~= strings_view(items@).take(i as int));
            assert(t.last() == items@[i as int]@);
            if i == 0 {
                assert(t.len() == 1 && t[0] == items@[0]@);
                assert(strings_view(items@).take(0) =~= Seq::<Seq<char>>::empty());
            }
            assert(out@ =~= start + quoted_list(t));
        }
        i += 1;
    }
    assert(strings_view(items@).take(items@.len() as int) =~= strings_view(items@));
}

/// The text of a new post file: YAML front matter (layout, quoted title,
/// date, quoted categories and tags, `pinned: true` when pinned), then the
/// title as a heading and the body.
pub open spec fn post_file_spec(title: Seq<char>, date: Seq<char>, cats: Seq<Seq<char>>, tags: Seq<Seq<char>>, pinned: bool, body: Seq<char>) -> Seq<char> {
    "---\nlayout: post\ntitle: \""@ + title + "\"\ndate: "@ + date + "\ncategories: ["@ + quoted_list(cats)
        + "]\ntags: ["@ + quoted_list(tags) + "]"@ + (if pinned { "\npinned: true"@ } else { Seq::empty() })
        + "\n---\n\n# "@ + title + "\n\n"@ + body + "\n"@
}

/// The text of a new post file (see `post_file_spec`).
pub fn post_file_content(title: &str, date: &str, cats: &Vec<String>, tags: &Vec<String>, pinned: bool, body: &str) -> (r: String)
    ensures
        r@ == post_file_spec(title@, date@, strings_view(cats@), strings_view(tags@), pinned, body@),
{
    let mut out: Vec<char> = Vec::new();
    push_str_chars(&mut out, "---\nlayout: post\ntitle: \"");
    push_str_chars(&mut out, title);
    push_str_chars(&mut out, "\"\ndate: ");
    push_str_chars(&mut out, date);
    push_str_chars(&mut out, "\ncategories: [");
    push_quoted_list(&mut out, cats);
    push_str_chars(&mut out, "]\ntags: [");
    push_quoted_list(&mut out, tags);
    push_str_chars(&mut out, "]");
    let ghost mid = out@;
    if pinned {
        push_str_chars(&mut out, "\npinned: true");
    }
    assert(out@ =~= mid + (if pinned { "\npinned: true"@ } else { Seq::<char>::empty() }));
    push_str_chars(&mut out, "\n---\n\n# ");
    push_str_chars(&mut out, title);
    push_str_chars(&mut out, "\n\n");
    push_str_chars(&mut out, body);
    push_str_chars(&mut out, "\n");
    assert(out@ =~= post_file_spec(title@, date@, strings_view(cats@), strings_view(tags@), pinned, body@));
    string_of(&out)
}

/// Lines joined with `\n`.
pub open spec fn join_lines_spec(lines: Seq<Seq<char>>) -> Seq<char>
    decreases lines.len(),
{
    if lines.len() == 0 {
        Seq::empty()
    } else if lines.len() == 1 {
        lines[0]
    } else {
        join_lines_spec(lines.drop_last()) + seq!['\n'] + lines.last()
    }
}

/// Joins lines with `\n` (`[String]::join("\n")`).
pub fn join_lines(lines: &Vec<String>) -> (r: String)
    ensures
        r@ == join_lines_spec(strings_view(lines@)),
{
    let mut out: Vec<char> = Vec::new();
    let mut i: usize = 0;
    while i < lines.len()
        invariant
            i <= lines@.len(),
            out@ == join_lines_spec(strings_view(lines@).take(i as int)),
        decreases lines@.len() - i,
    {
        let ghost before = out@;
        if i > 0 {
            out.push('\n');
        }
        push_str_chars(&mut out, lines[i].as_str());
        proof {
            let t = strings_view(lines@).take(i + 1);
            assert(t.drop_last() =~= strings_view(lines@).take(i as int));
            if i == 0 {
                assert(strings_view(lines@).take(0) =~= Seq::<Seq<char>>::empty());
            }
            assert(out@ =~= join_lines_spec(t));
        }
        i += 1;
    }
    assert(strings_view(lines@).take(lines@.len() as int) =~= strings_view(lines@));
    string_of(&out)
}

/// The number of characters of `s` other than space, tab and newline.
pub open spec fn word_count_spec(s: Seq<char>) -> nat
    decreases s.len(),
{
    if s.len() == 0 {
        0
    } else {
        word_count_spec(s.drop_last()) + if s.last() == ' ' || s.last() == '\t' || s.last() == '\n' { 0nat } else { 1nat }
    }
}

/// The word count shown after saving: characters other than space, tab
/// and newline.
pub fn word_count(body: &str) -> (r: usize)
    ensures
        r == word_count_spec(body@),
{
    let c = chars_of(body);
    let mut n: usize = 0;
    let mut i: usize = 0;
    while i < c.len()
        invariant
            c@ == body@,
            i <= c@.len(),
            n == word_count_spec(c@.take(i as int)),
            n <= i,
        decreases c@.len() - i,
    {
        assert(c@.take(i + 1).drop_last() =~= c@.take(i as int));
        if !(c[i] == ' ' || c[i] == '\t' || c[i] == '\n') {
            n += 1;
        }
        i += 1;
    }
    assert(c@.take(c@.len() as int) =~= c@);
    n
}

// ---------------------------------------------------------------- titles

/// The title given by the first `title:` line of `c` from index `i` on
/// (lines trimmed), with the value trimmed and stripped of surrounding
/// `"` and then `'` characters.
pub open spec fn title_line_from(c: Seq<char>, i: int) -> Option<Seq<char>>
    decreases c.len() - i,
{
    if 0 <= i <= c.len() {
        let e = find_from(c, i, '\n');
        let line = trim(c.subrange(i, e));
        if starts_with(line, "title:"@) {
            Some(strip_quotes(strip_quotes(trim(line.skip(6)), '"'), '\''))
        } else if i <= e < c.len() {
            title_line_from(c, e + 1)
        } else {
            None
        }
    } else {
        None
    }
}

/// `s` without leading and trailing runs of `q` (`str::trim_matches`).
pub open spec fn strip_quotes(s: Seq<char>, q: char) -> Seq<char> {
    strip_trailing(crate::html::strip_leading(s, q), q)
}

/// A file stem with `-` read as spaces.
pub open spec fn stem_title(stem: Seq<char>) -> Seq<char> {
    stem.map_values(|c: char| if c == '-' { ' ' } else { c })
}

/// The title shown for a post file: its `title:` line, else its file stem
/// with `-` read as spaces, else `<未命名>`.
pub open spec fn post_title_spec(content: Seq<char>, stem: Option<Seq<char>>) -> Seq<char> {
    match title_line_from(content, 0) {
        Some(t) => t,
        None => match stem {
            Some(st) => stem_title(st),
            None => "<未命名>"@,
        },
    }
}

fn strip_quotes_exec(s: &[char], q: char) -> (r: Vec<char>)
    ensures
        r@ == strip_quotes(s@, q),
{
    let mut a: usize = 0;
    assert(s@.skip(0) =~= s@);
    while a < s.len() && s[a] == q
        invariant
            a <= s@.len(),
            crate::html::strip_leading(s@, q) == crate::html::strip_leading(s@.skip(a as int), q),
        decreases s@.len() - a,
    {
        assert(s@.skip(a as int).drop_first() =~= s@.skip(a + 1));
        a += 1;
    }
    let rest = slice_range(s, a, s.len());
    assert(rest@ =~= s@.skip(a as int));
    let n = strip_trailing_len(&rest, q);
    let out = slice_range(&rest, 0, n);
    assert(out@ =~= rest@.take(n as int));
    out
}

/// The title shown for a post file (see `post_title_spec`); `stem` is the
/// file name without its extension, when it is text.
pub fn title_from_content(content: &str, stem: Option<&str>) -> (r: String)
    ensures
        r@ == post_title_spec(content@, match stem {
            Some(st) => Some(st@),
            None => None,
        }),
{
    let c = chars_of(content);
    let prefix = chars_of("title:");
    proof {
        reveal_strlit("title:");
    }
    let mut i: usize = 0;
    let mut done = false;
    while !done
        invariant
            c@ == content@,
            prefix@ == "title:"@,
            prefix@.len() == 6,
            !done ==> i <= c@.len() && title_line_from(c@, 0) == title_line_from(c@, i as int),
            done ==> title_line_from(c@, 0) is None,
        decreases c@.len() + 1 - i, (if done { 0int } else { 1int }),
    {
        let e = find_char(&c, i, '\n');
        proof { lemma_scans(c@, i as int, '\n'); }
        let raw = slice_range(&c, i, e);
        let line = trim_chars(&raw);
        if starts_with_chars(&line, &prefix) {
            let rest = slice_range(&line, 6, line.len());
            assert(rest@ =~= line@.skip(6));
            let t = trim_chars(&rest);
            let t1 = strip_quotes_exec(&t, '"');
            let t2 = strip_quotes_exec(&t1, '\'');
            return string_of(&t2);
        }
        if e < c.len() {
            i = e + 1;
        } else {
            done = true;
        }
    }
    match stem {
        Some(st) => {
            let sv = chars_of(st);
            let mut out: Vec<char> = Vec::new();
            let mut k: usize = 0;
            while k < sv.len()
                invariant
                    k <= sv@.len(),
                    out@ == stem_title(sv@.take(k as int)),
                decreases sv@.len() - k,
            {
                out.push(if sv[k] == '-' { ' ' } else { sv[k] });
                assert(out@ =~= stem_title(sv@.take(k + 1)));
                k += 1;
            }
            assert(sv@.take(sv@.len() as int) =~= sv@);
            string_of(&out)
        },
        None => String::from_str("<未命名>"),
    }
}

// ---------------------------------------------------------------- bodies

/// The first index at or after `i` where `p` occurs in `s`.
pub open spec fn find_str_from(s: Seq<char>, p: Seq<char>, i: int) -> Option<int>
    decreases s.len() + 1 - i,
{
    if i < 0 || i + p.len() > s.len() {
        None
    } else if crate::text::occurs_at(s, p, i) {
        Some(i)
    } else {
        find_str_from(s, p, i + 1)
    }
}

/// The separator that closes the front matter.
pub open spec fn front_matter_end() -> Seq<char> {
    seq!['\n', '-', '-', '-', '\n']
}

/// The post body: what follows the first `\n---\n`, or nothing.
pub open spec fn body_after_spec(content: Seq<char>) -> Seq<char> {
    match find_str_from(content, front_matter_end(), 0) {
        Some(k) => content.skip(k + 5),
        None => Seq::empty(),
    }
}

/// The file text with its body replaced: everything up to and including
/// the first `\n---\n` (nothing if there is none), a blank line unless that
/// part already ends with one, the new body and a final newline.
pub open spec fn rewrite_body_spec(content: Seq<char>, new_body: Seq<char>) -> Seq<char> {
    let head = match find_str_from(content, front_matter_end(), 0) {
        Some(k) => content.take(k + 5),
        None => Seq::empty(),
    };
    let ends_blank = head.len() >= 2 && head[head.len() - 2] == '\n' && head[head.len() - 1] == '\n';
    head + (if ends_blank { Seq::empty() } else { seq!['\n', '\n'] }) + new_body + seq!['\n']
}

fn find_front_matter_end(c: &[char]) -> (r: Option<usize>)
    ensures
        r matches Some(k) ==> find_str_from(c@, front_matter_end(), 0) == Some(k as int) && k + 5 <= c@.len(),
        r is None ==> find_str_from(c@, front_matter_end(), 0) is None,
{
    let sep: Vec<char> = vec!['\n', '-', '-', '-', '\n'];
    assert(sep@ =~= front_matter_end());
    let mut i: usize = 0;
    while i < c.len() && c.len() - i >= 5
        invariant
            sep@ == front_matter_end(),
            find_str_from(c@, front_matter_end(), 0) == find_str_from(c@, front_matter_end(), i as int),
        decreases c@.len() - i,
    {
        if crate::text::matches_at(c, &sep, i) {
            return Some(i);
        }
        i += 1;
    }
    None
}

/// The body of a post file (see `body_after_spec`).
pub fn body_after_front_matter(content: &str) -> (r: String)
    ensures
        r@ == body_after_spec(content@),
{
    let c = chars_of(content);
    match find_front_matter_end(&c) {
        Some(k) => {
            let n = c.len();
            let b = slice_range(&c, k + 5, n);
            assert(b@ =~= c@.skip(k + 5));
            string_of(&b)
        },
        None => String::new(),
    }
}

/// The file text with a new body (see `rewrite_body_spec`).
pub fn rewrite_post_body(content: &str, new_body: &str) -> (r: String)
    ensures
        r@ == rewrite_body_spec(content@, new_body@),
{
    let c = chars_of(content);
    let head: Vec<char> = match find_front_matter_end(&c) {
        Some(k) => {
            let n = c.len();
            assert(k + 5 <= n);
            let h = slice_range(&c, 0, k + 5);
            assert(h@ =~= c@.take(k + 5));
            h
        },
        None => Vec::new(),
    };
    let ends_blank = head.len() >= 2 && head[head.len() - 2] == '\n' && head[head.len() - 1] == '\n';
    let mut out = head;
    if !ends_blank {
        out.push('\n');
        out.push('\n');
    }
    push_str_chars(&mut out, new_body);
    out.push('\n');
    assert(out@ =~= rewrite_body_spec(content@, new_body@));
    string_of(&out)
}

// ---------------------------------------------------------------- answers

/// Whether an answer is yes: `y` or `yes` in any ASCII case, ignoring
/// surrounding whitespace.
pub open spec fn is_yes_spec(answer: Seq<char>) -> bool {
    ascii_lower(trim(answer)) == "y"@ || ascii_lower(trim(answer)) == "yes"@
}

/// Whether an answer is yes (see `is_yes_spec`).
pub fn is_yes(answer: &str) -> (r: bool)
    ensures
        r == is_yes_spec(answer@),
{
    let a = chars_of(answer);
    let t = trim_chars(&a);
    let l = ascii_lowercase(&t);
    eq_str(&l, "y") || eq_str(&l, "yes")
}

/// The main menu's entries.
pub enum MenuAction {
    Write,
    Edit,
    Delete,
    List,
    Publish,
    Status,
    Quit,
    Unknown,
}

/// The menu entry chosen by an input line (trimmed): `1` to `6`, `0` to
/// quit, anything else is ignored.
pub fn menu_action(line: &str) -> (r: MenuAction)
    ensures
        r == (if trim(line@) == "1"@ {
            MenuAction::Write
        } else if trim(line@) == "2"@ {
            MenuAction::Edit
        } else if trim(line@) == "3"@ {
            MenuAction::Delete
        } else if trim(line@) == "4"@ {
            MenuAction::List
        } else if trim(line@) == "5"@ {
            MenuAction::Publish
        } else if trim(line@) == "6"@ {
            MenuAction::Status
        } else if trim(line@) == "0"@ {
            MenuAction::Quit
        } else {
            MenuAction::Unknown
        }),
{
    let a = chars_of(line);
    let t = trim_chars(&a);
    if eq_str(&t, "1") {
        MenuAction::Write
    } else if eq_str(&t, "2") {
        MenuAction::Edit
    } else if eq_str(&t, "3") {
        MenuAction::Delete
    } else if eq_str(&t, "4") {
        MenuAction::List
    } else if eq_str(&t, "5") {
        MenuAction::Publish
    } else if eq_str(&t, "6") {
        MenuAction::Status
    } else if eq_str(&t, "0") {
        MenuAction::Quit
    } else {
        MenuAction::Unknown
    }
}

/// The answer to "which post?" out of `count` listed from 1.
pub enum Pick {
    /// Not a number: nothing is done.
    NotANumber,
    /// 0 or beyond the list.
    OutOfRange,
    /// The 0-based index of the chosen post.
    Index(usize),
}

/// Reads the number of a listed post (1-based, trimmed input).
pub fn pick_post(line: &str, count: usize) -> (r: Pick)
    ensures
        r == (match parse_usize_spec(trim(line@)) {
            None => Pick::NotANumber,
            Some(i) => if i == 0 || i > count {
                Pick::OutOfRange
            } else {
                Pick::Index((i - 1) as usize)
            },
        }),
{
    let a = chars_of(line);
    let t = trim_chars(&a);
    let ts = string_of(&t);
    match parse_usize(ts.as_str()) {
        None => Pick::NotANumber,
        Some(i) => if i == 0 || i > count {
            Pick::OutOfRange
        } else {
            Pick::Index(i - 1)
        },
    }
}

/// The categories typed for a new post: the fields of the input, or
/// `随笔` when the input is blank.
pub fn categories_input(line: &str) -> (r: Vec<String>)
    ensures
        strings_view(r@) == csv_from(if trim(line@).len() == 0 { "随笔"@ } else { line@ }, 0),
{
    let a = chars_of(line);
    let t = trim_chars(&a);
    if t.len() == 0 {
        parse_csv("随笔")
    } else {
        parse_csv(line)
    }
}

/// The commit message typed for a publish: the trimmed input, or
/// `手机发布` when it is blank.
pub fn commit_message(line: &str) -> (r: String)
    ensures
        r@ == (if trim(line@).len() == 0 { "手机发布"@ } else { trim(line@) }),
{
    let a = chars_of(line);
    let t = trim_chars(&a);
    if t.len() == 0 {
        String::from_str("手机发布")
    } else {
        string_of(&t)
    }
}

// ---------------------------------------------------------------- dates and files

/// `str::parse::<u32>`: as for `usize`, with a value that fits in a `u32`.
pub open spec fn parse_u32_spec(s: Seq<char>) -> Option<u32> {
    match parse_usize_spec(s) {
        Some(v) => if v <= u32::MAX {
            Some(v as u32)
        } else {
            None
        },
        None => None,
    }
}

/// The date used when the system date cannot be read.
pub open spec fn fallback_date() -> (i64, u32, u32) {
    (2026, 8, 23)
}

/// The date read from the output of `date +%F`: when the trimmed output is
/// ten bytes long, its bytes 0..4, 5..7 and 8..10 parsed as year, month
/// and day; otherwise, or when one does not parse, the fallback date.
pub open spec fn date_from_output_spec(s: Seq<char>) -> (i64, u32, u32) {
    let b = encode_utf8(trim(s));
    if b.len() == 10 {
        match (
            parse_i64_spec(decode_utf8(b.subrange(0, 4))),
            parse_u32_spec(decode_utf8(b.subrange(5, 7))),
            parse_u32_spec(decode_utf8(b.subrange(8, 10))),
        ) {
            (Some(y), Some(m), Some(d)) => (y, m, d),
            _ => fallback_date(),
        }
    } else {
        fallback_date()
    }
}

/// The byte offsets that the date is cut at all fall between characters
/// (else cutting there would panic).
pub open spec fn date_cuts_ok(s: Seq<char>) -> bool {
    let b = encode_utf8(trim(s));
    b.len() == 10 ==> is_char_boundary(b, 4) && is_char_boundary(b, 5) && is_char_boundary(b, 7)
        && is_char_boundary(b, 8)
}

fn parse_u32(s: &str) -> (r: Option<u32>)
    ensures
        r == parse_u32_spec(s@),
{
    match parse_usize(s) {
        Some(v) => if v <= 4294967295 {
            Some(v as u32)
        } else {
            None
        },
        None => None,
    }
}

/// The date read from the output of `date +%F` (see `date_from_output_spec`).
pub fn date_from_output(s: &str) -> (r: (i64, u32, u32))
    requires
        date_cuts_ok(s@),
    ensures
        r == date_from_output_spec(s@),
{
    broadcast use vstd::utf8::group_utf8_lib;
    let a = chars_of(s);
    let tv = trim_chars(&a);
    let t = string_of(&tv);
    let ts = t.as_str();
    if ts.as_bytes().len() != 10 {
        return (2026, 8, 23);
    }
    let ghost b = encode_utf8(tv@);
    assert(ts.spec_bytes() == b);
    let (y_s, r1) = ts.split_at(4);
    proof {
        vstd::utf8::is_char_boundary_iff_not_is_continuation_byte(b, 5);
        vstd::utf8::is_char_boundary_iff_not_is_continuation_byte(r1.spec_bytes(), 1);
        assert(r1.spec_bytes()[1] == b[5]);
    }
    let (_dash1, r2) = r1.split_at(1);
    proof {
        assert(r2.spec_bytes() =~= b.subrange(5, 10));
        vstd::utf8::is_char_boundary_iff_not_is_continuation_byte(b, 7);
        vstd::utf8::is_char_boundary_iff_not_is_continuation_byte(r2.spec_bytes(), 2);
        assert(r2.spec_bytes()[2] == b[7]);
    }
    let (m_s, r3) = r2.split_at(2);
    proof {
        assert(m_s.spec_bytes() =~= b.subrange(5, 7));
        assert(r3.spec_bytes() =~= b.subrange(7, 10));
        vstd::utf8::is_char_boundary_iff_not_is_continuation_byte(b, 8);
        vstd::utf8::is_char_boundary_iff_not_is_continuation_byte(r3.spec_bytes(), 1);
        assert(r3.spec_bytes()[1] == b[8]);
    }
    let (_dash2, d_s) = r3.split_at(1);
    proof {
        assert(d_s.spec_bytes() =~= b.subrange(8, 10));
        assert(decode_utf8(encode_utf8(y_s@)) == y_s@);
        assert(decode_utf8(encode_utf8(m_s@)) == m_s@);
        assert(decode_utf8(encode_utf8(d_s@)) == d_s@);
    }
    match (parse_i64(y_s), parse_u32(m_s), parse_u32(d_s)) {
        (Some(y), Some(m), Some(d)) => (y, m, d),
        _ => (2026, 8, 23),
    }
}

/// The file name of a new post: `base.md`, or `base-n.md` for the `n`-th
/// try when the first names were taken.
pub fn post_file_name(base: &str, n: Option<i64>) -> (r: String)
    ensures
        r@ == (match n {
            None => base@ + ".md"@,
            Some(k) => base@ + seq!['-'] + int_text(k as int) + ".md"@,
        }),
{
    let mut out: Vec<char> = Vec::new();
    push_str_chars(&mut out, base);
    match n {
        None => {},
        Some(k) => {
            out.push('-');
            push_int(&mut out, k);
        },
    }
    push_str_chars(&mut out, ".md");
    proof {
        match n {
            None => assert(out@ =~= base@ + ".md"@),
            Some(k) => assert(out@ =~= base@ + seq!['-'] + int_text(k as int) + ".md"@),
        }
    }
    string_of(&out)
}

} // verus!
