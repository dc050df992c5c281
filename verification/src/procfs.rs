//! Figures read from `/proc/self/status` and `/proc/self/stat`.

use vstd::prelude::*;
use crate::http::{parse_u64, parse_u64_spec};
use crate::text::{chars_of, is_whitespace, is_ws, slice_range, starts_with, starts_with_chars, string_of, strings_view};
use crate::html::{find_char, find_from, lemma_scans};

verus! {

/// First index at or after `i` that is not whitespace (or the end).
pub open spec fn skip_space_from(s: Seq<char>, i: int) -> int
    decreases s.len() - i,
{
    if 0 <= i < s.len() && is_ws(s[i]) {
        skip_space_from(s, i + 1)
    } else {
        i
    }
}

/// First index at or after `i` that is whitespace (or the end).
pub open spec fn word_stop_from(s: Seq<char>, i: int) -> int
    decreases s.len() - i,
{
    if 0 <= i < s.len() && !is_ws(s[i]) {
        word_stop_from(s, i + 1)
    } else {
        i
    }
}

proof fn lemma_space_scans(s: Seq<char>, i: int)
    requires
        0 <= i <= s.len(),
    ensures
        i <= skip_space_from(s, i) <= s.len(),
        i <= word_stop_from(s, i) <= s.len(),
        skip_space_from(s, i) < s.len() ==> !is_ws(s[skip_space_from(s, i)]),
    decreases s.len() - i,
{
    if i < s.len() {
        lemma_space_scans(s, i + 1);
    }
}

/// The whitespace-separated words of `s` from index `i` on
/// (`str::split_whitespace`).
pub open spec fn words_from(s: Seq<char>, i: int) -> Seq<Seq<char>>
    decreases s.len() - i,
{
    let a = skip_space_from(s, i);
    if 0 <= i <= a < s.len() {
        let b = word_stop_from(s, a);
        if a < b <= s.len() {
            seq![s.subrange(a, b)] + words_from(s, b)
        } else {
            Seq::empty()
        }
    } else {
        Seq::empty()
    }
}

fn skip_space(s: &[char], i: usize) -> (r: usize)
    requires
        i <= s@.len(),
    ensures
        r == skip_space_from(s@, i as int),
{
    let mut j = i;
    while j < s.len() && is_whitespace(s[j])
        invariant
            i <= j <= s@.len(),
            skip_space_from(s@, i as int) == skip_space_from(s@, j as int),
        decreases s@.len() - j,
    {
        j += 1;
    }
    j
}

fn word_stop(s: &[char], i: usize) -> (r: usize)
    requires
        i <= s@.len(),
    ensures
        r == word_stop_from(s@, i as int),
{
    let mut j = i;
    while j < s.len() && !is_whitespace(s[j])
        invariant
            i <= j <= s@.len(),
            word_stop_from(s@, i as int) == word_stop_from(s@, j as int),
        decreases s@.len() - j,
    {
        j += 1;
    }
    j
}

/// The whitespace-separated words of a text.
pub fn split_words(text: &str) -> (r: Vec<String>)
    ensures
        strings_view(r@) == words_from(text@, 0),
{
    let s = chars_of(text);
    let mut out: Vec<String> = Vec::new();
    let mut i: usize = 0;
    let mut done = false;
    assert(strings_view(out@) + words_from(text@, 0) =~= words_from(text@, 0));
    while !done
        invariant
            s@ == text@,
            !done ==> i <= s@.len() && words_from(text@, 0) == strings_view(out@) + words_from(text@, i as int),
            done ==> words_from(text@, 0) == strings_view(out@),
        decreases s@.len() + 1 - i, (if done { 0int } else { 1int }),
    {
        let a = skip_space(&s, i);
        proof { lemma_space_scans(s@, i as int); }
        if a >= s.len() {
            done = true;
            assert(strings_view(out@) + words_from(text@, i as int) =~= strings_view(out@));
        } else {
            let b = word_stop(&s, a);
            proof {
                lemma_space_scans(s@, a as int);
                lemma_space_scans(s@, a + 1);
                assert(!is_ws(s@[a as int]));
                assert(word_stop_from(s@, a as int) == word_stop_from(s@, a + 1));
            }
            let w = slice_range(&s, a, b);
            let ghost before = strings_view(out@);
            out.push(string_of(&w));
            assert(strings_view(out@) + words_from(text@, b as int)
                =~= before + (seq![w@] + words_from(text@, b as int)));
            i = b;
        }
    }
    out
}

/// The resident size (in KiB) given by the first `VmRSS:` line of a
/// status text from index `i` on: the first word after the label, parsed.
pub open spec fn vmrss_from(c: Seq<char>, i: int) -> Option<u64>
    decreases c.len() - i,
{
    if 0 <= i <= c.len() {
        let e = find_from(c, i, '\n');
        let line = c.subrange(i, e);
        if starts_with(line, "VmRSS:"@) {
            let w = words_from(line.skip(6), 0);
            if w.len() == 0 {
                None
            } else {
                parse_u64_spec(w[0])
            }
        } else if i <= e < c.len() {
            vmrss_from(c, e + 1)
        } else {
            None
        }
    } else {
        None
    }
}

/// The resident size in KiB from the text of `/proc/self/status`.
pub fn vmrss_kb(status: &str) -> (r: Option<u64>)
    ensures
        r == vmrss_from(status@, 0),
{
    let c = chars_of(status);
    let label = chars_of("VmRSS:");
    proof {
        reveal_strlit("VmRSS:");
    }
    let mut i: usize = 0;
    let mut done = false;
    while !done
        invariant
            c@ == status@,
            label@ == "VmRSS:"@,
            label@.len() == 6,
            !done ==> i <= c@.len() && vmrss_from(status@, 0) == vmrss_from(status@, i as int),
            done ==> vmrss_from(status@, 0) is None,
        decreases c@.len() + 1 - i, (if done { 0int } else { 1int }),
    {
        let e = find_char(&c, i, '\n');
        proof { lemma_scans(c@, i as int, '\n'); }
        let line = slice_range(&c, i, e);
        if starts_with_chars(&line, &label) {
            let rest = slice_range(&line, 6, line.len());
            assert(rest@ =~= line@.skip(6));
            let rs = string_of(&rest);
            let words = split_words(rs.as_str());
            if words.len() == 0 {
                return None;
            }
            assert(words@[0]@ == strings_view(words@)[0]);
            return parse_u64(words[0].as_str());
        }
        if e < c.len() {
            i = e + 1;
        } else {
            done = true;
        }
    }
    None
}

/// User and system CPU ticks from the text of `/proc/self/stat`: its
/// 14th and 15th words, each 0 when it does not parse; both 0 when there
/// are no more than 14 words.
pub open spec fn stat_ticks_spec(stat: Seq<char>) -> (u64, u64) {
    let p = words_from(stat, 0);
    if p.len() > 14 {
        (
            match parse_u64_spec(p[13]) {
                Some(v) => v,
                None => 0,
            },
            match parse_u64_spec(p[14]) {
                Some(v) => v,
                None => 0,
            },
        )
    } else {
        (0, 0)
    }
}

/// User and system CPU ticks (see `stat_ticks_spec`).
pub fn stat_ticks(stat: &str) -> (r: (u64, u64))
    ensures
        r == stat_ticks_spec(stat@),
{
    let p = split_words(stat);
    if p.len() > 14 {
        assert(p@[13]@ == strings_view(p@)[13]);
        assert(p@[14]@ == strings_view(p@)[14]);
        let u = match parse_u64(p[13].as_str()) {
            Some(v) => v,
            None => 0,
        };
        let s = match parse_u64(p[14].as_str()) {
            Some(v) => v,
            None => 0,
        };
        (u, s)
    } else {
        (0, 0)
    }
}

} // verus!
