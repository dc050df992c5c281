//! The CPU list of the `BLOG_CPUS` setting, such as `0-3` or `0,2,4-5`.

use vstd::prelude::*;
use crate::html::{find_char, find_from, lemma_scans};
use crate::http::{parse_usize, parse_usize_spec};
use crate::text::{chars_of, slice_range, string_of};

verus! {

/// `a, a+1, ..., b` (empty when `b < a`).
pub open spec fn cpu_range(a: usize, b: usize) -> Seq<usize> {
    Seq::new(if b >= a { (b - a + 1) as nat } else { 0 }, |k: int| (a + k) as usize)
}

/// The CPUs named by one comma-separated part: `a-b` (split at its first
/// `-`) names a range, a number names itself, anything else nothing.
pub open spec fn cpu_part(part: Seq<char>) -> Seq<usize> {
    let dash = find_from(part, 0, '-');
    if dash < part.len() {
        match (parse_usize_spec(part.take(dash)), parse_usize_spec(part.skip(dash + 1))) {
            (Some(a), Some(b)) => cpu_range(a, b),
            _ => Seq::empty(),
        }
    } else {
        match parse_usize_spec(part) {
            Some(a) => seq![a],
            None => Seq::empty(),
        }
    }
}

/// The CPUs named by the parts of `s` from index `i` on, in order.
pub open spec fn cpus_from(s: Seq<char>, i: int) -> Seq<usize>
    decreases s.len() - i,
{
    if 0 <= i <= s.len() {
        let e = find_from(s, i, ',');
        cpu_part(s.subrange(i, e)) + if i <= e < s.len() {
            cpus_from(s, e + 1)
        } else {
            Seq::empty()
        }
    } else {
        Seq::empty()
    }
}

fn push_range(out: &mut Vec<usize>, a: usize, b: usize)
    ensures
        final(out)@ == old(out)@ + cpu_range(a, b),
{
    let ghost start = out@;
    if b < a {
        assert(cpu_range(a, b) =~= Seq::<usize>::empty());
        assert(out@ =~= start + cpu_range(a, b));
        return;
    }
    let mut i = a;
    loop
        invariant_except_break
            out@ == start + cpu_range(a, b).take(i - a),
        invariant
            a <= i <= b,
        ensures
            out@ == start + cpu_range(a, b),
        decreases b - i,
    {
        out.push(i);
        assert(out@ =~= start + cpu_range(a, b).take(i - a + 1));
        if i == b {
            assert(cpu_range(a, b).take(b - a + 1) =~= cpu_range(a, b));
            break;
        }
        i += 1;
    }
}

fn cpu_part_exec(out: &mut Vec<usize>, part: &[char])
    ensures
        final(out)@ == old(out)@ + cpu_part(part@),
{
    let ghost start = out@;
    let dash = find_char(part, 0, '-');
    proof { lemma_scans(part@, 0, '-'); }
    if dash < part.len() {
        let a0 = slice_range(part, 0, dash);
        let b0 = slice_range(part, dash + 1, part.len());
        assert(a0@ =~= part@.take(dash as int));
        assert(b0@ =~= part@.skip(dash + 1));
        let a_s = string_of(&a0);
        let b_s = string_of(&b0);
        match (parse_usize(a_s.as_str()), parse_usize(b_s.as_str())) {
            (Some(a), Some(b)) => push_range(out, a, b),
            _ => {
                assert(out@ =~= start + Seq::<usize>::empty());
            },
        }
    } else {
        let p_s = string_of(part);
        match parse_usize(p_s.as_str()) {
            Some(a) => {
                out.push(a);
                assert(out@ =~= start + seq![a]);
            },
            None => {
                assert(out@ =~= start + Seq::<usize>::empty());
            },
        }
    }
}

/// The CPUs a setting such as `0-3,6` names, in order (see `cpus_from`).
pub fn parse_cpu_list(spec: &str) -> (r: Vec<usize>)
    ensures
        r@ == cpus_from(spec@, 0),
{
    let c = chars_of(spec);
    let mut out: Vec<usize> = Vec::new();
    let mut i: usize = 0;
    let mut done = false;
    assert(out@ + cpus_from(spec@, 0) =~= cpus_from(spec@, 0));
    while !done
        invariant
            c@ == spec@,
            !done ==> i <= c@.len() && cpus_from(spec@, 0) == out@ + cpus_from(spec@, i as int),
            done ==> cpus_from(spec@, 0) == out@,
        decreases c@.len() + 1 - i, (if done { 0int } else { 1int }),
    {
        let ghost before = out@;
        let e = find_char(&c, i, ',');
        proof { lemma_scans(c@, i as int, ','); }
        let part = slice_range(&c, i, e);
        cpu_part_exec(&mut out, &part);
        proof {
            if e < c@.len() {
                assert(out@ + cpus_from(spec@, e + 1) =~= before + (cpu_part(part@) + cpus_from(spec@, e + 1)));
            } else {
                assert(cpu_part(part@) + Seq::<usize>::empty() =~= cpu_part(part@));
            }
        }
        if e < c.len() {
            i = e + 1;
        } else {
            done = true;
        }
    }
    out
}

} // verus!
