//! The server configuration file: `key=value` lines.

use vstd::prelude::*;
use std::path::PathBuf;
use crate::html::{find_char, find_from, lemma_scans};
use crate::sha256::{hex_lower, is_hex_lower_digit, lemma_hex_lower_shape};
use crate::text::{chars_of, eq_str, is_ws, push_str_chars, slice_range, string_of, trim, trim_chars};

verus! {

/// The filesystem path type of std, carried through opaquely.
#[verifier::external_type_specification]
#[verifier::external_body]
pub struct ExPathBuf(PathBuf);

/// std's `PathBuf::clone`, so that a configuration can be cloned; nothing
/// is claimed about the copy.
pub assume_specification[ <PathBuf as Clone>::clone ](p: &PathBuf) -> PathBuf;

/// The user name assumed when the file names none.
pub const DEFAULT_USERNAME: &'static str = "admin";

/// The password whose hash a freshly written configuration holds.
pub const DEFAULT_PASSWORD: &'static str = "change-me-on-first-login";

/// The server configuration.
#[derive(Clone)]
pub struct Config {
    pub username: String,
    pub password_sha256: String,
    pub root: PathBuf,
}

/// The user name and password hash after reading the lines of `c` from
/// index `i`, starting from `user` and `pw`: each line is trimmed; blank
/// lines and `#` comments are skipped; a `key=value` line (split at its
/// first `=`, both sides trimmed) sets `username` or `password_sha256`,
/// other keys are ignored. A later line overrides an earlier one.
pub open spec fn config_from(c: Seq<char>, i: int, user: Seq<char>, pw: Seq<char>) -> (Seq<char>, Seq<char>)
    decreases c.len() - i,
{
    if 0 <= i <= c.len() {
        let e = find_from(c, i, '\n');
        let line = trim(c.subrange(i, e));
        let (u2, p2) = config_line(line, user, pw);
        if i <= e < c.len() {
            config_from(c, e + 1, u2, p2)
        } else {
            (u2, p2)
        }
    } else {
        (user, pw)
    }
}

/// The effect of one trimmed line on the user name and password hash.
pub open spec fn config_line(line: Seq<char>, user: Seq<char>, pw: Seq<char>) -> (Seq<char>, Seq<char>) {
    if line.len() == 0 || line[0] == '#' {
        (user, pw)
    } else {
        let eq = find_from(line, 0, '=');
        if eq < line.len() {
            let k = trim(line.take(eq));
            let v = trim(line.skip(eq + 1));
            if k == "username"@ {
                (v, pw)
            } else if k == "password_sha256"@ {
                (user, v)
            } else {
                (user, pw)
            }
        } else {
            (user, pw)
        }
    }
}

/// What `parse_config` finds in a configuration text: the user name
/// (`admin` by default) and the password hash (empty by default).
pub open spec fn config_values(c: Seq<char>) -> (Seq<char>, Seq<char>) {
    config_from(c, 0, "admin"@, Seq::empty())
}

fn config_line_exec(line: &[char], user: Vec<char>, pw: Vec<char>) -> (r: (Vec<char>, Vec<char>))
    ensures
        (r.0@, r.1@) == config_line(line@, user@, pw@),
{
    if line.len() == 0 || line[0] == '#' {
        return (user, pw);
    }
    let eq = find_char(line, 0, '=');
    proof { lemma_scans(line@, 0, '='); }
    if eq < line.len() {
        let k0 = slice_range(line, 0, eq);
        let v0 = slice_range(line, eq + 1, line.len());
        assert(k0@ =~= line@.take(eq as int));
        assert(v0@ =~= line@.skip(eq + 1));
        let k = trim_chars(&k0);
        let v = trim_chars(&v0);
        if eq_str(&k, "username") {
            (v, pw)
        } else if eq_str(&k, "password_sha256") {
            (user, v)
        } else {
            (user, pw)
        }
    } else {
        (user, pw)
    }
}

/// Reads the configuration text; `root` is the site directory. Refused
/// when no non-empty `password_sha256` is set.
pub fn parse_config(content: &str, root: PathBuf) -> (r: Result<Config, String>)
    ensures
        r matches Ok(cfg) ==> cfg.username@ == config_values(content@).0
            && cfg.password_sha256@ == config_values(content@).1 && cfg.password_sha256@.len() > 0 && cfg.root == root,
        r matches Err(e) ==> config_values(content@).1.len() == 0 && e@ == "password_sha256 is empty"@,
{
    let c = chars_of(content);
    let mut user = chars_of("admin");
    let mut pw: Vec<char> = Vec::new();
    let mut i: usize = 0;
    let mut done = false;
    while !done
        invariant
            c@ == content@,
            !done ==> i <= c@.len() && config_values(content@) == config_from(c@, i as int, user@, pw@),
            done ==> config_values(content@) == (user@, pw@),
        decreases c@.len() + 1 - i, (if done { 0int } else { 1int }),
    {
        let e = find_char(&c, i, '\n');
        proof { lemma_scans(c@, i as int, '\n'); }
        let raw = slice_range(&c, i, e);
        let line = trim_chars(&raw);
        let (u2, p2) = config_line_exec(&line, user, pw);
        user = u2;
        pw = p2;
        if e < c.len() {
            i = e + 1;
        } else {
            done = true;
        }
    }
    if pw.len() == 0 {
        return Err(String::from_str("password_sha256 is empty"));
    }
    Ok(Config { username: string_of(&user), password_sha256: string_of(&pw), root })
}

/// The text of the configuration written on first start: comments, the
/// default user name and the given password hash.
pub open spec fn default_config_spec(hash: Seq<char>) -> Seq<char> {
    "# JerryHang blog static server config\n# Change `password_sha256` to protect your blog.\n# Generate a new hash with:  blog_server --hash <YOUR_PASSWORD>\nusername="@
        + "admin"@ + "\npassword_sha256="@ + hash + "\n"@
}

/// The configuration text written on first start.
pub fn default_config_text(hash: &str) -> (r: String)
    ensures
        r@ == default_config_spec(hash@),
{
    let mut out: Vec<char> = Vec::new();
    push_str_chars(&mut out, "# JerryHang blog static server config\n# Change `password_sha256` to protect your blog.\n# Generate a new hash with:  blog_server --hash <YOUR_PASSWORD>\nusername=");
    push_str_chars(&mut out, DEFAULT_USERNAME);
    push_str_chars(&mut out, "\npassword_sha256=");
    push_str_chars(&mut out, hash);
    push_str_chars(&mut out, "\n");
    assert(out@ =~= default_config_spec(hash@));
    string_of(&out)
}

proof fn lemma_find_is(s: Seq<char>, i: int, k: int, q: char)
    requires
        0 <= i <= k <= s.len(),
        forall|j: int| i <= j < k ==> s[j] != q,
        k < s.len() ==> s[k] == q,
    ensures
        find_from(s, i, q) == k,
    decreases k - i,
{
    if i < k {
        lemma_find_is(s, i + 1, k, q);
    }
}

proof fn lemma_find_shift(a: Seq<char>, r: Seq<char>, j: int, q: char)
    requires
        0 <= j <= r.len(),
    ensures
        find_from(a + r, a.len() + j, q) == a.len() + find_from(r, j, q),
    decreases r.len() - j,
{
    if j < r.len() {
        assert((a + r)[a.len() + j] == r[j]);
        lemma_find_shift(a, r, j + 1, q);
    }
}

proof fn lemma_config_shift(a: Seq<char>, r: Seq<char>, j: int, u: Seq<char>, p: Seq<char>)
    requires
        0 <= j <= r.len(),
    ensures
        config_from(a + r, a.len() + j, u, p) == config_from(r, j, u, p),
    decreases r.len() - j,
{
    let c = a + r;
    lemma_find_shift(a, r, j, '\n');
    lemma_scans(r, j, '\n');
    let e = find_from(r, j, '\n');
    assert(c.subrange(a.len() + j, a.len() + e) =~= r.subrange(j, e));
    let (u2, p2) = config_line(trim(r.subrange(j, e)), u, p);
    if e < r.len() {
        lemma_config_shift(a, r, e + 1, u2, p2);
    }
}

proof fn lemma_config_step(l: Seq<char>, r: Seq<char>, u: Seq<char>, p: Seq<char>)
    requires
        forall|j: int| 0 <= j < l.len() ==> l[j] != '\n',
    ensures
        config_from(l + seq!['\n'] + r, 0, u, p) == config_from(r, 0, config_line(trim(l), u, p).0, config_line(trim(l), u, p).1),
{
    let c = l + seq!['\n'] + r;
    lemma_find_is(c, 0, l.len() as int, '\n');
    assert(c.subrange(0, l.len() as int) =~= l);
    let a = l + seq!['\n'];
    assert(c =~= a + r);
    lemma_config_shift(a, r, 0, config_line(trim(l), u, p).0, config_line(trim(l), u, p).1);
}

proof fn lemma_trim_fixed(s: Seq<char>)
    requires
        s.len() > 0,
        !is_ws(s[0]),
        !is_ws(s.last()),
    ensures
        trim(s) == s,
{
}

proof fn lemma_trim_ends(h: Seq<char>)
    requires
        trim(h) == h,
        h.len() > 0,
    ensures
        !is_ws(h[0]),
        !is_ws(h.last()),
{
    lemma_trim_start_shrinks(h);
    lemma_trim_end_shrinks(crate::text::trim_start(h));
    if is_ws(h[0]) {
        assert(crate::text::trim_start(h) == crate::text::trim_start(h.drop_first()));
        lemma_trim_start_shrinks(h.drop_first());
    }
    if crate::text::trim_start(h) == h && is_ws(h.last()) {
        assert(crate::text::trim_end(h) == crate::text::trim_end(h.drop_last()));
        lemma_trim_end_shrinks(h.drop_last());
    }
}

proof fn lemma_trim_start_shrinks(s: Seq<char>)
    ensures
        crate::text::trim_start(s).len() <= s.len(),
    decreases s.len(),
{
    if s.len() > 0 && is_ws(s[0]) {
        lemma_trim_start_shrinks(s.drop_first());
    }
}

proof fn lemma_trim_end_shrinks(s: Seq<char>)
    ensures
        crate::text::trim_end(s).len() <= s.len(),
    decreases s.len(),
{
    if s.len() > 0 && is_ws(s.last()) {
        lemma_trim_end_shrinks(s.drop_last());
    }
}

/// Configuration law: the configuration written on first start reads back
/// as user `admin` with the hash it was written with, for any hash that is
/// one line, non-empty and without surrounding whitespace (as the
/// hexadecimal SHA-256 text always is).
pub proof fn law_default_config_reads_back(h: Seq<char>)
    requires
        h.len() > 0,
        trim(h) == h,
        forall|j: int| 0 <= j < h.len() ==> h[j] != '\n',
    ensures
        config_values(default_config_spec(h)) == ("admin"@, h),
{
    reveal_strlit("# JerryHang blog static server config\n# Change `password_sha256` to protect your blog.\n# Generate a new hash with:  blog_server --hash <YOUR_PASSWORD>\nusername=");
    reveal_strlit("admin");
    reveal_strlit("\npassword_sha256=");
    reveal_strlit("\n");
    reveal_strlit("username");
    reveal_strlit("password_sha256");
    let l1 = "# JerryHang blog static server config"@;
    let l2 = "# Change `password_sha256` to protect your blog."@;
    let l3 = "# Generate a new hash with:  blog_server --hash <YOUR_PASSWORD>"@;
    let l4 = "username=admin"@;
    let l5 = "password_sha256="@ + h;
    reveal_strlit("# JerryHang blog static server config");
    reveal_strlit("# Change `password_sha256` to protect your blog.");
    reveal_strlit("# Generate a new hash with:  blog_server --hash <YOUR_PASSWORD>");
    reveal_strlit("username=admin");
    reveal_strlit("password_sha256=");
    let nl = seq!['\n'];
    let empty = Seq::<char>::empty();
    let r5 = l5 + nl + empty;
    let r4 = l4 + nl + r5;
    let r3 = l3 + nl + r4;
    let r2 = l2 + nl + r3;
    let text = l1 + nl + r2;
    assert(text =~= default_config_spec(h));
    lemma_trim_ends(h);
    // the three comment lines change nothing
    lemma_trim_fixed(l1);
    lemma_trim_fixed(l2);
    lemma_trim_fixed(l3);
    lemma_config_step(l1, r2, "admin"@, empty);
    lemma_config_step(l2, r3, "admin"@, empty);
    lemma_config_step(l3, r4, "admin"@, empty);
    // username=admin
    lemma_trim_fixed(l4);
    lemma_find_is(l4, 0, 8, '=');
    assert(l4.take(8) =~= "username"@);
    assert(l4.skip(9) =~= "admin"@);
    lemma_trim_fixed("username"@);
    lemma_trim_fixed("admin"@);
    lemma_config_step(l4, r5, "admin"@, empty);
    assert(config_line(trim(l4), "admin"@, empty) == ("admin"@, empty));
    // password_sha256=<h>
    assert(l5.last() == h.last());
    lemma_trim_fixed(l5);
    lemma_find_is(l5, 0, 15, '=');
    assert(l5.take(15) =~= "password_sha256"@);
    assert(l5.skip(16) =~= h);
    lemma_trim_fixed("password_sha256"@);
    assert(forall|j: int| 0 <= j < l5.len() ==> l5[j] != '\n') by {
        assert forall|j: int| 0 <= j < l5.len() implies l5[j] != '\n' by {
            if j >= 16 {
                assert(l5[j] == h[j - 16]);
            }
        }
    }
    lemma_config_step(l5, empty, "admin"@, empty);
    assert("username"@ != "password_sha256"@);
    assert(config_line(trim(l5), "admin"@, empty) == ("admin"@, h));
    assert(config_from(empty, 0, "admin"@, h) == ("admin"@, h)) by {
        assert(find_from(empty, 0, '\n') == 0);
        assert(trim(empty.subrange(0, 0)) =~= empty);
    }
}

/// Configuration law for the file written on first start: whatever the
/// password, the default text holding the hexadecimal form of its digest
/// reads back as user `admin` with that hash, which is non-empty, so the
/// configuration is accepted.
pub proof fn law_default_hash_config_reads_back(d: Seq<u8>)
    requires
        d.len() > 0,
    ensures
        config_values(default_config_spec(hex_lower(d))) == ("admin"@, hex_lower(d)),
        config_values(default_config_spec(hex_lower(d))).1.len() > 0,
{
    let h = hex_lower(d);
    lemma_hex_lower_shape(d);
    assert(is_hex_lower_digit(h[0]));
    assert(is_hex_lower_digit(h[h.len() - 1]));
    lemma_trim_fixed(h);
    assert forall|j: int| 0 <= j < h.len() implies h[j] != '\n' by {
        assert(is_hex_lower_digit(h[j]));
    }
    law_default_config_reads_back(h);
}

proof fn lemma_config_append(c: Seq<char>, l: Seq<char>, i: int, u: Seq<char>, p: Seq<char>)
    requires
        0 <= i <= c.len(),
        forall|j: int| 0 <= j < l.len() ==> l[j] != '\n',
    ensures
        config_from(c + seq!['\n'] + l, i, u, p) == config_line(
            trim(l),
            config_from(c, i, u, p).0,
            config_from(c, i, u, p).1,
        ),
    decreases c.len() - i,
{
    let t = c + seq!['\n'] + l;
    lemma_scans(c, i, '\n');
    let e = find_from(c, i, '\n');
    assert forall|j: int| i <= j < e implies t[j] != '\n' by {
        assert(t[j] == c[j]);
    }
    lemma_find_is(t, i, e, '\n');
    assert(t.subrange(i, e) =~= c.subrange(i, e));
    let (u2, p2) = config_line(trim(c.subrange(i, e)), u, p);
    assert(find_from(t, i, '\n') == e);
    if e < c.len() {
        lemma_config_append(c, l, e + 1, u2, p2);
        assert(config_from(c, i, u, p) == config_from(c, e + 1, u2, p2));
        assert(config_from(t, i, u, p) == config_from(t, e + 1, u2, p2));
    } else {
        let k: int = c.len() as int + 1;
        assert forall|j: int| k <= j < t.len() implies t[j] != '\n' by {
            assert(t[j] == l[j - k]);
        }
        lemma_find_is(t, k, t.len() as int, '\n');
        assert(t.subrange(k, t.len() as int) =~= l);
        assert(config_from(c, i, u, p) == (u2, p2));
        assert(config_from(t, k, u2, p2) == config_line(trim(l), u2, p2));
        assert(config_from(t, i, u, p) == config_from(t, k, u2, p2));
    }
}

/// Key law: in a configuration line `key=value` (split at its first `=`),
/// a `username` key sets the user name and a `password_sha256` key sets
/// the hash, each to the trimmed value and whatever was read before; any
/// other key changes nothing. So the order of the two keys' lines does not
/// matter.
pub proof fn law_config_keys(k: Seq<char>, v: Seq<char>, user: Seq<char>, pw: Seq<char>)
    requires
        !k.contains('='),
        k.len() > 0 ==> k[0] != '#',
    ensures
        trim(k) == "username"@ ==> config_line(k + seq!['='] + v, user, pw) == (trim(v), pw),
        trim(k) == "password_sha256"@ ==> config_line(k + seq!['='] + v, user, pw) == (user, trim(v)),
        trim(k) != "username"@ && trim(k) != "password_sha256"@ ==> config_line(k + seq!['='] + v, user, pw) == (
        user,
        pw,
        ),
{
    reveal_strlit("username");
    reveal_strlit("password_sha256");
    assert("username"@ =~= seq!['u', 's', 'e', 'r', 'n', 'a', 'm', 'e']);
    let line = k + seq!['='] + v;
    assert(line[0] != '#') by {
        if k.len() == 0 {
            assert(line[0] == '=');
        } else {
            assert(line[0] == k[0]);
        }
    }
    assert forall|j: int| 0 <= j < k.len() implies line[j] != '=' by {
        assert(line[j] == k[j]);
        if k[j] == '=' {
            assert(k.contains('='));
        }
    }
    lemma_find_is(line, 0, k.len() as int, '=');
    assert(line.take(k.len() as int) =~= k);
    assert(line.skip(k.len() as int + 1) =~= v);
}

/// Order law for two key lines: a `username` line and a `password_sha256`
/// line give the same user name and hash in either order.
pub proof fn law_config_key_order(ku: Seq<char>, vu: Seq<char>, kp: Seq<char>, vp: Seq<char>, user: Seq<char>, pw: Seq<char>)
    requires
        !ku.contains('='),
        !kp.contains('='),
        ku.len() > 0 ==> ku[0] != '#',
        kp.len() > 0 ==> kp[0] != '#',
        trim(ku) == "username"@,
        trim(kp) == "password_sha256"@,
    ensures
        ({
            let lu = ku + seq!['='] + vu;
            let lp = kp + seq!['='] + vp;
            let a = config_line(lu, user, pw);
            let b = config_line(lp, user, pw);
            config_line(lp, a.0, a.1) == config_line(lu, b.0, b.1) && config_line(lp, a.0, a.1) == (trim(vu), trim(vp))
        }),
{
    law_config_keys(ku, vu, user, pw);
    law_config_keys(kp, vp, user, pw);
    law_config_keys(ku, vu, user, trim(vp));
    law_config_keys(kp, vp, trim(vu), pw);
}

/// Last-line law: a configuration text that ends with the line
/// `username=<v>` reads the user name `v`, whatever came before it (a
/// `password_sha256` line included); one that ends with
/// `password_sha256=<h>` reads the hash `h` and keeps the user name of the
/// text before it. (`v` is one line without surrounding whitespace.)
pub proof fn law_config_last_line_wins(c: Seq<char>, v: Seq<char>)
    requires
        forall|j: int| 0 <= j < v.len() ==> v[j] != '\n',
        trim(v) == v,
    ensures
        config_values(c + seq!['\n'] + ("username="@ + v)).0 == v,
        config_values(c + seq!['\n'] + ("password_sha256="@ + v)) == (config_values(c).0, v),
{
    reveal_strlit("username=");
    reveal_strlit("password_sha256=");
    reveal_strlit("username");
    reveal_strlit("password_sha256");
    let lu = "username="@ + v;
    let lp = "password_sha256="@ + v;
    let ku = "username"@;
    let kp = "password_sha256"@;
    assert(lu =~= ku + seq!['='] + v);
    assert(lp =~= kp + seq!['='] + v);
    assert forall|j: int| 0 <= j < lu.len() implies lu[j] != '\n' by {
        if j >= 9 {
            assert(lu[j] == v[j - 9]);
        }
    }
    assert forall|j: int| 0 <= j < lp.len() implies lp[j] != '\n' by {
        if j >= 16 {
            assert(lp[j] == v[j - 16]);
        }
    }
    lemma_config_append(c, lu, 0, "admin"@, Seq::empty());
    lemma_config_append(c, lp, 0, "admin"@, Seq::empty());
    assert(!ku.contains('=')) by {
        if ku.contains('=') {
            let j = choose|j: int| 0 <= j < ku.len() && ku[j] == '=';
        }
    }
    assert(!kp.contains('=')) by {
        if kp.contains('=') {
            let j = choose|j: int| 0 <= j < kp.len() && kp[j] == '=';
        }
    }
    lemma_trim_fixed(ku);
    lemma_trim_fixed(kp);
    if v.len() > 0 {
        lemma_trim_ends(v);
        assert(lu.last() == v.last());
        assert(lp.last() == v.last());
    }
    lemma_trim_fixed(lu);
    lemma_trim_fixed(lp);
    assert(config_values(c) == config_from(c, 0, "admin"@, Seq::empty()));
    let (cu, cp) = config_values(c);
    law_config_keys(ku, v, cu, cp);
    law_config_keys(kp, v, cu, cp);
}

} // verus!
