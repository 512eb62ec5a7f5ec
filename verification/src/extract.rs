//! Text primitives of the metadata format: whitespace trimming, the
//! `key = value` line reader, and splitting a dependency string into its
//! bare package name and its version-constraint suffix.

use vstd::prelude::*;
use vstd::string::StrSliceExecFns;

verus! {

/// Characters allowed in a bare package name within a dependency string.
pub open spec fn is_pkgname_char(c: char) -> bool {
    ('a' <= c && c <= 'z') || ('A' <= c && c <= 'Z') || ('0' <= c && c <= '9') || c == '@' || c
        == '.' || c == '_' || c == '+' || c == '-'
}

/// ASCII whitespace, as the metadata format uses it around `=` and values.
pub open spec fn is_space(c: char) -> bool {
    c == ' ' || c == '\t' || c == '\n' || c == '\r'
}

/// First index at or after `i` whose character fails `is_pkgname_char`, or the length.
pub open spec fn pkgname_prefix_end_from(s: Seq<char>, i: int) -> int
    recommends
        0 <= i <= s.len(),
    decreases s.len() - i,
{
    if i < 0 || i >= s.len() || !is_pkgname_char(s[i]) {
        i
    } else {
        pkgname_prefix_end_from(s, i + 1)
    }
}

/// Length of the maximal leading run of package-name characters.
pub open spec fn pkgname_prefix_end(s: Seq<char>) -> int {
    pkgname_prefix_end_from(s, 0)
}

proof fn lemma_pkgname_prefix_end_from(s: Seq<char>, k: int, i: int)
    requires
        0 <= k <= i <= s.len(),
        forall|j: int| k <= j < i ==> is_pkgname_char(s[j]),
        i == s.len() || !is_pkgname_char(s[i]),
    ensures
        pkgname_prefix_end_from(s, k) == i,
    decreases i - k,
{
    if k < i {
        lemma_pkgname_prefix_end_from(s, k + 1, i);
    }
}

/// First index at or after `i` whose character is not whitespace, or the length.
pub open spec fn trim_start_idx_from(s: Seq<char>, i: int) -> int
    recommends
        0 <= i <= s.len(),
    decreases s.len() - i,
{
    if i < 0 || i >= s.len() || !is_space(s[i]) {
        i
    } else {
        trim_start_idx_from(s, i + 1)
    }
}

/// The sequence with leading whitespace removed.
pub open spec fn spec_trim_start(s: Seq<char>) -> Seq<char> {
    s.skip(trim_start_idx_from(s, 0))
}

/// One past the last non-whitespace character, or zero.
pub open spec fn trim_end_idx(s: Seq<char>) -> int
    decreases s.len(),
{
    if s.len() == 0 || !is_space(s.last()) {
        s.len() as int
    } else {
        trim_end_idx(s.drop_last())
    }
}

/// The sequence with trailing whitespace removed.
pub open spec fn spec_trim_end(s: Seq<char>) -> Seq<char> {
    s.take(trim_end_idx(s))
}

/// The sequence with whitespace removed at both ends.
pub open spec fn spec_trim(s: Seq<char>) -> Seq<char> {
    spec_trim_end(spec_trim_start(s))
}

proof fn lemma_trim_start_idx_from(s: Seq<char>, k: int, i: int)
    requires
        0 <= k <= i <= s.len(),
        forall|j: int| k <= j < i ==> is_space(s[j]),
        i == s.len() || !is_space(s[i]),
    ensures
        trim_start_idx_from(s, k) == i,
    decreases i - k,
{
    if k < i {
        lemma_trim_start_idx_from(s, k + 1, i);
    }
}

proof fn lemma_trim_end_idx(s: Seq<char>, i: int)
    requires
        0 <= i <= s.len(),
        forall|j: int| i <= j < s.len() ==> is_space(s[j]),
        i == 0 || !is_space(s[i - 1]),
    ensures
        trim_end_idx(s) == i,
    decreases s.len(),
{
    if s.len() > 0 && is_space(s.last()) {
        assert(s.drop_last() =~= s.take(s.len() - 1));
        lemma_trim_end_idx(s.drop_last(), i);
    }
}

/// Remove leading whitespace.
pub fn trim_start(s: &str) -> (r: &str)
    ensures
        r@ == spec_trim_start(s@),
{
    let n: usize = s.unicode_len();
    let mut i: usize = 0;
    while i < n && is_space_exec(s.get_char(i))
        invariant
            0 <= i <= n,
            n == s@.len(),
            forall|j: int| 0 <= j < i ==> is_space(s@[j]),
        decreases n - i,
    {
        i = i + 1;
    }
    proof {
        lemma_trim_start_idx_from(s@, 0, i as int);
    }
    s.substring_char(i, n)
}

/// Remove trailing whitespace.
pub fn trim_end(s: &str) -> (r: &str)
    ensures
        r@ == spec_trim_end(s@),
{
    let n: usize = s.unicode_len();
    let mut i: usize = n;
    while i > 0 && is_space_exec(s.get_char(i - 1))
        invariant
            0 <= i <= n,
            n == s@.len(),
            forall|j: int| i <= j < n ==> is_space(s@[j]),
        decreases i,
    {
        i = i - 1;
    }
    proof {
        lemma_trim_end_idx(s@, i as int);
    }
    s.substring_char(0, i)
}

/// Remove whitespace at both ends.
pub fn trim(s: &str) -> (r: &str)
    ensures
        r@ == spec_trim(s@),
{
    trim_end(trim_start(s))
}

/// Whether `c` is ASCII whitespace.
pub fn is_space_exec(c: char) -> (r: bool)
    ensures
        r == is_space(c),
{
    c == ' ' || c == '\t' || c == '\n' || c == '\r'
}

/// Whether `c` may appear in a bare package name.
pub fn is_pkgname_char_exec(c: char) -> (r: bool)
    ensures
        r == is_pkgname_char(c),
{
    ('a' <= c && c <= 'z') || ('A' <= c && c <= 'Z') || ('0' <= c && c <= '9') || c == '@' || c
        == '.' || c == '_' || c == '+' || c == '-'
}

/// Whether two string slices hold the same characters.
pub fn str_eq(a: &str, b: &str) -> (r: bool)
    ensures
        r == (a@ == b@),
{
    let na: usize = a.unicode_len();
    let nb: usize = b.unicode_len();
    if na != nb {
        return false;
    }
    let mut i: usize = 0;
    while i < na
        invariant
            0 <= i <= na,
            na == a@.len(),
            na == b@.len(),
            forall|j: int| 0 <= j < i ==> a@[j] == b@[j],
        decreases na - i,
    {
        if a.get_char(i) != b.get_char(i) {
            assert(a@ != b@);
            return false;
        }
        i = i + 1;
    }
    proof {
        assert(a@ =~= b@);
    }
    true
}

/// Whether `s` begins with the characters of `prefix`.
pub fn starts_with_str(s: &str, prefix: &str) -> (r: bool)
    ensures
        r == (prefix@.len() <= s@.len() && s@.take(prefix@.len() as int) == prefix@),
{
    let n: usize = s.unicode_len();
    let p: usize = prefix.unicode_len();
    if p > n {
        return false;
    }
    let head = s.substring_char(0, p);
    str_eq(head, prefix)
}

/// Split a dependency string at the first character that cannot belong to a
/// package name: the first part is the bare name, the second the remainder
/// (such as a version-constraint clause).
pub fn extract_pkgname_prefix(text: &str) -> (r: (&str, &str))
    ensures
        r.0@ == text@.take(pkgname_prefix_end(text@)),
        r.1@ == text@.skip(pkgname_prefix_end(text@)),
        forall|j: int| 0 <= j < r.0@.len() ==> is_pkgname_char(r.0@[j]),
        r.1@.len() > 0 ==> !is_pkgname_char(r.1@[0]),
        r.0@ + r.1@ == text@,
{
    let n: usize = text.unicode_len();
    let mut i: usize = 0;
    while i < n && is_pkgname_char_exec(text.get_char(i))
        invariant
            0 <= i <= n,
            n == text@.len(),
            forall|j: int| 0 <= j < i ==> is_pkgname_char(text@[j]),
        decreases n - i,
    {
        i = i + 1;
    }
    proof {
        lemma_pkgname_prefix_end_from(text@, 0, i as int);
        assert(text@.take(i as int) + text@.skip(i as int) =~= text@);
    }
    (text.substring_char(0, i), text.substring_char(i, n))
}

/// What `extract_value_from_line` returns: trim the line; require the trimmed
/// line to start with `prefix` followed (after whitespace) by `=`; the value is
/// what follows the `=`, trimmed.
pub open spec fn spec_extract_value(prefix: Seq<char>, line: Seq<char>) -> Option<Seq<char>> {
    let t = spec_trim(line);
    if !(prefix.len() <= t.len() && t.take(prefix.len() as int) == prefix) {
        None
    } else {
        let rest = spec_trim_start(t.skip(prefix.len() as int));
        if rest.len() > 0 && rest[0] == '=' {
            Some(spec_trim(rest.skip(1)))
        } else {
            None
        }
    }
}

/// Read the value of a `key = value` line whose key (after trimming) is
/// exactly `prefix`; whitespace around the key, the `=` and the value is
/// insignificant. Returns nothing when the key does not match.
pub fn extract_value_from_line<'a>(prefix: &str, line: &'a str) -> (r: Option<&'a str>)
    ensures
        r matches Some(v) ==> spec_extract_value(prefix@, line@) == Some(v@),
        r is None ==> spec_extract_value(prefix@, line@) is None,
{
    let t = trim(line);
    if !starts_with_str(t, prefix) {
        return None;
    }
    let plen: usize = prefix.unicode_len();
    let tlen: usize = t.unicode_len();
    let rest = trim_start(t.substring_char(plen, tlen));
    let rlen: usize = rest.unicode_len();
    if rlen == 0 || rest.get_char(0) != '=' {
        return None;
    }
    Some(trim(rest.substring_char(1, rlen)))
}

} // verus!
