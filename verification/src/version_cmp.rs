//! Segment-wise comparison of package version strings.
//!
//! A version string is split into maximal runs of digits and of non-digits.
//! Digit runs compare numerically (leading zeros do not matter), non-digit
//! runs compare lexically, and a digit run outranks a non-digit run. When one
//! string is exhausted it sorts below the other exactly when the other still
//! holds a digit run.

use vstd::prelude::*;
use core::cmp::Ordering;

verus! {

/// Whether `c` is a decimal digit.
pub open spec fn is_digit(c: char) -> bool {
    '0' <= c && c <= '9'
}

/// Numeric value of a digit character.
pub open spec fn digit_val(c: char) -> int {
    c as int - '0' as int
}

/// Whether every character of `s` is a decimal digit.
pub open spec fn all_digits(s: Seq<char>) -> bool {
    forall|i: int| 0 <= i < s.len() ==> is_digit(s[i])
}

/// Whether some character of `s` is a decimal digit.
pub open spec fn contains_digit(s: Seq<char>) -> bool {
    exists|i: int| 0 <= i < s.len() && is_digit(s[i])
}

/// Ten to the power `n`.
pub open spec fn pow10(n: nat) -> int
    decreases n,
{
    if n == 0 {
        1
    } else {
        10 * pow10((n - 1) as nat)
    }
}

/// The number a digit sequence denotes in decimal.
pub open spec fn dec_value(s: Seq<char>) -> int
    recommends
        all_digits(s),
    decreases s.len(),
{
    if s.len() == 0 {
        0
    } else {
        dec_value(s.drop_last()) * 10 + digit_val(s.last())
    }
}

/// First index at or after `i` whose character fails `pred`, or the length.
pub open spec fn seq_scan_end(s: Seq<char>, i: int, pred: spec_fn(char) -> bool) -> int
    decreases s.len() - i,
{
    if i < 0 || i >= s.len() || !pred(s[i]) {
        i
    } else {
        seq_scan_end(s, i + 1, pred)
    }
}

pub proof fn lemma_seq_scan_end_unique(s: Seq<char>, k: int, i: int, pred: spec_fn(char) -> bool)
    requires
        0 <= k <= i <= s.len(),
        forall|j: int| k <= j < i ==> pred(s[j]),
        i == s.len() || !pred(s[i]),
    ensures
        seq_scan_end(s, k, pred) == i,
    decreases i - k,
{
    if k < i {
        lemma_seq_scan_end_unique(s, k + 1, i, pred);
    }
}

/// End of the maximal run of characters sharing the first character's class
/// (digit or non-digit); at least 1 for a non-empty sequence.
pub open spec fn run_end(s: Seq<char>) -> int
    recommends
        s.len() >= 1,
{
    seq_scan_end(s, 1, |c: char| is_digit(c) == is_digit(s[0]))
}

/// `run_end`, clamped into `1 ..= s.len()` so recursion over runs always
/// consumes at least one character.
pub open spec fn run_len(s: Seq<char>) -> int {
    let k = run_end(s);
    if 1 <= k <= s.len() {
        k
    } else {
        1
    }
}

pub proof fn lemma_run_end_bounds(s: Seq<char>)
    requires
        s.len() >= 1,
    ensures
        1 <= run_end(s) <= s.len(),
        run_len(s) == run_end(s),
        forall|j: int| 0 <= j < run_end(s) ==> is_digit(#[trigger] s[j]) == is_digit(s[0]),
        run_end(s) < s.len() ==> is_digit(s[run_end(s)]) != is_digit(s[0]),
{
    lemma_seq_scan_props(s, 1, |c: char| is_digit(c) == is_digit(s[0]));
}

pub proof fn lemma_seq_scan_props(s: Seq<char>, k: int, pred: spec_fn(char) -> bool)
    requires
        0 <= k <= s.len(),
    ensures
        k <= seq_scan_end(s, k, pred) <= s.len(),
        forall|j: int| k <= j < seq_scan_end(s, k, pred) ==> pred(s[j]),
        seq_scan_end(s, k, pred) < s.len() ==> !pred(s[seq_scan_end(s, k, pred)]),
    decreases s.len() - k,
{
    if k < s.len() && pred(s[k]) {
        lemma_seq_scan_props(s, k + 1, pred);
    }
}

/// Lexical comparison of two character sequences.
pub open spec fn lex_cmp(a: Seq<char>, b: Seq<char>) -> Ordering
    decreases a.len(),
{
    if a.len() == 0 && b.len() == 0 {
        Ordering::Equal
    } else if a.len() == 0 {
        Ordering::Less
    } else if b.len() == 0 {
        Ordering::Greater
    } else if a[0] < b[0] {
        Ordering::Less
    } else if b[0] < a[0] {
        Ordering::Greater
    } else {
        lex_cmp(a.skip(1), b.skip(1))
    }
}

/// Numeric comparison of two digit sequences by their decimal values.
pub open spec fn num_cmp(a: Seq<char>, b: Seq<char>) -> Ordering {
    if dec_value(a) < dec_value(b) {
        Ordering::Less
    } else if dec_value(b) < dec_value(a) {
        Ordering::Greater
    } else {
        Ordering::Equal
    }
}

/// The opposite ordering.
pub open spec fn ord_flip(o: Ordering) -> Ordering {
    match o {
        Ordering::Less => Ordering::Greater,
        Ordering::Equal => Ordering::Equal,
        Ordering::Greater => Ordering::Less,
    }
}

/// Segment-wise comparison of two version strings.
pub open spec fn vercmp(a: Seq<char>, b: Seq<char>) -> Ordering
    decreases a.len() + b.len(),
{
    if a.len() == 0 && b.len() == 0 {
        Ordering::Equal
    } else if a.len() == 0 {
        if contains_digit(b) {
            Ordering::Less
        } else {
            Ordering::Greater
        }
    } else if b.len() == 0 {
        if contains_digit(a) {
            Ordering::Greater
        } else {
            Ordering::Less
        }
    } else {
        let ka = run_len(a);
        let kb = run_len(b);
        if is_digit(a[0]) && is_digit(b[0]) {
            if num_cmp(a.take(ka), b.take(kb)) == Ordering::Equal {
                vercmp(a.skip(ka), b.skip(kb))
            } else {
                num_cmp(a.take(ka), b.take(kb))
            }
        } else if is_digit(a[0]) {
            Ordering::Greater
        } else if is_digit(b[0]) {
            Ordering::Less
        } else {
            if lex_cmp(a.take(ka), b.take(kb)) == Ordering::Equal {
                vercmp(a.skip(ka), b.skip(kb))
            } else {
                lex_cmp(a.take(ka), b.take(kb))
            }
        }
    }
}

pub proof fn lemma_pow10_pos(n: nat)
    ensures
        pow10(n) >= 1,
    decreases n,
{
    if n > 0 {
        lemma_pow10_pos((n - 1) as nat);
    }
}

pub proof fn lemma_pow10_mono(a: nat, b: nat)
    requires
        a <= b,
    ensures
        pow10(a) <= pow10(b),
    decreases b,
{
    if a < b {
        lemma_pow10_mono(a, (b - 1) as nat);
        lemma_pow10_pos((b - 1) as nat);
    }
}

/// A digit sequence of length `n` denotes a value in `0 .. pow10(n)`.
pub proof fn lemma_dec_value_bounds(s: Seq<char>)
    requires
        all_digits(s),
    ensures
        0 <= dec_value(s) < pow10(s.len()),
    decreases s.len(),
{
    if s.len() > 0 {
        assert(all_digits(s.drop_last())) by {
            assert(forall|i: int|
                0 <= i < s.drop_last().len() ==> s.drop_last()[i] == s[i] && is_digit(s[i]));
        }
        lemma_dec_value_bounds(s.drop_last());
        assert(0 <= digit_val(s.last()) <= 9);
        assert(pow10(s.len()) == 10 * pow10(s.drop_last().len()));
    }
}

/// A leading zero does not change the denoted value.
pub proof fn lemma_dec_leading_zero(s: Seq<char>)
    requires
        s.len() > 0,
        s[0] == '0',
    ensures
        dec_value(s) == dec_value(s.skip(1)),
    decreases s.len(),
{
    if s.len() == 1 {
        assert(s.drop_last() =~= Seq::<char>::empty());
        assert(s.skip(1) =~= Seq::<char>::empty());
        assert(digit_val(s.last()) == 0);
    } else {
        lemma_dec_leading_zero(s.drop_last());
        assert(s.skip(1).drop_last() =~= s.drop_last().skip(1));
        assert(s.skip(1).last() == s.last());
    }
}

/// Any run of leading zeros does not change the denoted value.
pub proof fn lemma_dec_strip_zeros(s: Seq<char>, i: int)
    requires
        0 <= i <= s.len(),
        forall|j: int| 0 <= j < i ==> s[j] == '0',
    ensures
        dec_value(s.skip(i)) == dec_value(s),
    decreases i,
{
    if i > 0 {
        lemma_dec_leading_zero(s);
        assert(s.skip(1).skip(i - 1) =~= s.skip(i));
        assert(forall|j: int| 0 <= j < i - 1 ==> s.skip(1)[j] == '0');
        lemma_dec_strip_zeros(s.skip(1), i - 1);
    } else {
        assert(s.skip(0) =~= s);
    }
}

/// Decimal value of a concatenation.
pub proof fn lemma_dec_concat(u: Seq<char>, v: Seq<char>)
    ensures
        dec_value(u + v) == dec_value(u) * pow10(v.len()) + dec_value(v),
    decreases v.len(),
{
    if v.len() == 0 {
        assert(u + v =~= u);
    } else {
        let v1 = v.drop_last();
        lemma_dec_concat(u, v1);
        assert((u + v).drop_last() =~= u + v1);
        assert((u + v).last() == v.last());
        assert(pow10(v.len()) == 10 * pow10(v1.len()));
        assert(dec_value(u) * (10 * pow10(v1.len())) == (dec_value(u) * pow10(v1.len())) * 10)
            by (nonlinear_arith);
    }
}

/// A digit sequence that does not start with zero denotes at least
/// `pow10(len - 1)`.
pub proof fn lemma_dec_first_nonzero(s: Seq<char>)
    requires
        all_digits(s),
        s.len() > 0,
        s[0] != '0',
    ensures
        dec_value(s) >= pow10((s.len() - 1) as nat),
    decreases s.len(),
{
    if s.len() == 1 {
        assert(digit_val(s[0]) >= 1);
        assert(s.drop_last() =~= Seq::<char>::empty());
        assert(dec_value(Seq::<char>::empty()) == 0);
        assert(pow10(0) == 1);
        assert(dec_value(s) == digit_val(s[0]));
    } else {
        let p = s.drop_last();
        assert(all_digits(p)) by {
            assert(forall|i: int| 0 <= i < p.len() ==> p[i] == s[i] && is_digit(s[i]));
        }
        assert(p[0] == s[0]);
        lemma_dec_first_nonzero(p);
        assert(pow10((s.len() - 1) as nat) == 10 * pow10((s.len() - 2) as nat));
        assert((p.len() - 1) as nat == (s.len() - 2) as nat);
        assert(dec_value(s) == dec_value(p) * 10 + digit_val(s.last()));
        assert(dec_value(p) * 10 >= pow10((s.len() - 2) as nat) * 10);
        assert(0 <= digit_val(s.last()));
    }
}

/// Lexical equality is sequence equality.
pub proof fn lemma_lex_eq(a: Seq<char>, b: Seq<char>)
    ensures
        (lex_cmp(a, b) == Ordering::Equal) <==> a == b,
    decreases a.len(),
{
    if a.len() == 0 && b.len() == 0 {
        assert(a =~= b);
    } else if a.len() == 0 || b.len() == 0 {
        assert(a.len() != b.len());
    } else if a[0] == b[0] {
        lemma_lex_eq(a.skip(1), b.skip(1));
        if a.skip(1) == b.skip(1) {
            assert(a =~= b) by {
                assert(forall|i: int| 1 <= i < a.len() ==> a[i] == a.skip(1)[i - 1]);
            }
        }
        if a == b {
            assert(a.skip(1) =~= b.skip(1));
        }
    } else {
        assert(a != b) by {
            assert(a[0] != b[0]);
        }
    }
}

/// Flipping the arguments flips a lexical comparison.
pub proof fn lemma_lex_flip(a: Seq<char>, b: Seq<char>)
    ensures
        lex_cmp(b, a) == ord_flip(lex_cmp(a, b)),
    decreases a.len(),
{
    if a.len() > 0 && b.len() > 0 && a[0] == b[0] {
        lemma_lex_flip(a.skip(1), b.skip(1));
    }
}

/// Decimal value of a single digit.
pub proof fn lemma_dec_single(c: char)
    ensures
        dec_value(seq![c]) == digit_val(c),
{
    let s = seq![c];
    assert(s.drop_last() =~= Seq::<char>::empty());
    assert(dec_value(Seq::<char>::empty()) == 0);
    assert(s.last() == c);
    assert(dec_value(s) == dec_value(s.drop_last()) * 10 + digit_val(s.last()));
}

/// On equal-length digit sequences, lexically smaller means numerically
/// smaller.
pub proof fn lemma_lex_dec(a: Seq<char>, b: Seq<char>)
    requires
        all_digits(a),
        all_digits(b),
        a.len() == b.len(),
        lex_cmp(a, b) == Ordering::Less,
    ensures
        dec_value(a) < dec_value(b),
    decreases a.len(),
{
    assert(a.len() > 0);
    let n = a.len() as int;
    let a1 = a.skip(1);
    let b1 = b.skip(1);
    assert(all_digits(a1) && all_digits(b1)) by {
        assert(forall|i: int| 0 <= i < a1.len() ==> a1[i] == a[i + 1]);
        assert(forall|i: int| 0 <= i < b1.len() ==> b1[i] == b[i + 1]);
    }
    assert(seq![a[0]] + a1 =~= a);
    assert(seq![b[0]] + b1 =~= b);
    lemma_dec_concat(seq![a[0]], a1);
    lemma_dec_concat(seq![b[0]], b1);
    lemma_dec_single(a[0]);
    lemma_dec_single(b[0]);
    let p = pow10(a1.len());
    lemma_dec_value_bounds(a1);
    lemma_dec_value_bounds(b1);
    if a[0] < b[0] {
        assert(digit_val(a[0]) + 1 <= digit_val(b[0]));
        assert(digit_val(a[0]) * p + p <= digit_val(b[0]) * p) by (nonlinear_arith)
            requires
                digit_val(a[0]) + 1 <= digit_val(b[0]),
                p >= 0,
        ;
    } else {
        assert(a[0] == b[0]);
        lemma_lex_dec(a1, b1);
    }
}

/// Comparing `a` against a longer `b` whose first digit is not zero yields
/// "less".
pub proof fn lemma_dec_shorter(a: Seq<char>, b: Seq<char>)
    requires
        all_digits(a),
        all_digits(b),
        a.len() < b.len(),
        b.len() > 0,
        b[0] != '0',
    ensures
        dec_value(a) < dec_value(b),
{
    lemma_dec_value_bounds(a);
    lemma_dec_first_nonzero(b);
    lemma_pow10_mono(a.len(), (b.len() - 1) as nat);
}

/// A lexical comparison is decided at the first differing position.
pub proof fn lemma_lex_first_diff(a: Seq<char>, b: Seq<char>, j: int)
    requires
        0 <= j < a.len(),
        j < b.len(),
        forall|k: int| 0 <= k < j ==> a[k] == b[k],
        a[j] < b[j],
    ensures
        lex_cmp(a, b) == Ordering::Less,
    decreases j,
{
    if j > 0 {
        let a1 = a.skip(1);
        let b1 = b.skip(1);
        assert(forall|k: int| 0 <= k < j - 1 ==> a1[k] == b1[k]) by {
            assert(forall|k: int| 0 <= k < j - 1 ==> a1[k] == a[k + 1] && b1[k] == b[k + 1]);
        }
        assert(a1[j - 1] == a[j] && b1[j - 1] == b[j]);
        lemma_lex_first_diff(a1, b1, j - 1);
    }
}

/// When one sequence is a prefix of the other, the shorter sorts first.
pub proof fn lemma_lex_prefix(a: Seq<char>, b: Seq<char>)
    requires
        a.len() <= b.len(),
        forall|k: int| 0 <= k < a.len() ==> a[k] == b[k],
    ensures
        a.len() == b.len() ==> lex_cmp(a, b) == Ordering::Equal,
        a.len() < b.len() ==> lex_cmp(a, b) == Ordering::Less,
    decreases a.len(),
{
    if a.len() > 0 {
        let a1 = a.skip(1);
        let b1 = b.skip(1);
        assert(forall|k: int| 0 <= k < a1.len() ==> a1[k] == a[k + 1] && b1[k] == b[k + 1]);
        lemma_lex_prefix(a1, b1);
    }
}

/// A version string compared with itself is equal.
pub proof fn lemma_vercmp_refl(a: Seq<char>)
    ensures
        vercmp(a, a) == Ordering::Equal,
    decreases a.len(),
{
    if a.len() > 0 {
        lemma_run_end_bounds(a);
        let k = run_len(a);
        lemma_lex_eq(a.take(k), a.take(k));
        lemma_vercmp_refl(a.skip(k));
    }
}

/// Flipping the arguments flips a version comparison.
pub proof fn lemma_vercmp_flip(a: Seq<char>, b: Seq<char>)
    ensures
        vercmp(b, a) == ord_flip(vercmp(a, b)),
    decreases a.len() + b.len(),
{
    if a.len() > 0 && b.len() > 0 {
        lemma_run_end_bounds(a);
        lemma_run_end_bounds(b);
        let ka = run_len(a);
        let kb = run_len(b);
        if is_digit(a[0]) && is_digit(b[0]) {
            if num_cmp(a.take(ka), b.take(kb)) == Ordering::Equal {
                lemma_vercmp_flip(a.skip(ka), b.skip(kb));
            }
        } else if !is_digit(a[0]) && !is_digit(b[0]) {
            lemma_lex_flip(a.take(ka), b.take(kb));
            if lex_cmp(a.take(ka), b.take(kb)) == Ordering::Equal {
                lemma_vercmp_flip(a.skip(ka), b.skip(kb));
            }
        }
    }
}

/// Whether `c` is a decimal digit.
pub fn is_digit_exec(c: char) -> (r: bool)
    ensures
        r == is_digit(c),
{
    '0' <= c && c <= '9'
}

/// Whether some character of `s` is a decimal digit.
pub fn contains_digit_exec(s: &str) -> (r: bool)
    ensures
        r == contains_digit(s@),
{
    let n: usize = s.unicode_len();
    let mut i: usize = 0;
    while i < n
        invariant
            0 <= i <= n,
            n == s@.len(),
            forall|j: int| 0 <= j < i ==> !is_digit(s@[j]),
        decreases n - i,
    {
        if is_digit_exec(s.get_char(i)) {
            return true;
        }
        i = i + 1;
    }
    false
}

/// Length of the maximal leading run of characters sharing the first
/// character's class.
fn run_end_exec(s: &str) -> (r: usize)
    requires
        s@.len() >= 1,
    ensures
        1 <= r <= s@.len(),
        r as int == run_end(s@),
        r as int == run_len(s@),
{
    let n: usize = s.unicode_len();
    let first_digit = is_digit_exec(s.get_char(0));
    let mut i: usize = 1;
    while i < n && is_digit_exec(s.get_char(i)) == first_digit
        invariant
            1 <= i <= n,
            n == s@.len(),
            first_digit == is_digit(s@[0]),
            forall|j: int| 1 <= j < i ==> is_digit(#[trigger] s@[j]) == is_digit(s@[0]),
        decreases n - i,
    {
        i = i + 1;
    }
    proof {
        lemma_seq_scan_end_unique(s@, 1, i as int, |c: char| is_digit(c) == is_digit(s@[0]));
    }
    i
}

/// First index whose character is not `'0'`, or the length.
pub open spec fn zeros_end(s: Seq<char>) -> int {
    seq_scan_end(s, 0, |c: char| c == '0')
}

/// Drop the leading zeros of `s`.
fn strip_zeros(s: &str) -> (r: &str)
    ensures
        r@ == s@.skip(zeros_end(s@)),
        0 <= zeros_end(s@) <= s@.len(),
        forall|j: int| 0 <= j < zeros_end(s@) ==> s@[j] == '0',
        r@.len() > 0 ==> r@[0] != '0',
        all_digits(s@) ==> dec_value(r@) == dec_value(s@),
{
    let n: usize = s.unicode_len();
    let mut i: usize = 0;
    while i < n && s.get_char(i) == '0'
        invariant
            0 <= i <= n,
            n == s@.len(),
            forall|j: int| 0 <= j < i ==> s@[j] == '0',
        decreases n - i,
    {
        i = i + 1;
    }
    proof {
        lemma_seq_scan_end_unique(s@, 0, i as int, |c: char| c == '0');
        if all_digits(s@) {
            lemma_dec_strip_zeros(s@, i as int);
        }
    }
    s.substring_char(i, n)
}

/// Compare two digit sequences by their decimal values.
pub fn cmp_digit_seqs(a: &str, b: &str) -> (r: Ordering)
    requires
        all_digits(a@),
        all_digits(b@),
    ensures
        r == num_cmp(a@, b@),
{
    let sa = strip_zeros(a);
    let sb = strip_zeros(b);
    let la: usize = sa.unicode_len();
    let lb: usize = sb.unicode_len();
    proof {
        assert(all_digits(sa@)) by {
            assert(forall|j: int|
                0 <= j < sa@.len() ==> sa@[j] == a@[j + zeros_end(a@)] && is_digit(
                    a@[j + zeros_end(a@)],
                ));
        }
        assert(all_digits(sb@)) by {
            assert(forall|j: int|
                0 <= j < sb@.len() ==> sb@[j] == b@[j + zeros_end(b@)] && is_digit(
                    b@[j + zeros_end(b@)],
                ));
        }
        lemma_dec_value_bounds(sa@);
        lemma_dec_value_bounds(sb@);
    }
    if la < lb {
        proof {
            lemma_dec_shorter(sa@, sb@);
        }
        return Ordering::Less;
    }
    if lb < la {
        proof {
            lemma_dec_shorter(sb@, sa@);
        }
        return Ordering::Greater;
    }
    let mut j: usize = 0;
    while j < la
        invariant
            0 <= j <= la,
            la == sa@.len(),
            la == sb@.len(),
            all_digits(sa@),
            all_digits(sb@),
            dec_value(sa@) == dec_value(a@),
            dec_value(sb@) == dec_value(b@),
            forall|k: int| 0 <= k < j ==> sa@[k] == sb@[k],
        decreases la - j,
    {
        let ca = sa.get_char(j);
        let cb = sb.get_char(j);
        if ca < cb {
            proof {
                lemma_lex_first_diff(sa@, sb@, j as int);
                lemma_lex_dec(sa@, sb@);
            }
            return Ordering::Less;
        }
        if cb < ca {
            proof {
                lemma_lex_first_diff(sb@, sa@, j as int);
                lemma_lex_dec(sb@, sa@);
            }
            return Ordering::Greater;
        }
        j = j + 1;
    }
    proof {
        assert(sa@ =~= sb@);
    }
    Ordering::Equal
}

/// Compare two character sequences lexically.
pub fn lex_cmp_exec(a: &str, b: &str) -> (r: Ordering)
    ensures
        r == lex_cmp(a@, b@),
{
    let la: usize = a.unicode_len();
    let lb: usize = b.unicode_len();
    let min: usize = if la < lb {
        la
    } else {
        lb
    };
    let mut j: usize = 0;
    while j < min
        invariant
            0 <= j <= min,
            la == a@.len(),
            lb == b@.len(),
            min == if la < lb {
                la as int
            } else {
                lb as int
            },
            forall|k: int| 0 <= k < j ==> a@[k] == b@[k],
        decreases min - j,
    {
        let ca = a.get_char(j);
        let cb = b.get_char(j);
        if ca < cb {
            proof {
                lemma_lex_first_diff(a@, b@, j as int);
            }
            return Ordering::Less;
        }
        if cb < ca {
            proof {
                lemma_lex_first_diff(b@, a@, j as int);
                lemma_lex_flip(a@, b@);
            }
            return Ordering::Greater;
        }
        j = j + 1;
    }
    if la < lb {
        proof {
            lemma_lex_prefix(a@, b@);
        }
        Ordering::Less
    } else if lb < la {
        proof {
            lemma_lex_prefix(b@, a@);
            lemma_lex_flip(a@, b@);
        }
        Ordering::Greater
    } else {
        proof {
            lemma_lex_prefix(a@, b@);
        }
        Ordering::Equal
    }
}

/// Compare two version strings segment-wise.
pub fn vercmp_exec(a: &str, b: &str) -> (r: Ordering)
    ensures
        r == vercmp(a@, b@),
    decreases a@.len() + b@.len(),
{
    let n: usize = a.unicode_len();
    let m: usize = b.unicode_len();
    if n == 0 && m == 0 {
        return Ordering::Equal;
    }
    if n == 0 {
        return if contains_digit_exec(b) {
            Ordering::Less
        } else {
            Ordering::Greater
        };
    }
    if m == 0 {
        return if contains_digit_exec(a) {
            Ordering::Greater
        } else {
            Ordering::Less
        };
    }
    let ka = run_end_exec(a);
    let kb = run_end_exec(b);
    let ta = a.substring_char(0, ka);
    let tb = b.substring_char(0, kb);
    proof {
        lemma_run_end_bounds(a@);
        lemma_run_end_bounds(b@);
        assert(ta@ =~= a@.take(ka as int));
        assert(tb@ =~= b@.take(kb as int));
    }
    let a0_digit = is_digit_exec(a.get_char(0));
    let b0_digit = is_digit_exec(b.get_char(0));
    if a0_digit && b0_digit {
        proof {
            assert(all_digits(ta@)) by {
                assert(forall|j: int|
                    0 <= j < ta@.len() ==> is_digit(#[trigger] a@[j]) == is_digit(a@[0]));
            }
            assert(all_digits(tb@)) by {
                assert(forall|j: int|
                    0 <= j < tb@.len() ==> is_digit(#[trigger] b@[j]) == is_digit(b@[0]));
            }
        }
        let c = cmp_digit_seqs(ta, tb);
        if matches!(c, Ordering::Equal) {
            vercmp_exec(a.substring_char(ka, n), b.substring_char(kb, m))
        } else {
            c
        }
    } else if a0_digit {
        Ordering::Greater
    } else if b0_digit {
        Ordering::Less
    } else {
        let c = lex_cmp_exec(ta, tb);
        if matches!(c, Ordering::Equal) {
            vercmp_exec(a.substring_char(ka, n), b.substring_char(kb, m))
        } else {
            c
        }
    }
}

/// End of the maximal leading digit run.
pub open spec fn digits_end(s: Seq<char>) -> int {
    seq_scan_end(s, 0, |c: char| is_digit(c))
}

/// The numeric value of an epoch string: the decimal value of its leading
/// digit run; an absent or non-numeric epoch counts as zero.
pub open spec fn epoch_val(s: Seq<char>) -> int {
    dec_value(s.take(digits_end(s)))
}

/// The leading digit run of `s`.
fn digit_prefix(s: &str) -> (r: &str)
    ensures
        r@ == s@.take(digits_end(s@)),
        all_digits(r@),
        dec_value(r@) == epoch_val(s@),
{
    let n: usize = s.unicode_len();
    let mut i: usize = 0;
    while i < n && is_digit_exec(s.get_char(i))
        invariant
            0 <= i <= n,
            n == s@.len(),
            forall|j: int| 0 <= j < i ==> is_digit(s@[j]),
        decreases n - i,
    {
        i = i + 1;
    }
    proof {
        lemma_seq_scan_end_unique(s@, 0, i as int, |c: char| is_digit(c));
    }
    s.substring_char(0, i)
}

/// Compare two epoch strings by their numeric values.
pub fn epoch_cmp_exec(a: &str, b: &str) -> (r: Ordering)
    ensures
        r == Ordering::Less <==> epoch_val(a@) < epoch_val(b@),
        r == Ordering::Greater <==> epoch_val(a@) > epoch_val(b@),
        r == Ordering::Equal <==> epoch_val(a@) == epoch_val(b@),
{
    let ta = digit_prefix(a);
    let tb = digit_prefix(b);
    cmp_digit_seqs(ta, tb)
}

/// Whether an epoch string denotes zero.
pub fn epoch_is_zero(s: &str) -> (r: bool)
    ensures
        r == (epoch_val(s@) == 0),
{
    let t = digit_prefix(s);
    let stripped = strip_zeros(t);
    proof {
        if stripped@.len() > 0 {
            assert(all_digits(stripped@)) by {
                assert(forall|j: int|
                    0 <= j < stripped@.len() ==> stripped@[j] == t@[j + zeros_end(t@)] && is_digit(
                        t@[j + zeros_end(t@)],
                    ));
            }
            lemma_dec_first_nonzero(stripped@);
            lemma_pow10_pos((stripped@.len() - 1) as nat);
        }
    }
    stripped.unicode_len() == 0
}

} // verus!


