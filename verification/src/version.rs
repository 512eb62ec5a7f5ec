//! The package version model: epoch, upstream version and release, with the
//! ecosystem's segment-wise ordering and the canonical string form
//! `pkgver-pkgrel` or `epoch:pkgver-pkgrel`.

use vstd::prelude::*;
use vstd::string::{StrSliceExecFns, StringExecFns};
use core::cmp::Ordering;
use crate::version_cmp::{
    all_digits, dec_value, epoch_val, epoch_cmp_exec, epoch_is_zero, is_digit,
    lemma_run_end_bounds, lemma_vercmp_flip, lemma_vercmp_refl, num_cmp, ord_flip, run_len,
    vercmp, vercmp_exec,
};

verus! {

/// A package version. The raw strings are stored as parsed; construction
/// never fails, only rendering can.
pub struct Version {
    pub pkgver: String,
    pub pkgrel: String,
    pub epoch: String,
}

/// Ordering of two versions given their raw parts: the epochs compare
/// numerically first, then `pkgver`, then `pkgrel`, both segment-wise.
pub open spec fn spec_version_cmp(
    ae: Seq<char>,
    av: Seq<char>,
    ar: Seq<char>,
    be: Seq<char>,
    bv: Seq<char>,
    br: Seq<char>,
) -> Ordering {
    if epoch_val(ae) < epoch_val(be) {
        Ordering::Less
    } else if epoch_val(be) < epoch_val(ae) {
        Ordering::Greater
    } else if vercmp(av, bv) != Ordering::Equal {
        vercmp(av, bv)
    } else {
        vercmp(ar, br)
    }
}

/// The canonical string form of a version with the given parts: the `epoch:`
/// prefix appears exactly when the epoch is numerically nonzero.
pub open spec fn spec_render(e: Seq<char>, v: Seq<char>, r: Seq<char>) -> Seq<char> {
    if epoch_val(e) == 0 {
        v + seq!['-'] + r
    } else {
        e + seq![':'] + v + seq!['-'] + r
    }
}

/// Rendering failure: a structurally empty required field.
#[derive(Debug, PartialEq, Eq, Structural, Clone, Copy)]
pub enum FormatError {
    EmptyPkgver,
    EmptyPkgrel,
}

impl Version {
    /// How this version orders against `other`.
    pub open spec fn cmp_spec(self, other: Version) -> Ordering {
        spec_version_cmp(
            self.epoch@,
            self.pkgver@,
            self.pkgrel@,
            other.epoch@,
            other.pkgver@,
            other.pkgrel@,
        )
    }

    /// Whether rendering succeeds.
    pub open spec fn renderable(self) -> bool {
        self.pkgver@.len() > 0 && self.pkgrel@.len() > 0
    }

    /// Construct a version from its raw parts; never fails.
    pub fn new(pkgver: &str, pkgrel: &str, epoch: &str) -> (v: Version)
        ensures
            v.pkgver@ == pkgver@,
            v.pkgrel@ == pkgrel@,
            v.epoch@ == epoch@,
    {
        Version {
            pkgver: String::from_str(pkgver),
            pkgrel: String::from_str(pkgrel),
            epoch: String::from_str(epoch),
        }
    }

    /// Compare two versions: epoch numerically, then `pkgver` and `pkgrel`
    /// segment-wise.
    pub fn compare(&self, other: &Version) -> (r: Ordering)
        ensures
            r == self.cmp_spec(*other),
    {
        let ec = epoch_cmp_exec(self.epoch.as_str(), other.epoch.as_str());
        if !matches!(ec, Ordering::Equal) {
            return ec;
        }
        let vc = vercmp_exec(self.pkgver.as_str(), other.pkgver.as_str());
        if !matches!(vc, Ordering::Equal) {
            return vc;
        }
        vercmp_exec(self.pkgrel.as_str(), other.pkgrel.as_str())
    }

    /// Render the canonical `pkgver-pkgrel` / `epoch:pkgver-pkgrel` form.
    /// Fails exactly when `pkgver` or `pkgrel` is empty.
    pub fn try_to_string(&self) -> (r: Result<String, FormatError>)
        ensures
            self.pkgver@.len() == 0 ==> r == Err::<String, FormatError>(FormatError::EmptyPkgver),
            self.pkgver@.len() > 0 && self.pkgrel@.len() == 0 ==> r == Err::<String, FormatError>(
                FormatError::EmptyPkgrel,
            ),
            self.renderable() ==> (r matches Ok(s) && s@ == spec_render(
                self.epoch@,
                self.pkgver@,
                self.pkgrel@,
            )),
    {
        if self.pkgver.as_str().unicode_len() == 0 {
            return Err(FormatError::EmptyPkgver);
        }
        if self.pkgrel.as_str().unicode_len() == 0 {
            return Err(FormatError::EmptyPkgrel);
        }
        let mut out = String::new();
        if !epoch_is_zero(self.epoch.as_str()) {
            out.append(self.epoch.as_str());
            out.append(":");
        }
        out.append(self.pkgver.as_str());
        out.append("-");
        out.append(self.pkgrel.as_str());
        proof {
            reveal_strlit(":");
            reveal_strlit("-");
            assert(":"@ =~= seq![':']);
            assert("-"@ =~= seq!['-']);
            assert(out@ =~= spec_render(self.epoch@, self.pkgver@, self.pkgrel@));
        }
        Ok(out)
    }
}

impl PartialEq for Version {
    /// Two versions are equal when they compare as equal, so `pkgrel` `"1"`
    /// equals `"01"`.
    fn eq(&self, other: &Version) -> (r: bool) {
        matches!(self.compare(other), Ordering::Equal)
    }
}

impl vstd::std_specs::cmp::PartialEqSpecImpl for Version {
    open spec fn obeys_eq_spec() -> bool {
        true
    }

    open spec fn eq_spec(&self, other: &Version) -> bool {
        self.cmp_spec(*other) == Ordering::Equal
    }
}

impl PartialOrd for Version {
    fn partial_cmp(&self, other: &Version) -> (r: Option<Ordering>) {
        Some(self.compare(other))
    }
}

impl vstd::std_specs::cmp::PartialOrdSpecImpl for Version {
    open spec fn obeys_partial_cmp_spec() -> bool {
        true
    }

    open spec fn partial_cmp_spec(&self, other: &Version) -> Option<Ordering> {
        Some(self.cmp_spec(*other))
    }
}

/// Rendering law: with a zero epoch a version with non-empty fields renders
/// as `pkgver-pkgrel`; with a nonzero epoch the `epoch:` prefix appears.
pub proof fn lemma_render_round_trip(e: Seq<char>, v: Seq<char>, r: Seq<char>)
    requires
        v.len() > 0,
        r.len() > 0,
    ensures
        epoch_val(e) == 0 ==> spec_render(e, v, r) == v + seq!['-'] + r,
        epoch_val(e) != 0 ==> spec_render(e, v, r) == e + seq![':'] + v + seq!['-'] + r,
{
}

/// Two non-empty digit segments compare exactly by the numbers they denote,
/// so leading zeros never distinguish them.
pub proof fn lemma_vercmp_numeric_segments(a: Seq<char>, b: Seq<char>)
    requires
        all_digits(a),
        all_digits(b),
        a.len() > 0,
        b.len() > 0,
    ensures
        vercmp(a, b) == num_cmp(a, b),
        (vercmp(a, b) == Ordering::Equal) <==> (dec_value(a) == dec_value(b)),
{
    lemma_run_end_bounds(a);
    lemma_run_end_bounds(b);
    assert(is_digit(a[0]) && is_digit(b[0]));
    assert(run_len(a) == a.len()) by {
        if run_len(a) < a.len() {
            assert(is_digit(a[run_len(a)]));
        }
    }
    assert(run_len(b) == b.len()) by {
        if run_len(b) < b.len() {
            assert(is_digit(b[run_len(b)]));
        }
    }
    assert(a.take(a.len() as int) =~= a);
    assert(b.take(b.len() as int) =~= b);
    assert(a.skip(a.len() as int) =~= Seq::<char>::empty());
    assert(b.skip(b.len() as int) =~= Seq::<char>::empty());
    assert(vercmp(Seq::<char>::empty(), Seq::<char>::empty()) == Ordering::Equal);
}

/// Equivalence law: versions whose epochs and upstream versions agree and
/// whose release strings are digit runs with the same numeric value are equal,
/// so `pkgrel` `"1"` equals `"01"`.
pub proof fn lemma_version_eq_ignores_leading_zeros(
    e: Seq<char>,
    v: Seq<char>,
    r1: Seq<char>,
    r2: Seq<char>,
)
    requires
        all_digits(r1),
        all_digits(r2),
        r1.len() > 0,
        r2.len() > 0,
        dec_value(r1) == dec_value(r2),
    ensures
        spec_version_cmp(e, v, r1, e, v, r2) == Ordering::Equal,
{
    lemma_vercmp_refl(v);
    lemma_vercmp_numeric_segments(r1, r2);
}

/// Ordering law: comparison is reflexive, equality of versions is exactly a
/// comparison that yields `Equal`.
pub proof fn lemma_version_cmp_refl(e: Seq<char>, v: Seq<char>, r: Seq<char>)
    ensures
        spec_version_cmp(e, v, r, e, v, r) == Ordering::Equal,
{
    lemma_vercmp_refl(v);
    lemma_vercmp_refl(r);
}

/// Ordering law: swapping the operands flips the comparison, so the order is
/// strict and total: exactly one of `a < b`, `a == b`, `b < a` holds.
pub proof fn lemma_version_cmp_flip(
    ae: Seq<char>,
    av: Seq<char>,
    ar: Seq<char>,
    be: Seq<char>,
    bv: Seq<char>,
    br: Seq<char>,
)
    ensures
        spec_version_cmp(be, bv, br, ae, av, ar) == ord_flip(
            spec_version_cmp(ae, av, ar, be, bv, br),
        ),
{
    lemma_vercmp_flip(av, bv);
    lemma_vercmp_flip(ar, br);
}

} // verus!
