//! Parser for one textual package-metadata record: a sequence of
//! `key = value` lines. Scalar fields keep their first occurrence, list
//! fields accumulate across repeated lines, unknown keys are ignored.

use vstd::prelude::*;
use vstd::string::{StrSliceExecFns, StringExecFns};
use crate::extract::{extract_value_from_line, spec_extract_value};
use crate::version::{spec_render, Version};
use crate::version_cmp::{lemma_seq_scan_end_unique, seq_scan_end};

verus! {

/// A parsed metadata record.
pub struct SrcInfo {
    pub pkgbase: Option<String>,
    pub pkgnames: Vec<String>,
    pub pkgver: Option<String>,
    pub pkgrel: Option<String>,
    pub epoch: Option<String>,
    pub arch: Option<String>,
    pub depends: Vec<String>,
    pub makedepends: Vec<String>,
    pub checkdepends: Vec<String>,
}

/// The mathematical model of a parsed record.
pub ghost struct SpecSrcInfo {
    pub pkgbase: Option<Seq<char>>,
    pub pkgnames: Seq<Seq<char>>,
    pub pkgver: Option<Seq<char>>,
    pub pkgrel: Option<Seq<char>>,
    pub epoch: Option<Seq<char>>,
    pub arch: Option<Seq<char>>,
    pub depends: Seq<Seq<char>>,
    pub makedepends: Seq<Seq<char>>,
    pub checkdepends: Seq<Seq<char>>,
}

pub open spec fn view_opt(o: Option<String>) -> Option<Seq<char>> {
    match o {
        Some(s) => Some(s@),
        None => None,
    }
}

impl View for SrcInfo {
    type V = SpecSrcInfo;

    open spec fn view(&self) -> SpecSrcInfo {
        SpecSrcInfo {
            pkgbase: view_opt(self.pkgbase),
            pkgnames: self.pkgnames.deep_view(),
            pkgver: view_opt(self.pkgver),
            pkgrel: view_opt(self.pkgrel),
            epoch: view_opt(self.epoch),
            arch: view_opt(self.arch),
            depends: self.depends.deep_view(),
            makedepends: self.makedepends.deep_view(),
            checkdepends: self.checkdepends.deep_view(),
        }
    }
}

pub open spec fn key_pkgbase() -> Seq<char> {
    seq!['p', 'k', 'g', 'b', 'a', 's', 'e']
}

pub open spec fn key_pkgname() -> Seq<char> {
    seq!['p', 'k', 'g', 'n', 'a', 'm', 'e']
}

pub open spec fn key_pkgver() -> Seq<char> {
    seq!['p', 'k', 'g', 'v', 'e', 'r']
}

pub open spec fn key_pkgrel() -> Seq<char> {
    seq!['p', 'k', 'g', 'r', 'e', 'l']
}

pub open spec fn key_epoch() -> Seq<char> {
    seq!['e', 'p', 'o', 'c', 'h']
}

pub open spec fn key_arch() -> Seq<char> {
    seq!['a', 'r', 'c', 'h']
}

pub open spec fn key_depends() -> Seq<char> {
    seq!['d', 'e', 'p', 'e', 'n', 'd', 's']
}

pub open spec fn key_makedepends() -> Seq<char> {
    seq!['m', 'a', 'k', 'e', 'd', 'e', 'p', 'e', 'n', 'd', 's']
}

pub open spec fn key_checkdepends() -> Seq<char> {
    seq!['c', 'h', 'e', 'c', 'k', 'd', 'e', 'p', 'e', 'n', 'd', 's']
}

/// The record with nothing parsed yet.
pub open spec fn spec_empty_srcinfo() -> SpecSrcInfo {
    SpecSrcInfo {
        pkgbase: None,
        pkgnames: Seq::empty(),
        pkgver: None,
        pkgrel: None,
        epoch: None,
        arch: None,
        depends: Seq::empty(),
        makedepends: Seq::empty(),
        checkdepends: Seq::empty(),
    }
}

/// Keep the first value of a scalar field.
pub open spec fn first_of(cur: Option<Seq<char>>, v: Seq<char>) -> Option<Seq<char>> {
    match cur {
        Some(s) => Some(s),
        None => Some(v),
    }
}

/// Fold one line into the record accumulated so far.
pub open spec fn spec_apply_line(acc: SpecSrcInfo, line: Seq<char>) -> SpecSrcInfo {
    let base = spec_extract_value(key_pkgbase(), line);
    let name = spec_extract_value(key_pkgname(), line);
    let ver = spec_extract_value(key_pkgver(), line);
    let rel = spec_extract_value(key_pkgrel(), line);
    let epo = spec_extract_value(key_epoch(), line);
    let arc = spec_extract_value(key_arch(), line);
    let mdep = spec_extract_value(key_makedepends(), line);
    let cdep = spec_extract_value(key_checkdepends(), line);
    let dep = spec_extract_value(key_depends(), line);
    if base is Some {
        SpecSrcInfo { pkgbase: first_of(acc.pkgbase, base->Some_0), ..acc }
    } else if name is Some {
        SpecSrcInfo { pkgnames: acc.pkgnames.push(name->Some_0), ..acc }
    } else if ver is Some {
        SpecSrcInfo { pkgver: first_of(acc.pkgver, ver->Some_0), ..acc }
    } else if rel is Some {
        SpecSrcInfo { pkgrel: first_of(acc.pkgrel, rel->Some_0), ..acc }
    } else if epo is Some {
        SpecSrcInfo { epoch: first_of(acc.epoch, epo->Some_0), ..acc }
    } else if arc is Some {
        SpecSrcInfo { arch: first_of(acc.arch, arc->Some_0), ..acc }
    } else if mdep is Some {
        SpecSrcInfo { makedepends: acc.makedepends.push(mdep->Some_0), ..acc }
    } else if cdep is Some {
        SpecSrcInfo { checkdepends: acc.checkdepends.push(cdep->Some_0), ..acc }
    } else if dep is Some {
        SpecSrcInfo { depends: acc.depends.push(dep->Some_0), ..acc }
    } else {
        acc
    }
}

/// End of the line starting at `i`: the next `'\n'` or the end of the text.
pub open spec fn spec_line_end(s: Seq<char>, i: int) -> int {
    let e = seq_scan_end(s, i, |c: char| c != '\n');
    if i <= e <= s.len() {
        e
    } else {
        i
    }
}

/// Fold the lines of `s` from position `i` into `acc`.
pub open spec fn spec_parse_from(s: Seq<char>, i: int, acc: SpecSrcInfo) -> SpecSrcInfo
    decreases s.len() - i,
{
    if !(0 <= i < s.len()) {
        acc
    } else {
        let e = spec_line_end(s, i);
        let next = if e + 1 <= s.len() {
            e + 1
        } else {
            s.len() as int
        };
        spec_parse_from(s, next, spec_apply_line(acc, s.subrange(i, e)))
    }
}

/// The record that parsing the whole text yields.
pub open spec fn spec_parse(s: Seq<char>) -> SpecSrcInfo {
    spec_parse_from(s, 0, spec_empty_srcinfo())
}

/// Store the value of a scalar field unless one was already seen.
fn set_first(slot: &mut Option<String>, v: &str)
    ensures
        view_opt(*final(slot)) == first_of(view_opt(*old(slot)), v@),
{
    if slot.is_none() {
        *slot = Some(String::from_str(v));
    }
}

impl SrcInfo {
    /// The record with nothing parsed yet.
    pub fn empty() -> (r: SrcInfo)
        ensures
            r@ == spec_empty_srcinfo(),
    {
        let r = SrcInfo {
            pkgbase: None,
            pkgnames: Vec::new(),
            pkgver: None,
            pkgrel: None,
            epoch: None,
            arch: None,
            depends: Vec::new(),
            makedepends: Vec::new(),
            checkdepends: Vec::new(),
        };
        proof {
            assert(r@.pkgnames =~= Seq::<Seq<char>>::empty());
            assert(r@.depends =~= Seq::<Seq<char>>::empty());
            assert(r@.makedepends =~= Seq::<Seq<char>>::empty());
            assert(r@.checkdepends =~= Seq::<Seq<char>>::empty());
        }
        r
    }

    /// Fold one line into this record.
    fn apply_line(&mut self, line: &str)
        ensures
            final(self)@ == spec_apply_line(old(self)@, line@),
    {
        proof {
            reveal_strlit("pkgbase");
            reveal_strlit("pkgname");
            reveal_strlit("pkgver");
            reveal_strlit("pkgrel");
            reveal_strlit("epoch");
            reveal_strlit("arch");
            reveal_strlit("depends");
            reveal_strlit("makedepends");
            reveal_strlit("checkdepends");
            assert("pkgbase"@ =~= key_pkgbase());
            assert("pkgname"@ =~= key_pkgname());
            assert("pkgver"@ =~= key_pkgver());
            assert("pkgrel"@ =~= key_pkgrel());
            assert("epoch"@ =~= key_epoch());
            assert("arch"@ =~= key_arch());
            assert("depends"@ =~= key_depends());
            assert("makedepends"@ =~= key_makedepends());
            assert("checkdepends"@ =~= key_checkdepends());
        }
        if let Some(v) = extract_value_from_line("pkgbase", line) {
            set_first(&mut self.pkgbase, v);
        } else if let Some(v) = extract_value_from_line("pkgname", line) {
            self.pkgnames.push(String::from_str(v));
            proof {
                assert(self.pkgnames.deep_view() =~= old(self).pkgnames.deep_view().push(v@));
            }
        } else if let Some(v) = extract_value_from_line("pkgver", line) {
            set_first(&mut self.pkgver, v);
        } else if let Some(v) = extract_value_from_line("pkgrel", line) {
            set_first(&mut self.pkgrel, v);
        } else if let Some(v) = extract_value_from_line("epoch", line) {
            set_first(&mut self.epoch, v);
        } else if let Some(v) = extract_value_from_line("arch", line) {
            set_first(&mut self.arch, v);
        } else if let Some(v) = extract_value_from_line("makedepends", line) {
            self.makedepends.push(String::from_str(v));
            proof {
                assert(self.makedepends.deep_view() =~= old(self).makedepends.deep_view().push(
                    v@,
                ));
            }
        } else if let Some(v) = extract_value_from_line("checkdepends", line) {
            self.checkdepends.push(String::from_str(v));
            proof {
                assert(self.checkdepends.deep_view() =~= old(self).checkdepends.deep_view().push(
                    v@,
                ));
            }
        } else if let Some(v) = extract_value_from_line("depends", line) {
            self.depends.push(String::from_str(v));
            proof {
                assert(self.depends.deep_view() =~= old(self).depends.deep_view().push(v@));
            }
        }
    }

    /// Parse the full text of one metadata record, line by line.
    pub fn parse(text: &str) -> (r: SrcInfo)
        ensures
            r@ == spec_parse(text@),
    {
        let n: usize = text.unicode_len();
        let mut acc = SrcInfo::empty();
        let mut i: usize = 0;
        while i < n
            invariant
                0 <= i <= n,
                n == text@.len(),
                spec_parse_from(text@, i as int, acc@) == spec_parse(text@),
            decreases n - i,
        {
            let mut e: usize = i;
            while e < n && text.get_char(e) != '\n'
                invariant
                    i <= e <= n,
                    n == text@.len(),
                    forall|j: int| i <= j < e ==> text@[j] != '\n',
                decreases n - e,
            {
                e = e + 1;
            }
            proof {
                lemma_seq_scan_end_unique(text@, i as int, e as int, |c: char| c != '\n');
                assert(spec_line_end(text@, i as int) == e as int);
            }
            let line = text.substring_char(i, e);
            acc.apply_line(line);
            if e < n {
                i = e + 1;
            } else {
                i = n;
            }
        }
        acc
    }
}


/// A field that deriving the artifact file names needs is absent.
#[derive(Debug, PartialEq, Eq, Structural, Clone, Copy)]
pub enum MissingFieldError {
    Arch,
    Version,
}

/// The fixed package-archive suffix.
pub open spec fn archive_ext() -> Seq<char> {
    seq!['.', 'p', 'k', 'g', '.', 't', 'a', 'r', '.', 'z', 's', 't']
}

/// The epoch of a record, an absent epoch reading as the empty string.
pub open spec fn epoch_or_empty(si: SpecSrcInfo) -> Seq<char> {
    match si.epoch {
        Some(e) => e,
        None => Seq::empty(),
    }
}

/// Whether the record carries a renderable version: a non-empty `pkgver` and
/// a non-empty `pkgrel`.
pub open spec fn version_fields_ok(si: SpecSrcInfo) -> bool {
    si.pkgver is Some && si.pkgver.unwrap().len() > 0 && si.pkgrel is Some
        && si.pkgrel.unwrap().len() > 0
}

/// The artifact file base name of one package name.
pub open spec fn spec_file_base_name(si: SpecSrcInfo, name: Seq<char>) -> Seq<char> {
    name + seq!['-'] + spec_render(epoch_or_empty(si), si.pkgver.unwrap(), si.pkgrel.unwrap())
        + seq!['-'] + si.arch.unwrap() + archive_ext()
}

/// What deriving the artifact names yields: one name per package name, or the
/// missing field.
pub open spec fn spec_file_base_names(si: SpecSrcInfo) -> Result<Seq<Seq<char>>, MissingFieldError> {
    if si.arch is None {
        Err(MissingFieldError::Arch)
    } else if !version_fields_ok(si) {
        Err(MissingFieldError::Version)
    } else {
        Ok(si.pkgnames.map_values(|n: Seq<char>| spec_file_base_name(si, n)))
    }
}

impl SrcInfo {
    /// Derive the future build-artifact file names, one per package name:
    /// `{pkgname}-{version}-{arch}.pkg.tar.zst`. Fails when the architecture
    /// or the version fields are absent.
    pub fn package_file_base_names(&self) -> (r: Result<Vec<String>, MissingFieldError>)
        ensures
            r matches Ok(names) ==> (spec_file_base_names(self@) matches Ok(sn)
                && names.deep_view() == sn),
            r matches Err(e) ==> spec_file_base_names(self@) == Err::<
                Seq<Seq<char>>,
                MissingFieldError,
            >(e),
    {
        let arch: &String = match &self.arch {
            Some(a) => a,
            None => {
                return Err(MissingFieldError::Arch);
            },
        };
        let pkgver: &String = match &self.pkgver {
            Some(v) => v,
            None => {
                return Err(MissingFieldError::Version);
            },
        };
        let pkgrel: &String = match &self.pkgrel {
            Some(v) => v,
            None => {
                return Err(MissingFieldError::Version);
            },
        };
        if pkgver.as_str().unicode_len() == 0 || pkgrel.as_str().unicode_len() == 0 {
            return Err(MissingFieldError::Version);
        }
        let epoch: String = match &self.epoch {
            Some(e) => e.clone(),
            None => String::new(),
        };
        let version = Version {
            pkgver: pkgver.clone(),
            pkgrel: pkgrel.clone(),
            epoch,
        };
        let vs: String = match version.try_to_string() {
            Ok(vs) => vs,
            Err(_) => {
                return Err(MissingFieldError::Version);
            },
        };
        proof {
            assert(vs@ == spec_render(epoch_or_empty(self@), self@.pkgver.unwrap(),
                self@.pkgrel.unwrap()));
        }
        let mut names: Vec<String> = Vec::new();
        let n: usize = self.pkgnames.len();
        let mut i: usize = 0;
        while i < n
            invariant
                0 <= i <= n,
                n == self.pkgnames@.len(),
                vs@ == spec_render(epoch_or_empty(self@), self@.pkgver.unwrap(),
                    self@.pkgrel.unwrap()),
                self@.arch == Some(arch@),
                names@.len() == i,
                forall|m: int|
                    0 <= m < names@.len() ==> #[trigger] names.deep_view()[m]
                        == spec_file_base_name(self@, self@.pkgnames[m]),
            decreases n - i,
        {
            let mut nm: String = self.pkgnames[i].clone();
            nm.append("-");
            nm.append(vs.as_str());
            nm.append("-");
            nm.append(arch.as_str());
            nm.append(".pkg.tar.zst");
            proof {
                reveal_strlit("-");
                reveal_strlit(".pkg.tar.zst");
                assert("-"@ =~= seq!['-']);
                assert(".pkg.tar.zst"@ =~= archive_ext());
                assert(nm@ =~= spec_file_base_name(self@, self@.pkgnames[i as int]));
            }
            let ghost pre_names = names@;
            let ghost pre_dv = names.deep_view();
            names.push(nm);
            proof {
                assert forall|m: int| 0 <= m < names@.len() implies #[trigger] names.deep_view()[m]
                    == spec_file_base_name(self@, self@.pkgnames[m]) by {
                    if m < i {
                        assert(names@[m] == pre_names[m]);
                        assert(names.deep_view()[m] == pre_dv[m]);
                    }
                }
            }
            i = i + 1;
        }
        proof {
            assert(names.deep_view() =~~= self@.pkgnames.map_values(
                |nm2: Seq<char>| spec_file_base_name(self@, nm2),
            ));
        }
        Ok(names)
    }
}

} // verus!
