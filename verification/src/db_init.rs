//! Database initialization: fold the metadata texts of all source
//! directories into one database, collecting duplications and counting
//! errors. Errors never stop the remaining texts from being processed, so one
//! run reports every problem at once.

use vstd::prelude::*;
use crate::database::{DuplicateInfo, SimpleDatabase};
use crate::extract::str_eq;
use crate::srcinfo::{spec_parse, SpecSrcInfo, SrcInfo};

verus! {

/// One reported duplication: a package base and every source directory that
/// declared it.
pub struct Duplication {
    pub pkgbase: String,
    pub directories: Vec<String>,
}

/// What initialization yields: the database, the consolidated duplication
/// report, and how many errors were seen.
pub struct DbInitValue {
    pub database: SimpleDatabase,
    pub duplications: Vec<Duplication>,
    pub error_count: usize,
}

/// Whether a parsed record carries a usable package base.
pub open spec fn spec_record_valid(rec: SpecSrcInfo) -> bool {
    rec.pkgbase is Some && rec.pkgbase.unwrap().len() > 0
}

pub open spec fn fold_has_key(s: Seq<(Seq<char>, Seq<char>, SpecSrcInfo)>, key: Seq<char>) -> bool {
    exists|m: int| 0 <= m < s.len() && s[m].0 == key
}

/// The database contents after folding the first `i` texts: each text parses
/// to a record; a valid record whose package base is new is appended with its
/// directory, anything else leaves the database unchanged.
pub open spec fn spec_db_fold(texts: Seq<(Seq<char>, Seq<char>)>, i: int) -> Seq<
    (Seq<char>, Seq<char>, SpecSrcInfo),
>
    decreases i,
{
    if i <= 0 {
        Seq::empty()
    } else {
        let prev = spec_db_fold(texts, i - 1);
        let rec = spec_parse(texts[i - 1].0);
        if spec_record_valid(rec) && !fold_has_key(prev, rec.pkgbase.unwrap()) {
            prev.push((rec.pkgbase.unwrap(), texts[i - 1].1, rec))
        } else {
            prev
        }
    }
}

/// How many of the first `i` texts parse to a structurally invalid record.
pub open spec fn spec_invalid_count(texts: Seq<(Seq<char>, Seq<char>)>, i: int) -> int
    decreases i,
{
    if i <= 0 {
        0
    } else {
        spec_invalid_count(texts, i - 1) + if spec_record_valid(spec_parse(texts[i - 1].0)) {
            0int
        } else {
            1int
        }
    }
}

/// The database models the folded contents exactly.
pub open spec fn db_matches_fold(
    db: SimpleDatabase,
    fold: Seq<(Seq<char>, Seq<char>, SpecSrcInfo)>,
) -> bool {
    &&& db.n() == fold.len()
    &&& forall|m: int|
        0 <= m < fold.len() ==> #[trigger] db.key_at(m) == fold[m].0 && db.dir_at(m) == fold[m].1
            && db.rec_at(m) == fold[m].2
}

/// The views of the (text, directory) pairs.
pub open spec fn text_views(ts: Seq<(String, String)>) -> Seq<(Seq<char>, Seq<char>)> {
    ts.map_values(|p: (String, String)| (p.0@, p.1@))
}

/// Group one duplication event into the report: a new package base opens an
/// entry naming the existing and the new directory; a known one gains the new
/// directory unless it is already listed.
fn record_duplication(dups: &mut Vec<Duplication>, dup: DuplicateInfo)
    requires
        forall|m1: int, m2: int|
            0 <= m1 < m2 < old(dups)@.len() ==> old(dups)@[m1].pkgbase@
                != old(dups)@[m2].pkgbase@,
        forall|m: int| 0 <= m < old(dups)@.len() ==> old(dups)@[m].directories@.len() >= 1,
    ensures
        final(dups)@.len() == old(dups)@.len() || final(dups)@.len() == old(dups)@.len() + 1,
        forall|m: int|
            0 <= m < old(dups)@.len() ==> final(dups)@[m].pkgbase@ == old(dups)@[m].pkgbase@,
        final(dups)@.len() == old(dups)@.len() + 1 ==> final(dups)@[old(dups)@.len()
            as int].pkgbase@ == dup.pkgbase@,
        forall|m1: int, m2: int|
            0 <= m1 < m2 < final(dups)@.len() ==> final(dups)@[m1].pkgbase@
                != final(dups)@[m2].pkgbase@,
        forall|m: int| 0 <= m < final(dups)@.len() ==> final(dups)@[m].directories@.len() >= 1,
        forall|m: int|
            0 <= m < final(dups)@.len() ==> (exists|m0: int|
                0 <= m0 < old(dups)@.len() && final(dups)@[m].pkgbase@
                    == old(dups)@[m0].pkgbase@) || final(dups)@[m].pkgbase@ == dup.pkgbase@,
{
    let n: usize = dups.len();
    let mut m: usize = 0;
    while m < n
        invariant
            0 <= m <= n,
            n == dups@.len(),
            *dups == *old(dups),
            forall|m1: int, m2: int|
                0 <= m1 < m2 < old(dups)@.len() ==> old(dups)@[m1].pkgbase@
                    != old(dups)@[m2].pkgbase@,
            forall|k: int| 0 <= k < old(dups)@.len() ==> #[trigger] old(
                dups,
            )@[k].directories@.len() >= 1,
            forall|k: int| 0 <= k < m ==> #[trigger] dups@[k].pkgbase@ != dup.pkgbase@,
        decreases n - m,
    {
        if str_eq(dups[m].pkgbase.as_str(), dup.pkgbase.as_str()) {
            let mut entry = dups.remove(m);
            let dn: usize = entry.directories.len();
            let mut seen = false;
            let mut k: usize = 0;
            while k < dn
                invariant
                    0 <= k <= dn,
                    dn == entry.directories@.len(),
                decreases dn - k,
            {
                if str_eq(entry.directories[k].as_str(), dup.new_directory.as_str()) {
                    seen = true;
                }
                k = k + 1;
            }
            if !seen {
                let ghost pre = entry.directories@;
                entry.directories.push(dup.new_directory);
                proof {
                    assert(entry.directories@.len() == pre.len() + 1);
                }
            }
            dups.insert(m, entry);
            proof {
                assert(dups@.len() == old(dups)@.len());
                assert(forall|k2: int|
                    0 <= k2 < dups@.len() && k2 != m ==> dups@[k2] == old(dups)@[k2]);
                assert(old(dups)@[m as int].directories@.len() >= 1);
                assert(dups@[m as int].pkgbase@ == old(dups)@[m as int].pkgbase@);
                assert(dups@[m as int].directories@.len() >= 1);
                assert(forall|k2: int|
                    0 <= k2 < dups@.len() ==> #[trigger] dups@[k2].pkgbase@ == old(
                        dups,
                    )@[k2].pkgbase@);
                assert forall|k2: int| 0 <= k2 < dups@.len() implies #[trigger] dups@[k2].directories@.len()
                    >= 1 by {
                    if k2 != m {
                        assert(dups@[k2] == old(dups)@[k2]);
                        assert(old(dups)@[k2].directories@.len() >= 1);
                    }
                }
            }
            return ;
        }
        m = m + 1;
    }
    let entry = Duplication {
        pkgbase: dup.pkgbase,
        directories: vec![dup.existing_directory, dup.new_directory],
    };
    proof {
        assert(entry.directories@.len() == 2);
    }
    dups.push(entry);
    proof {
        assert(forall|k: int| 0 <= k < old(dups)@.len() ==> dups@[k] == old(dups)@[k]);
    }
}

/// Build the database from the metadata texts of all source directories, in
/// order. Duplicated package bases are reported with their directories and do
/// not overwrite the first record; structurally invalid records and
/// duplications are counted as errors, and processing never stops early.
pub fn init_database(texts: &Vec<(String, String)>) -> (r: DbInitValue)
    ensures
        r.database.wf(),
        db_matches_fold(r.database, spec_db_fold(text_views(texts@), texts@.len() as int)),
        r.error_count == spec_invalid_count(text_views(texts@), texts@.len() as int)
            + r.duplications@.len(),
        forall|m1: int, m2: int|
            0 <= m1 < m2 < r.duplications@.len() ==> r.duplications@[m1].pkgbase@
                != r.duplications@[m2].pkgbase@,
        forall|m: int|
            0 <= m < r.duplications@.len() ==> r.duplications@[m].directories@.len() >= 1
                && r.database.has_key(r.duplications@[m].pkgbase@),
{
    let n: usize = texts.len();
    let mut database = SimpleDatabase::new();
    let mut duplications: Vec<Duplication> = Vec::new();
    let mut invalid: usize = 0;
    let mut i: usize = 0;
    while i < n
        invariant
            0 <= i <= n,
            n == texts@.len(),
            database.wf(),
            invalid + duplications@.len() <= i,
            invalid == spec_invalid_count(text_views(texts@), i as int),
            db_matches_fold(database, spec_db_fold(text_views(texts@), i as int)),
            forall|m1: int, m2: int|
                0 <= m1 < m2 < duplications@.len() ==> duplications@[m1].pkgbase@
                    != duplications@[m2].pkgbase@,
            forall|m: int|
                0 <= m < duplications@.len() ==> duplications@[m].directories@.len() >= 1
                    && database.has_key(duplications@[m].pkgbase@),
        decreases n - i,
    {
        let ghost fold_pre = spec_db_fold(text_views(texts@), i as int);
        let ghost rec_spec = spec_parse(text_views(texts@)[i as int].0);
        let record = SrcInfo::parse(texts[i].0.as_str());
        proof {
            assert(text_views(texts@)[i as int].0 == texts@[i as int].0@);
            assert(text_views(texts@)[i as int].1 == texts@[i as int].1@);
            assert(record@ == rec_spec);
            assert(database.has_key(rec_spec.pkgbase.unwrap()) == fold_has_key(
                fold_pre,
                rec_spec.pkgbase.unwrap(),
            )) by {
                if database.has_key(rec_spec.pkgbase.unwrap()) {
                    let m = choose|m: int|
                        0 <= m < database.n() && database.key_at(m) == rec_spec.pkgbase.unwrap();
                    assert(fold_pre[m].0 == rec_spec.pkgbase.unwrap());
                }
                if fold_has_key(fold_pre, rec_spec.pkgbase.unwrap()) {
                    let m = choose|m: int|
                        0 <= m < fold_pre.len() && fold_pre[m].0 == rec_spec.pkgbase.unwrap();
                    assert(database.key_at(m) == rec_spec.pkgbase.unwrap());
                }
            }
        }
        let ghost pre_db = database;
        match database.insert_srcinfo(record, texts[i].1.as_str()) {
            Err(_) => {
                proof {
                    assert(!spec_record_valid(rec_spec));
                    assert(database == pre_db);
                }
                invalid = invalid + 1;
            },
            Ok(Some(dup)) => {
                proof {
                    assert(spec_record_valid(rec_spec));
                    assert(fold_has_key(fold_pre, rec_spec.pkgbase.unwrap()));
                    assert(database == pre_db);
                    assert(database.has_key(dup.pkgbase@));
                }
                record_duplication(&mut duplications, dup);
            },
            Ok(None) => {
                proof {
                    assert(spec_record_valid(rec_spec));
                    assert(!fold_has_key(fold_pre, rec_spec.pkgbase.unwrap()));
                    assert(database.n() == pre_db.n() + 1);
                }
            },
        }
        proof {
            let tv = text_views(texts@);
            let fold_post = spec_db_fold(tv, i + 1);
            assert(fold_post == if spec_record_valid(rec_spec) && !fold_has_key(
                fold_pre,
                rec_spec.pkgbase.unwrap(),
            ) {
                fold_pre.push((rec_spec.pkgbase.unwrap(), tv[i as int].1, rec_spec))
            } else {
                fold_pre
            });
            assert(spec_invalid_count(tv, i + 1) == spec_invalid_count(tv, i as int)
                + if spec_record_valid(rec_spec) {
                0int
            } else {
                1int
            });
            assert(database.n() == fold_post.len());
            assert forall|m: int| 0 <= m < fold_post.len() implies #[trigger] database.key_at(m)
                == fold_post[m].0 && database.dir_at(m) == fold_post[m].1 && database.rec_at(m)
                == fold_post[m].2 by {
                if m < fold_pre.len() {
                    assert(database.entries@[m] == pre_db.entries@[m]);
                    assert(pre_db.key_at(m) == fold_pre[m].0);
                    assert(fold_post[m] == fold_pre[m]);
                } else {
                    assert(m == fold_pre.len());
                    assert(database.key_at(m) == rec_spec.pkgbase.unwrap());
                }
            }
            assert(db_matches_fold(database, fold_post));
            assert(spec_db_fold(tv, i + 1) == fold_post);
            assert forall|m: int| 0 <= m < duplications@.len() implies duplications@[m].directories@.len()
                >= 1 && database.has_key(duplications@[m].pkgbase@) by {
                if pre_db.has_key(duplications@[m].pkgbase@) {
                    let m0 = choose|m0: int|
                        0 <= m0 < pre_db.n() && pre_db.key_at(m0) == duplications@[m].pkgbase@;
                    assert(database.key_at(m0) == duplications@[m].pkgbase@);
                }
            }
        }
        i = i + 1;
    }
    let error_count = invalid + duplications.len();
    DbInitValue { database, duplications, error_count }
}

} // verus!
