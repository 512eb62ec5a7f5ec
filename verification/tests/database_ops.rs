use srcinfo_db::database::{BuildOrderError, InsertError, SimpleDatabase};
use srcinfo_db::db_init::init_database;
use srcinfo_db::srcinfo::{MissingFieldError, SrcInfo};

fn record(text: &str) -> SrcInfo {
    SrcInfo::parse(text)
}

#[test]
fn parse_reads_fields_line_by_line() {
    let si = record(
        "pkgbase = demo\n\
         pkgname = demo\n\
         pkgname = demo-docs\n\
         pkgver = 1.2.3\n\
         pkgrel = 4\n\
         epoch = 1\n\
         arch = x86_64\n\
         depends = zlib\n\
         depends = openssl>=3\n\
         makedepends = gcc\n\
         checkdepends = pytest\n\
         unknown_key = ignored\n",
    );
    assert_eq!(si.pkgbase.as_deref(), Some("demo"));
    assert_eq!(si.pkgnames, vec!["demo".to_string(), "demo-docs".to_string()]);
    assert_eq!(si.pkgver.as_deref(), Some("1.2.3"));
    assert_eq!(si.pkgrel.as_deref(), Some("4"));
    assert_eq!(si.epoch.as_deref(), Some("1"));
    assert_eq!(si.arch.as_deref(), Some("x86_64"));
    assert_eq!(si.depends, vec!["zlib".to_string(), "openssl>=3".to_string()]);
    assert_eq!(si.makedepends, vec!["gcc".to_string()]);
    assert_eq!(si.checkdepends, vec!["pytest".to_string()]);
}

#[test]
fn parse_keeps_first_scalar_value() {
    let si = record("pkgbase = first\npkgbase = second\npkgver = 1\npkgver = 2\n");
    assert_eq!(si.pkgbase.as_deref(), Some("first"));
    assert_eq!(si.pkgver.as_deref(), Some("1"));
}

#[test]
fn package_file_base_names_combine_fields() {
    let si = record(
        "pkgbase = demo\npkgname = demo\npkgname = demo-docs\npkgver = 1.2\npkgrel = 3\narch = any\n",
    );
    let names = si.package_file_base_names().unwrap();
    assert_eq!(
        names,
        vec![
            "demo-1.2-3-any.pkg.tar.zst".to_string(),
            "demo-docs-1.2-3-any.pkg.tar.zst".to_string(),
        ]
    );
}

#[test]
fn package_file_base_names_report_missing_fields() {
    let no_arch = record("pkgbase = a\npkgname = a\npkgver = 1\npkgrel = 1\n");
    assert_eq!(
        no_arch.package_file_base_names(),
        Err(MissingFieldError::Arch)
    );
    let no_ver = record("pkgbase = a\npkgname = a\npkgrel = 1\narch = any\n");
    assert_eq!(
        no_ver.package_file_base_names(),
        Err(MissingFieldError::Version)
    );
}

#[test]
fn duplicate_pkgbase_keeps_first_entry() {
    let mut db = SimpleDatabase::new();
    let first = record("pkgbase = demo\npkgname = demo\n");
    let second = record("pkgbase = demo\npkgname = demo\n");
    assert!(db.insert_srcinfo(first, "dir-one").unwrap().is_none());
    let dup = db.insert_srcinfo(second, "dir-two").unwrap().unwrap();
    assert_eq!(dup.pkgbase, "demo".to_string());
    assert_eq!(dup.existing_directory, "dir-one".to_string());
    assert_eq!(dup.new_directory, "dir-two".to_string());
    let kept = db.lookup("demo").unwrap();
    assert_eq!(kept.directory, "dir-one".to_string());
}

#[test]
fn insert_rejects_invalid_records() {
    let mut db = SimpleDatabase::new();
    let missing = record("pkgname = demo\n");
    assert!(matches!(
        db.insert_srcinfo(missing, "dir"),
        Err(InsertError::MissingPkgbase)
    ));
    let empty = record("pkgbase =\npkgname = demo\n");
    assert!(matches!(
        db.insert_srcinfo(empty, "dir"),
        Err(InsertError::EmptyPkgbase)
    ));
}

#[test]
fn build_order_respects_dependencies() {
    let mut db = SimpleDatabase::new();
    let a = record("pkgbase = a\npkgname = a\ndepends = b\n");
    let b = record("pkgbase = b\npkgname = b\ndepends = c\n");
    let c = record("pkgbase = c\npkgname = c\n");
    db.insert_srcinfo(a, "da").unwrap();
    db.insert_srcinfo(b, "db").unwrap();
    db.insert_srcinfo(c, "dc").unwrap();
    let order = db.build_order().unwrap();
    assert_eq!(
        order,
        vec!["c".to_string(), "b".to_string(), "a".to_string()]
    );
}

#[test]
fn build_order_resolves_version_constraints() {
    let mut db = SimpleDatabase::new();
    let a = record("pkgbase = a\npkgname = a\ndepends = b>=2.0\n");
    let b = record("pkgbase = b\npkgname = b\n");
    db.insert_srcinfo(a, "da").unwrap();
    db.insert_srcinfo(b, "db").unwrap();
    let order = db.build_order().unwrap();
    assert_eq!(order, vec!["b".to_string(), "a".to_string()]);
}

#[test]
fn self_dependency_is_not_a_cycle() {
    let mut db = SimpleDatabase::new();
    let a = record("pkgbase = a\npkgname = a\npkgname = a-docs\ndepends = a-docs\n");
    db.insert_srcinfo(a, "da").unwrap();
    let order = db.build_order().unwrap();
    assert_eq!(order, vec!["a".to_string()]);
}

#[test]
fn cycle_is_reported_with_both_names() {
    let mut db = SimpleDatabase::new();
    let a = record("pkgbase = a\npkgname = a\ndepends = b\n");
    let b = record("pkgbase = b\npkgname = b\ndepends = a\n");
    db.insert_srcinfo(a, "da").unwrap();
    db.insert_srcinfo(b, "db").unwrap();
    match db.build_order() {
        Err(BuildOrderError::CyclicDependency(names)) => {
            assert!(names.contains(&"a".to_string()));
            assert!(names.contains(&"b".to_string()));
            assert_eq!(names.len(), 2);
        }
        _ => panic!("expected a cyclic-dependency error"),
    }
}

#[test]
fn external_dependencies_impose_no_edge() {
    let mut db = SimpleDatabase::new();
    let a = record("pkgbase = a\npkgname = a\ndepends = zlib\ndepends = openssl>=3\n");
    db.insert_srcinfo(a, "da").unwrap();
    let order = db.build_order().unwrap();
    assert_eq!(order, vec!["a".to_string()]);
}

#[test]
fn dependency_matches_any_produced_name() {
    let mut db = SimpleDatabase::new();
    let a = record("pkgbase = a\npkgname = a\ndepends = b-docs\n");
    let b = record("pkgbase = b\npkgname = b\npkgname = b-docs\n");
    db.insert_srcinfo(a, "da").unwrap();
    db.insert_srcinfo(b, "db").unwrap();
    let order = db.build_order().unwrap();
    assert_eq!(order, vec!["b".to_string(), "a".to_string()]);
}

#[test]
fn init_database_collects_duplications_and_errors() {
    let texts = vec![
        (
            "pkgbase = demo\npkgname = demo\n".to_string(),
            "dir-one".to_string(),
        ),
        (
            "pkgbase = demo\npkgname = demo\n".to_string(),
            "dir-two".to_string(),
        ),
        ("pkgname = nobase\n".to_string(), "dir-three".to_string()),
        (
            "pkgbase = other\npkgname = other\n".to_string(),
            "dir-four".to_string(),
        ),
    ];
    let value = init_database(&texts);
    assert_eq!(value.database.entries.len(), 2);
    assert_eq!(value.duplications.len(), 1);
    assert_eq!(value.duplications[0].pkgbase, "demo".to_string());
    assert_eq!(
        value.duplications[0].directories,
        vec!["dir-one".to_string(), "dir-two".to_string()]
    );
    assert_eq!(value.error_count, 2);
}
