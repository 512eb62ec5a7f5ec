use srcinfo_db::extract::{extract_pkgname_prefix, extract_value_from_line};

#[test]
fn test_extract_pkgname_prefix_partial() {
    assert_eq!(extract_pkgname_prefix("foo>=3"), ("foo", ">=3"));
}

#[test]
fn test_extract_pkgname_prefix_whole() {
    assert_eq!(extract_pkgname_prefix("foo"), ("foo", ""));
}

#[test]
fn test_extract_pkgname_prefix_empty() {
    assert_eq!(extract_pkgname_prefix(">=3"), ("", ">=3"));
}

#[test]
fn test_extract_value_from_line_some() {
    assert_eq!(
        extract_value_from_line("pkgname", "  pkgname = foo  "),
        Some("foo"),
    );
}

#[test]
fn test_extract_value_from_line_none() {
    assert_eq!(
        extract_value_from_line("pkgname", "  pkgbase = foo  "),
        None,
    );
}

#[test]
fn extract_value_requires_whole_key() {
    assert_eq!(extract_value_from_line("pkg", "pkgname = foo"), None);
    assert_eq!(extract_value_from_line("depends", "makedepends = gcc"), None);
}

#[test]
fn extract_value_tolerates_tight_spacing() {
    assert_eq!(extract_value_from_line("pkgname", "pkgname=foo"), Some("foo"));
    assert_eq!(extract_value_from_line("pkgname", "pkgname   =   foo"), Some("foo"));
}

#[test]
fn extract_prefix_keeps_allowed_symbols() {
    assert_eq!(
        extract_pkgname_prefix("lib32-glibc>=2.0"),
        ("lib32-glibc", ">=2.0")
    );
    assert_eq!(extract_pkgname_prefix("a@b.c_d+e"), ("a@b.c_d+e", ""));
}
