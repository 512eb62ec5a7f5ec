use srcinfo_db::version::{FormatError, Version};

#[test]
fn try_to_string_success() {
    let actual = [
        Version::new("0.0.0", "1", "0").try_to_string().unwrap(),
        Version::new("1.0.0", "2", "").try_to_string().unwrap(),
        Version::new("0.1.2", "3", "4").try_to_string().unwrap(),
        Version::new("1.2.3", "4.5", "6").try_to_string().unwrap(),
    ];

    let expected = [
        "0.0.0-1".to_string(),
        "1.0.0-2".to_string(),
        "4:0.1.2-3".to_string(),
        "6:1.2.3-4.5".to_string(),
    ];

    assert_eq!(actual, expected);
}

#[test]
fn partial_eq() {
    let actual = [
        Version::new("0.0.0", "1", "0") == Version::new("0.0.0", "1", ""),
        Version::new("0.0.0", "1", "0") == Version::new("0.0.0", "1", "0"),
        Version::new("0.0.0", "1", "0") == Version::new("0.0.0", "01", "0"),
        Version::new("0.1.0", "1", "0") == Version::new("0.0.0", "1", "0"),
    ];

    let expected = [true, true, true, false];

    assert_eq!(actual, expected);
}

#[test]
fn partial_cmp() {
    let actual = [
        Version::new("0.0.0", "1", "0") > Version::new("0.0.0", "1", "0"),
        Version::new("1.2.3", "4", "0") > Version::new("0.1.2", "3", "0"),
        Version::new("0.0.0", "1", "0") < Version::new("0.0.0", "1", "0"),
        Version::new("0.1.2", "3", "0") < Version::new("1.2.3", "4", "0"),
    ];

    let expected = [false, true, false, true];

    assert_eq!(actual, expected);
}

#[test]
fn render_errors_on_empty_fields() {
    assert_eq!(
        Version::new("", "1", "0").try_to_string(),
        Err(FormatError::EmptyPkgver)
    );
    assert_eq!(
        Version::new("1.0", "", "0").try_to_string(),
        Err(FormatError::EmptyPkgrel)
    );
}

#[test]
fn render_with_nonzero_epoch() {
    assert_eq!(
        Version::new("1.2", "3", "5").try_to_string().unwrap(),
        "5:1.2-3".to_string()
    );
    assert_eq!(
        Version::new("1.2", "3", "00").try_to_string().unwrap(),
        "1.2-3".to_string()
    );
}

#[test]
fn leading_zeros_in_numeric_segments() {
    assert!(Version::new("1.0", "1", "0") == Version::new("1.00", "1", "0"));
    assert!(Version::new("0.0.0", "1", "01") == Version::new("0.0.0", "1", "1"));
    assert!(Version::new("1.9", "1", "0") < Version::new("1.10", "1", "0"));
}

#[test]
fn epoch_dominates_ordering() {
    assert!(Version::new("1", "1", "2") > Version::new("9", "9", "1"));
    assert!(Version::new("9", "9", "") < Version::new("1", "1", "1"));
}

#[test]
fn alpha_suffix_sorts_before_release() {
    assert!(Version::new("1.0", "1", "") > Version::new("1.0a", "1", ""));
    assert!(Version::new("1.0b", "1", "") < Version::new("1.1", "1", ""));
    assert!(Version::new("1", "1", "") < Version::new("1.2", "1", ""));
}
