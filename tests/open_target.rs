use virtual_branches::open_target::{
    clean_env_value, open_target_verdict, strip_segments_containing, validate_open_target, OpenError,
};

#[test]
fn accepts_known_schemes() {
    assert_eq!(validate_open_target("https://gitbutler.com"), Ok(()));
    assert_eq!(validate_open_target("http://example.org/x"), Ok(()));
    assert_eq!(validate_open_target("mailto:someone@example.org"), Ok(()));
    assert_eq!(validate_open_target("vscode://file/tmp/a.rs"), Ok(()));
    assert_eq!(validate_open_target("vscodium://file/tmp/a.rs"), Ok(()));
}

#[test]
fn refuses_other_paths() {
    assert_eq!(validate_open_target("/etc/passwd"), Err(OpenError::InvalidPathFormat));
    assert_eq!(validate_open_target("file:///etc/passwd"), Err(OpenError::InvalidPathFormat));
    assert_eq!(validate_open_target("https://"), Err(OpenError::InvalidPathFormat));
    assert_eq!(validate_open_target(" https://x"), Err(OpenError::InvalidPathFormat));
    assert_eq!(validate_open_target(""), Err(OpenError::InvalidPathFormat));
}

#[test]
fn verdict_follows_match() {
    assert_eq!(open_target_verdict(Some(true)), Ok(()));
    assert_eq!(open_target_verdict(Some(false)), Err(OpenError::InvalidPathFormat));
    assert_eq!(open_target_verdict(None), Err(OpenError::InvalidPattern));
}

#[test]
fn env_value_drops_appimage_entries() {
    let v = b"/usr/bin:/tmp/appimage-run/bin:/bin".to_vec();
    assert_eq!(clean_env_value(&v), b"/usr/bin:/bin".to_vec());
    let first = b"/x/appimage-run:/usr/lib".to_vec();
    assert_eq!(clean_env_value(&first), b"/usr/lib".to_vec());
    assert_eq!(clean_env_value(&b"/usr/bin".to_vec()), b"/usr/bin".to_vec());
    assert_eq!(clean_env_value(&b"appimage-run".to_vec()), b"".to_vec());
    assert_eq!(clean_env_value(&b"a::b".to_vec()), b"a::b".to_vec());
}

#[test]
fn strip_segments_with_other_marker() {
    let v = b"keep:dropme:also-dropme-too:fine".to_vec();
    assert_eq!(strip_segments_containing(&v, &b"dropme".to_vec()), b"keep:fine".to_vec());
    assert_eq!(strip_segments_containing(&b"".to_vec(), &b"x".to_vec()), b"".to_vec());
}
