use mdbook_iced::version::{check_compatibility, VersionError};

#[test]
fn a_matching_book_version_is_accepted() {
    assert_eq!(check_compatibility("0.4.52", "0.4.52"), Ok(()));
    assert_eq!(check_compatibility("0.4.60", "0.4.52"), Ok(()));
}

#[test]
fn an_older_or_newer_minor_is_refused() {
    assert_eq!(check_compatibility("0.4.30", "0.4.52"), Err(VersionError::Incompatible));
    assert_eq!(check_compatibility("0.5.0", "0.4.52"), Err(VersionError::Incompatible));
}

#[test]
fn unparsable_versions_are_reported() {
    assert_eq!(check_compatibility("latest", "0.4.52"), Err(VersionError::BookVersion));
    assert_eq!(check_compatibility("0.4.52", "not a requirement!"), Err(VersionError::PluginRequirement));
    assert_eq!(check_compatibility("", ""), Err(VersionError::BookVersion));
}
