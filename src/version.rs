//! Whether the calling book tool is a version this preprocessor works with.
use vstd::prelude::*;

verus! {

#[verifier::external_type_specification]
#[verifier::external_body]
pub struct ExVersion(semver::Version);

#[verifier::external_type_specification]
#[verifier::external_body]
pub struct ExVersionReq(semver::VersionReq);

#[verifier::external_type_specification]
#[verifier::external_body]
pub struct ExSemverError(semver::Error);

/// Whether a text is a semantic version.
pub uninterp spec fn is_version(text: Seq<char>) -> bool;

/// Whether a text is a semantic version requirement.
pub uninterp spec fn is_requirement(text: Seq<char>) -> bool;

/// Relies on `semver::Version::parse`: it accepts exactly the semantic versions.
pub assume_specification[ semver::Version::parse ](text: &str) -> (r: Result<
    semver::Version,
    semver::Error,
>)
    ensures
        r is Ok <==> is_version(text@),
;

/// Relies on `semver::VersionReq::parse`: it accepts exactly the requirements.
pub assume_specification[ semver::VersionReq::parse ](text: &str) -> (r: Result<
    semver::VersionReq,
    semver::Error,
>)
    ensures
        r is Ok <==> is_requirement(text@),
;

/// Whether a version meets a requirement, both given as text.
pub uninterp spec fn meets(requirement: Seq<char>, version: Seq<char>) -> bool;

/// Relies on `semver::VersionReq::matches` on the parsed texts: whether the
/// version meets the requirement, which depends on the two texts alone; no
/// verdict where either does not parse.
#[verifier::external_body]
fn verdict(requirement: &str, version: &str) -> (r: Option<bool>)
    ensures
        r is Some <==> (is_requirement(requirement@) && is_version(version@)),
        r is Some ==> r->0 == meets(requirement@, version@),
{
    match (semver::VersionReq::parse(requirement), semver::Version::parse(version)) {
        (Ok(req), Ok(v)) => Some(req.matches(&v)),
        _ => None,
    }
}

/// Why a book tool's version was turned down.
#[derive(Debug, Clone, Copy, PartialEq, Eq)]
pub enum VersionError {
    /// The book tool's version is no semantic version.
    BookVersion,
    /// The version this preprocessor was built against is no requirement.
    PluginRequirement,
    /// The book tool's version does not meet the requirement.
    Incompatible,
}

/// Checks that `book_version`, the version of the calling book tool, meets the
/// requirement `plugin_version`, the version this preprocessor was built for.
pub fn check_compatibility(book_version: &str, plugin_version: &str) -> (r: Result<(), VersionError>)
    ensures
        r == Err::<(), VersionError>(VersionError::BookVersion) <==> !is_version(book_version@),
        r == Err::<(), VersionError>(VersionError::PluginRequirement) <==> is_version(
            book_version@,
        ) && !is_requirement(plugin_version@),
        is_version(book_version@) && is_requirement(plugin_version@) ==> (r is Ok <==> meets(
            plugin_version@,
            book_version@,
        )),
        r is Ok || r == Err::<(), VersionError>(VersionError::BookVersion) || r == Err::<
            (),
            VersionError,
        >(VersionError::PluginRequirement) || r == Err::<(), VersionError>(
            VersionError::Incompatible,
        ),
{
    if semver::Version::parse(book_version).is_err() {
        return Err(VersionError::BookVersion);
    }
    if semver::VersionReq::parse(plugin_version).is_err() {
        return Err(VersionError::PluginRequirement);
    }
    match verdict(plugin_version, book_version) {
        Some(true) => Ok(()),
        _ => Err(VersionError::Incompatible),
    }
}

} // verus!
