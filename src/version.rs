use vstd::prelude::*;

verus! {

/// How a version stands to the version that was expected.
#[derive(Debug, Clone, Copy, PartialEq, Eq, Structural)]
pub enum VersionCompatibility {
    /// Same major and minor version.
    Compatible,
    /// Same major version, another minor version.
    MinorIncompatible,
    /// Another major version, or a text that is no version.
    MajorIncompatible,
}

/// Major, minor and patch of a semantic version text, or nothing where the
/// text is no semantic version, as semver reads it.
pub uninterp spec fn parsed_version(s: Seq<char>) -> Option<(u64, u64, u64)>;

/// Relies on semver's `Version::parse`: its result depends on the text alone.
#[verifier::external_body]
fn parse_version(s: &str) -> (r: Option<(u64, u64, u64)>)
    ensures
        r == parsed_version(s@),
{
    match semver::Version::parse(s) {
        Ok(v) => Some((v.major, v.minor, v.patch)),
        Err(_) => None,
    }
}

/// The compatibility of two parsed versions; a version that did not parse
/// counts as a major incompatibility.
pub open spec fn compatibility_of(
    version: Option<(u64, u64, u64)>,
    expected: Option<(u64, u64, u64)>,
) -> VersionCompatibility {
    match (version, expected) {
        (Some(v), Some(e)) => if v.0 != e.0 {
            VersionCompatibility::MajorIncompatible
        } else if v.1 != e.1 {
            VersionCompatibility::MinorIncompatible
        } else {
            VersionCompatibility::Compatible
        },
        _ => VersionCompatibility::MajorIncompatible,
    }
}

/// Compares two parsed versions by major and minor version.
pub fn compare_versions(version: Option<(u64, u64, u64)>, expected: Option<(u64, u64, u64)>) -> (r:
    VersionCompatibility)
    ensures
        r == compatibility_of(version, expected),
{
    match (version, expected) {
        (Some(v), Some(e)) => {
            if v.0 != e.0 {
                VersionCompatibility::MajorIncompatible
            } else if v.1 != e.1 {
                VersionCompatibility::MinorIncompatible
            } else {
                VersionCompatibility::Compatible
            }
        },
        _ => VersionCompatibility::MajorIncompatible,
    }
}

/// Classifies `version` against the `current` version it is expected to match.
pub fn check_version_compatibility(version: &str, current: &str) -> (r: VersionCompatibility)
    ensures
        r == compatibility_of(parsed_version(version@), parsed_version(current@)),
{
    let v = parse_version(version);
    let c = parse_version(current);
    compare_versions(v, c)
}

/// Any version that parses is compatible with itself.
pub proof fn lemma_version_compatible_with_itself(v: Seq<char>)
    requires
        parsed_version(v) is Some,
    ensures
        compatibility_of(parsed_version(v), parsed_version(v)) == VersionCompatibility::Compatible,
{
}

} // verus!
