//! Version gating: which `flintVersion`s this implementation supports.
use vstd::prelude::*;

use crate::text::push_str;

verus! {

#[verifier::external_type_specification]
#[verifier::external_body]
pub struct ExVersionReq(semver::VersionReq);

/// Whether `semver::VersionReq::parse` accepts the text.
pub uninterp spec fn req_text_parses(text: Seq<char>) -> bool;

/// Whether `semver::Version::parse` accepts the text.
pub uninterp spec fn version_text_parses(text: Seq<char>) -> bool;

/// Whether the requirement written `req` matches the version written
/// `version` (`VersionReq::matches` on the two parsed values).
pub uninterp spec fn req_matches_version(req: Seq<char>, version: Seq<char>) -> bool;

/// How semver writes the version written `version` (`Display` of the parsed
/// value).
pub uninterp spec fn version_display(version: Seq<char>) -> Seq<char>;

/// `semver::VersionReq::parse`; the contract names whether it succeeds.
#[verifier::external_body]
fn parse_version_req(text: &str) -> (r: Option<semver::VersionReq>)
    ensures
        r is Some == req_text_parses(text@),
{
    semver::VersionReq::parse(text).ok()
}

/// Whether `semver::Version::parse` accepts the text; the answer is named.
#[verifier::external_body]
fn version_parses(text: &str) -> (r: bool)
    ensures
        r == version_text_parses(text@),
{
    semver::Version::parse(text).is_ok()
}

/// `semver::VersionReq::parse` of `req`, `semver::Version::parse` of
/// `version`, then `VersionReq::matches`. `None` when either text does not
/// parse; otherwise the named answer.
#[verifier::external_body]
fn matches_text(req: &str, version: &str) -> (r: Option<bool>)
    ensures
        r is Some == (req_text_parses(req@) && version_text_parses(version@)),
        r matches Some(b) ==> b == req_matches_version(req@, version@),
{
    match (semver::VersionReq::parse(req), semver::Version::parse(version)) {
        (Ok(q), Ok(v)) => Some(q.matches(&v)),
        _ => None,
    }
}

/// `semver::Version::parse`, then `Display` of the version. `None` when the
/// text does not parse; otherwise the named text.
#[verifier::external_body]
fn display_version(version: &str) -> (r: Option<String>)
    ensures
        r is Some == version_text_parses(version@),
        r matches Some(t) ==> t@ == version_display(version@),
{
    semver::Version::parse(version).ok().map(|v| v.to_string())
}

/// The requirement on `flintVersion` this implementation supports:
/// `<=1.0.0`. `None` only if semver refuses that text.
pub fn get_supported_version() -> (r: Option<semver::VersionReq>)
    ensures
        r is Some == req_text_parses("<=1.0.0"@),
{
    parse_version_req("<=1.0.0")
}

/// Why a test is skipped, given the text of its version.
pub open spec fn skip_text(v: Seq<char>) -> Seq<char> {
    "requires flint_version "@ + v + ", implementation supports "@ + v
}

/// The reason given for skipping a test whose version shows as `shown`.
pub fn skip_reason(shown: &str) -> (r: String)
    ensures
        r@ == skip_text(shown@),
{
    let mut r = String::new();
    push_str(&mut r, "requires flint_version ");
    push_str(&mut r, shown);
    push_str(&mut r, ", implementation supports ");
    push_str(&mut r, shown);
    r
}

/// The decision once semver has answered: load the test (`None`) when the
/// requirement matches its version, else skip it with the reason naming the
/// version as `shown`.
pub fn skip_decision(matches: bool, shown: &str) -> (r: Option<String>)
    ensures
        matches <==> r is None,
        r matches Some(m) ==> m@ == skip_text(shown@),
{
    if matches {
        None
    } else {
        Some(skip_reason(shown))
    }
}

/// The version a test is checked as: its `flintVersion`, or 0.0.0 when
/// semver does not accept that text.
pub open spec fn effective_version(flint_version: Seq<char>) -> Seq<char> {
    if version_text_parses(flint_version) {
        flint_version
    } else {
        "0.0.0"@
    }
}

/// Whether a test is loaded: the requirement parses and matches the
/// effective version.
pub open spec fn version_accepted(req: Seq<char>, flint_version: Seq<char>) -> bool {
    let v = effective_version(flint_version);
    req_text_parses(req) && version_text_parses(v) && req_matches_version(req, v)
}

/// How the effective version is shown in a skip reason.
pub open spec fn shown_version(flint_version: Seq<char>) -> Seq<char> {
    let v = effective_version(flint_version);
    if version_text_parses(v) {
        version_display(v)
    } else {
        v
    }
}

/// Checks a test's `flintVersion` against the requirement written `req`. A
/// text semver does not accept counts as version 0.0.0. Gives `None` to load
/// the test when the requirement matches, else the reason to skip it; a
/// requirement semver does not accept matches nothing.
pub fn check_flint_version(req: &str, flint_version: &str) -> (r: Option<String>)
    ensures
        r is None <==> version_accepted(req@, flint_version@),
        r matches Some(m) ==> m@ == skip_text(shown_version(flint_version@)),
{
    let version: &str = if version_parses(flint_version) {
        flint_version
    } else {
        "0.0.0"
    };
    let matches = match matches_text(req, version) {
        Some(b) => b,
        None => false,
    };
    let shown = match display_version(version) {
        Some(t) => t,
        None => version.to_string(),
    };
    skip_decision(matches, shown.as_str())
}

} // verus!
