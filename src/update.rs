//! Deciding whether the installed mod package is stale, and turning a
//! downloaded update into vetted entries ready to be staged.

use crate::archive::{
    archive_accepted, first_failure_is_traversal, read_archive, stages_archive, zip_opens,
    ExtractError, StagedEntry,
};
use crate::version::{compare_versions, version_order};
use vstd::prelude::*;

verus! {

broadcast use vstd::string::group_string_axioms;

/// What the installed package reports about itself.
pub struct ModInfo {
    pub version: String,
    pub path: String,
    pub needs_update: bool,
}

/// What reading the package's version file gave.
pub enum VersionFile {
    /// The file does not exist: no package is installed.
    Missing,
    /// The file exists but could not be read.
    Unreadable,
    /// The file's contents.
    Contents(String),
}

/// Why fetching and applying an update failed.
#[derive(Debug, Clone, PartialEq, Eq)]
pub enum FetchError {
    /// The download failed, for the given cause.
    DownloadFailed(String),
    /// The downloaded archive could not be extracted.
    ExtractFailed(ExtractError),
}

/// The version reported when none can be read.
pub open spec fn default_version() -> Seq<char> {
    seq!['0', '.', '0', '.', '0']
}

/// Whether `c` has the Unicode White_Space property.
pub open spec fn is_white_space(c: char) -> bool {
    ('\u{9}' <= c && c <= '\u{d}') || c == ' ' || c == '\u{85}' || c == '\u{a0}' || c == '\u{1680}'
        || ('\u{2000}' <= c && c <= '\u{200a}') || c == '\u{2028}' || c == '\u{2029}' || c
        == '\u{202f}' || c == '\u{205f}' || c == '\u{3000}'
}

/// `s` without its leading white space.
pub open spec fn strip_leading(s: Seq<char>) -> Seq<char>
    decreases s.len(),
{
    if s.len() > 0 && is_white_space(s[0]) {
        strip_leading(s.drop_first())
    } else {
        s
    }
}

/// `s` without its trailing white space.
pub open spec fn strip_trailing(s: Seq<char>) -> Seq<char>
    decreases s.len(),
{
    if s.len() > 0 && is_white_space(s.last()) {
        strip_trailing(s.drop_last())
    } else {
        s
    }
}

/// `s` without leading and trailing white space.
pub open spec fn trimmed(s: Seq<char>) -> Seq<char> {
    strip_trailing(strip_leading(s))
}

/// Relies on str::trim: removes the leading and trailing characters that
/// have the Unicode White_Space property (as `char::is_whitespace`).
#[verifier::external_body]
fn trim_text(s: &str) -> (r: &str)
    ensures
        r@ == trimmed(s@),
{
    s.trim()
}

/// Builds the report for an installed package at `mod_path` whose version
/// is `current`: it needs an update exactly when `current` is older than
/// `latest_version`.
pub fn mod_info_from(mod_path: String, current: &str, latest_version: &str) -> (r: ModInfo)
    ensures
        r.version@ == current@,
        r.path == mod_path,
        r.needs_update == (version_order(current@, latest_version@) < 0),
{
    let needs_update = compare_versions(current, latest_version) < 0;
    ModInfo { version: current.to_string(), path: mod_path, needs_update }
}

/// Decides the report for the package at `mod_path` from what its version
/// file gave. A missing file means no package, which always needs an update;
/// an unreadable one counts as version `0.0.0`; otherwise the trimmed
/// contents are the version.
pub fn check_mod_version(mod_path: String, version_file: VersionFile, latest_version: &str) -> (r:
    ModInfo)
    ensures
        r.path == mod_path,
        version_file is Missing ==> r.version@ == default_version() && r.needs_update,
        version_file is Unreadable ==> r.version@ == default_version() && r.needs_update == (
        version_order(default_version(), latest_version@) < 0),
        version_file matches VersionFile::Contents(c) ==> r.version@ == trimmed(c@)
            && r.needs_update == (version_order(trimmed(c@), latest_version@) < 0),
{
    proof {
        reveal_strlit("0.0.0");
        assert("0.0.0"@ =~= default_version());
    }
    match version_file {
        VersionFile::Missing => ModInfo {
            version: "0.0.0".to_string(),
            path: mod_path,
            needs_update: true,
        },
        VersionFile::Unreadable => mod_info_from(mod_path, "0.0.0", latest_version),
        VersionFile::Contents(c) => mod_info_from(mod_path, trim_text(c.as_str()), latest_version),
    }
}

/// What staging the downloaded archive `bytes` may give: every entry in
/// index order when the whole archive can be extracted, and otherwise the
/// extraction error of its first failing entry.
pub open spec fn staged_from(bytes: Seq<u8>, r: Result<Vec<StagedEntry>, FetchError>) -> bool {
    match r {
        Ok(es) => archive_accepted(bytes) && stages_archive(bytes, es@),
        Err(FetchError::ExtractFailed(e)) => {
            &&& !archive_accepted(bytes)
            &&& (e is BadArchive || e is PathTraversal)
            &&& (e is PathTraversal <==> first_failure_is_traversal(bytes))
        },
        Err(FetchError::DownloadFailed(_)) => false,
    }
}

/// Turns the outcome of downloading an update into the entries to stage. A
/// failed download is reported with its cause; otherwise the archive is read
/// and vetted, and nothing is written, so a failure leaves the destination
/// untouched.
pub fn stage_download(download: Result<Vec<u8>, String>) -> (r: Result<Vec<StagedEntry>, FetchError>)
    ensures
        download matches Err(cause) ==> r == Err::<Vec<StagedEntry>, FetchError>(
            FetchError::DownloadFailed(cause),
        ),
        download matches Ok(b) ==> staged_from(b@, r),
        download matches Ok(b) ==> (!zip_opens(b@) ==> r == Err::<Vec<StagedEntry>, FetchError>(
            FetchError::ExtractFailed(ExtractError::BadArchive),
        )),
{
    match download {
        Err(cause) => Err(FetchError::DownloadFailed(cause)),
        Ok(bytes) => match read_archive(bytes) {
            Ok(es) => Ok(es),
            Err(e) => Err(FetchError::ExtractFailed(e)),
        },
    }
}

} // verus!
