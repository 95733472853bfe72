//! From the path that a locator names to the URI of the file it means.
//!
//! Paths and `file:` URIs are taken apart and put together by `std::path`
//! and by the `url` crate that `tower-lsp` hands on, by the rules of the
//! platform the library is built for. This module calls them and proves
//! nothing about what they compute: each result has a name, and the
//! contracts say which of those results are combined, and how.

use vstd::prelude::*;
use vstd::string::*;
use crate::encoding::text_of;

verus! {

/// Whether `std::path::Path::is_absolute` holds of the path written `path`.
pub uninterp spec fn path_is_absolute(path: Seq<char>) -> bool;

/// What `std::path::Path::parent` gives for the path written `path`.
pub uninterp spec fn path_parent(path: Seq<char>) -> Option<Seq<char>>;

/// What `std::path::Path::join` gives for the path `base` and the path `path`.
pub uninterp spec fn path_join(base: Seq<char>, path: Seq<char>) -> Seq<char>;

/// The file path that `Url::to_file_path` gives for the URI written `uri`.
pub uninterp spec fn uri_file_path(uri: Seq<char>) -> Option<Seq<char>>;

/// The URI that `Url::from_file_path` gives for the path written `path`.
pub uninterp spec fn file_path_uri(path: Seq<char>) -> Option<Seq<char>>;

/// Calls `std::path::Path::is_absolute` on `path`. Unproved: the contract
/// only gives the answer its name.
#[verifier::external_body]
fn is_absolute_path(path: &str) -> (r: bool)
    ensures
        r == path_is_absolute(path@),
{
    std::path::Path::new(path).is_absolute()
}

/// Calls `std::path::Path::parent` on `path`. Unproved: the contract only
/// gives the result its name.
#[verifier::external_body]
fn parent_of_path(path: &str) -> (r: Option<String>)
    ensures
        text_of(r) == path_parent(path@),
{
    let parent = std::path::Path::new(path).parent()?;
    Some(parent.to_string_lossy().into_owned())
}

/// Calls `std::path::Path::join` on `base` with `path`. Unproved: the
/// contract only gives the result its name.
#[verifier::external_body]
fn join_paths(base: &str, path: &str) -> (r: String)
    ensures
        r@ == path_join(base@, path@),
{
    std::path::Path::new(base).join(path).to_string_lossy().into_owned()
}

/// Parses `uri` with `Url::parse` and calls `Url::to_file_path` on it; a
/// URI that does not parse, or whose path is not UTF-8, has no file path
/// here. Unproved: the contract only gives the result its name.
#[verifier::external_body]
fn file_path_of_uri(uri: &str) -> (r: Option<String>)
    ensures
        text_of(r) == uri_file_path(uri@),
{
    let url = tower_lsp::lsp_types::Url::parse(uri).ok()?;
    let path = url.to_file_path().ok()?;
    Some(path.to_str()?.to_owned())
}

/// Calls `Url::from_file_path` on `path` and hands back the URI's text.
/// Unproved: the contract only gives the result its name.
#[verifier::external_body]
fn uri_of_file_path(path: &str) -> (r: Option<String>)
    ensures
        text_of(r) == file_path_uri(path@),
{
    let url = tower_lsp::lsp_types::Url::from_file_path(path).ok()?;
    Some(url.into())
}

/// The URI of the file that `path` means in an annotation of the document
/// `source_uri`: the file at `path` when `path` is absolute, else the file
/// at `path` seen from the directory of the document.
pub open spec fn resolve_spec(path: Seq<char>, source_uri: Seq<char>) -> Option<Seq<char>> {
    if path_is_absolute(path) {
        file_path_uri(path)
    } else {
        match uri_file_path(source_uri) {
            Some(source_path) => match path_parent(source_path) {
                Some(directory) => file_path_uri(path_join(directory, path)),
                None => None,
            },
            None => None,
        }
    }
}

/// The URI of the file that a locator's `path` means when the locator
/// stands in the document `source_uri`. An absolute path is taken as it is;
/// any other is taken from the directory of the document. `None` when the
/// document is no file, has no directory, or the path makes no URI.
pub fn resolve_target_url(path: &str, source_uri: &str) -> (r: Option<String>)
    ensures
        text_of(r) == resolve_spec(path@, source_uri@),
{
    if is_absolute_path(path) {
        uri_of_file_path(path)
    } else {
        let source_path = match file_path_of_uri(source_uri) {
            Some(p) => p,
            None => {
                return None;
            },
        };
        let directory = match parent_of_path(source_path.as_str()) {
            Some(d) => d,
            None => {
                return None;
            },
        };
        let resolved = join_paths(directory.as_str(), path);
        uri_of_file_path(resolved.as_str())
    }
}

} // verus!
