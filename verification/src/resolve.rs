//! Resolving a request path against what the filesystem holds there: a file
//! with its content type, or a directory with its listing and breadcrumbs.

use crate::breadcrumbs::{breadcrumb_trail, breadcrumbs, crumb_views};
use crate::error::ResolutionError;
use crate::listing::{entry_views, list, readable_entries, sorted_listing, Entry, FsEntry};
use crate::path::{
    lemma_sanitized_string_round_trip, normal_components, path_string, path_to_string,
    sanitize_path,
};
use vstd::prelude::*;

verus! {

/// What the filesystem holds at a sanitized path.
#[derive(Debug)]
pub enum Found {
    /// Nothing, or nothing that could be examined.
    Missing,
    /// A file, with its contents or the reason why they could not be read.
    File(Result<Vec<u8>, String>),
    /// A directory, with its children or the reason why it could not be opened.
    Directory(Result<Vec<FsEntry>, String>),
}

/// A resolved request.
#[derive(Debug)]
pub enum Static {
    Directory { current_path: String, breadcrumbs: Vec<(String, String)>, entries: Vec<Entry> },
    File { mime_type: String, buffer: Vec<u8> },
}

/// The media type that mime_guess gives for a path, written out.
pub uninterp spec fn guessed_mime(path: Seq<char>) -> Seq<char>;

/// Calls `mime_guess::guess_mime_type` and writes the media type out.
/// Trusted: the result is named; mime_guess reads the extension of the path
/// and touches no file.
#[verifier::external_body]
#[allow(deprecated)]
fn guess_mime_type(path: &str) -> (r: String)
    ensures
        r@ == guessed_mime(path@),
{
    mime_guess::guess_mime_type(path).to_string()
}

/// What a request for `path` resolves to when the filesystem holds `found`
/// at the sanitized path.
pub open spec fn resolves_to(
    path: Seq<char>,
    found: Found,
    r: Result<Static, ResolutionError>,
) -> bool {
    let comps = normal_components(path);
    match found {
        Found::Missing => r == Err::<Static, ResolutionError>(ResolutionError::NotFound),
        Found::File(Err(reason)) => r == Err::<Static, ResolutionError>(
            ResolutionError::IoError(reason),
        ),
        Found::File(Ok(bytes)) => {
            &&& r matches Ok(Static::File { mime_type, buffer })
            &&& mime_type@ == guessed_mime(path_string(comps))
            &&& buffer@ == bytes@
        },
        Found::Directory(Err(reason)) => r == Err::<Static, ResolutionError>(
            ResolutionError::IoError(reason),
        ),
        Found::Directory(Ok(children)) => {
            &&& r matches Ok(Static::Directory { current_path, breadcrumbs, entries })
            &&& current_path@ == path_string(comps)
            &&& crumb_views(breadcrumbs@) == breadcrumb_trail(comps)
            &&& entry_views(entries@) == sorted_listing(readable_entries(children@))
        },
    }
}

impl Static {
    /// A file of the given media type: its contents, or `IoError` with the
    /// reason why they could not be read.
    pub fn from_file(mime_type: String, contents: Result<Vec<u8>, String>) -> (r: Result<
        Static,
        ResolutionError,
    >)
        ensures
            match contents {
                Ok(bytes) => {
                    &&& r matches Ok(Static::File { mime_type: m, buffer })
                    &&& m == mime_type
                    &&& buffer@ == bytes@
                },
                Err(reason) => r == Err::<Static, ResolutionError>(
                    ResolutionError::IoError(reason),
                ),
            },
    {
        match contents {
            Ok(buffer) => Ok(Static::File { mime_type, buffer }),
            Err(reason) => Err(ResolutionError::IoError(reason)),
        }
    }

    /// The directory at `path`, which is sanitized first: its path, its
    /// breadcrumbs and its sorted listing, or `IoError` with the reason why
    /// it could not be opened.
    pub fn from_directory(path: &str, children: Result<Vec<FsEntry>, String>) -> (r: Result<
        Static,
        ResolutionError,
    >)
        ensures
            resolves_to(path@, Found::Directory(children), r),
    {
        let sanitized = sanitize_path(path);
        let current_path = path_to_string(&sanitized);
        proof {
            lemma_sanitized_string_round_trip(sanitized@);
        }
        let breadcrumbs = breadcrumbs(current_path.as_str());
        match list(children) {
            Ok(entries) => Ok(Static::Directory { current_path, breadcrumbs, entries }),
            Err(error) => Err(error),
        }
    }

    /// Resolves a request for `path` from what the filesystem holds at the
    /// sanitized path. A missing path is `NotFound`; a file or a directory
    /// that could not be read is an `IoError`; children of a directory whose
    /// metadata could not be read are left out of its listing.
    pub fn new(path: &str, found: Found) -> (r: Result<Static, ResolutionError>)
        ensures
            resolves_to(path@, found, r),
    {
        match found {
            Found::Missing => Err(ResolutionError::NotFound),
            Found::File(contents) => {
                let sanitized = sanitize_path(path);
                let mime_type = guess_mime_type(path_to_string(&sanitized).as_str());
                Static::from_file(mime_type, contents)
            },
            Found::Directory(children) => Static::from_directory(path, children),
        }
    }
}

} // verus!
