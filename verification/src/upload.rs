//! Taking a note in: where it goes, and what is done step by step.
//!
//! Storing a note is the storage layer's work and the caller's. This module
//! decides the order of the steps and the reply: the note is created first,
//! then the vault is located, then the note's text is written, and the first
//! step that fails ends the upload with its error.

use vstd::prelude::*;

use crate::reply::{internal_error, Failure, INTERNAL_SERVER_ERROR};

verus! {

/// A request to store a note: its path relative to the vault's root, and its
/// whole text.
#[derive(Clone, Debug, PartialEq, Eq)]
pub struct UploadNoteRequest {
    pub relpath: String,
    pub content: String,
}

/// The parent of a path, as `std::path::Path::parent` gives it under the path
/// syntax that the library is built for: the path without its final
/// component, and nothing where the path has no such component to leave out.
pub uninterp spec fn parent_of(path: Seq<char>) -> Option<Seq<char>>;

/// The stem of the file that a path names, as `std::path::Path::file_stem`
/// gives it under the path syntax that the library is built for: the name of
/// the file without its extension, and nothing where the path names no file.
pub uninterp spec fn file_stem_of(path: Seq<char>) -> Option<Seq<char>>;

/// Calls `std::path::Path::parent` on the path and hands the parent on as
/// text. The result depends on the path alone; the contract gives it the name
/// `parent_of` and claims nothing else of it.
#[verifier::external_body]
fn path_parent(relpath: &str) -> (parent: Option<String>)
    ensures
        match parent {
            Some(p) => parent_of(relpath@) == Some(p@),
            None => parent_of(relpath@) is None,
        },
{
    match std::path::Path::new(relpath).parent() {
        Some(p) => Some(p.to_string_lossy().to_string()),
        None => None,
    }
}

/// Calls `std::path::Path::file_stem` on the path and hands the stem on as
/// text. The result depends on the path alone; the contract gives it the name
/// `file_stem_of` and claims nothing else of it.
#[verifier::external_body]
fn path_file_stem(relpath: &str) -> (stem: Option<String>)
    ensures
        match stem {
            Some(t) => file_stem_of(relpath@) == Some(t@),
            None => file_stem_of(relpath@) is None,
        },
{
    match std::path::Path::new(relpath).file_stem() {
        Some(s) => Some(s.to_string_lossy().to_string()),
        None => None,
    }
}

/// Calls `std::path::Path::join` and hands the joined path on as text. How
/// two paths are joined follows the path syntax of the platform, so the
/// contract claims nothing of the result.
#[verifier::external_body]
fn path_join(dir: &str, relpath: &str) -> (path: String) {
    std::path::Path::new(dir).join(relpath).to_string_lossy().to_string()
}

/// Where a note is created: the project is the directory of its path, the
/// title the name of its file without the extension; each is empty where the
/// path has none.
pub fn note_place(parent: Option<String>, stem: Option<String>) -> (place: (String, String))
    ensures
        place.0@ == (match parent {
            Some(p) => p@,
            None => Seq::empty(),
        }),
        place.1@ == (match stem {
            Some(s) => s@,
            None => Seq::empty(),
        }),
{
    let project = match parent {
        Some(p) => p,
        None => String::new(),
    };
    let title = match stem {
        Some(s) => s,
        None => String::new(),
    };
    (project, title)
}

/// A text that may be missing, taken as empty where it is.
pub open spec fn text_or_empty(text: Option<Seq<char>>) -> Seq<char> {
    match text {
        Some(t) => t,
        None => Seq::empty(),
    }
}

/// The place of the note at a path: the project is the parent of the path,
/// the title the stem of its file, each empty where the path has none.
pub open spec fn place_of(relpath: Seq<char>) -> (Seq<char>, Seq<char>) {
    (text_or_empty(parent_of(relpath)), text_or_empty(file_stem_of(relpath)))
}

/// Begins an upload: gives the project and the title under which the storage
/// layer is to create the note, both taken from the note's path.
pub fn upload_begin(request: &UploadNoteRequest) -> (place: (String, String))
    ensures
        place.0@ == place_of(request.relpath@).0,
        place.1@ == place_of(request.relpath@).1,
{
    let parent = path_parent(request.relpath.as_str());
    let stem = path_file_stem(request.relpath.as_str());
    note_place(parent, stem)
}

/// What came of the step of an upload that the caller has just made.
#[derive(Debug, PartialEq, Eq)]
pub enum UploadEvent {
    /// The storage layer created the note, or failed to.
    Created(Result<(), String>),
    /// The vault's directory was found, or was not.
    Resolved(Result<String, String>),
    /// The note's text was written, or was not.
    Written(Result<(), String>),
}

/// What the caller does next for an upload.
#[derive(Debug, PartialEq, Eq)]
pub enum UploadAction {
    /// Find the vault's directory.
    Resolve,
    /// Write this text to this file.
    Write { path: String, content: String },
    /// Answer the client: the upload is over.
    Done(Result<String, Failure>),
}

/// What a client is told of an upload that went through.
pub open spec fn uploaded_message() -> Seq<char> {
    "Note uploaded"@
}

/// Decides the next step of an upload from what came of the last one. After
/// the note is created the vault is located; after that the note's text is
/// written, as it was sent; after that the client is told of the upload. A
/// step that failed ends the upload with its error under the status of an
/// internal error.
pub fn upload_note(request: &UploadNoteRequest, event: UploadEvent) -> (next: UploadAction)
    ensures
        match event {
            UploadEvent::Created(Ok(_)) => next is Resolve,
            UploadEvent::Resolved(Ok(dir)) => next matches UploadAction::Write { path, content }
                && content@ == request.content@,
            UploadEvent::Written(Ok(_)) => next matches UploadAction::Done(Ok(m)) && m@
                == uploaded_message(),
            UploadEvent::Created(Err(e)) | UploadEvent::Resolved(Err(e)) | UploadEvent::Written(
                Err(e),
            ) => next matches UploadAction::Done(Err(f)) && f.status == INTERNAL_SERVER_ERROR
                && f.message@ == e@,
        },
{
    match event {
        UploadEvent::Created(Ok(_)) => UploadAction::Resolve,
        UploadEvent::Resolved(Ok(dir)) => UploadAction::Write {
            path: path_join(dir.as_str(), request.relpath.as_str()),
            content: request.content.clone(),
        },
        UploadEvent::Written(Ok(_)) => UploadAction::Done(Ok("Note uploaded".to_owned())),
        UploadEvent::Created(Err(e)) => UploadAction::Done(Err(internal_error(e))),
        UploadEvent::Resolved(Err(e)) => UploadAction::Done(Err(internal_error(e))),
        UploadEvent::Written(Err(e)) => UploadAction::Done(Err(internal_error(e))),
    }
}

} // verus!
