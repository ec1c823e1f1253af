//! The ways an operation can fail.
use vstd::prelude::*;
use crate::text::{append_str, chars_of, string_of};

verus! {

/// Why an operation did not go through. Failures reported by the file
/// system or by a parser carry their message as text.
#[derive(Debug)]
pub enum FiloError {
    NotFound(String),
    AlreadyExists(String),
    NotADirectory(String),
    WouldOverwrite(String),
    NameCollision(String),
    NothingToUndo,
    NothingToRedo,
    NotReversible(String),
    BadPattern(String),
    NoDataDir,
    PathIo(String, String),
    Io(String),
    Json(String),
    Toml(String),
    Regex(String),
    WalkDir(String),
}

/// The message a person sees for an error.
pub open spec fn error_text(e: FiloError) -> Seq<char> {
    match e {
        FiloError::NotFound(p) => "path does not exist: "@ + p@,
        FiloError::AlreadyExists(p) => "path already exists: "@ + p@,
        FiloError::NotADirectory(p) => "destination is not a directory: "@ + p@,
        FiloError::WouldOverwrite(p) => "refusing to overwrite existing path: "@ + p@,
        FiloError::NameCollision(p) => "bulk rename would create a name collision: "@ + p@,
        FiloError::NothingToUndo => "nothing to undo"@,
        FiloError::NothingToRedo => "nothing to redo"@,
        FiloError::NotReversible(why) => "cannot undo: "@ + why@,
        FiloError::BadPattern(p) => "invalid rename pattern: "@ + p@,
        FiloError::NoDataDir => "could not determine a data directory for filo"@,
        FiloError::PathIo(what, cause) => what@ + ": "@ + cause@,
        FiloError::Io(m) => m@,
        FiloError::Json(m) => m@,
        FiloError::Toml(m) => m@,
        FiloError::Regex(m) => m@,
        FiloError::WalkDir(m) => m@,
    }
}

impl FiloError {
    /// The message a person sees.
    pub fn message(&self) -> (s: String)
        ensures
            s@ == error_text(*self),
    {
        let mut v: Vec<char> = Vec::new();
        match self {
            FiloError::NotFound(p) => {
                append_str(&mut v, "path does not exist: ");
                append_str(&mut v, p.as_str());
            },
            FiloError::AlreadyExists(p) => {
                append_str(&mut v, "path already exists: ");
                append_str(&mut v, p.as_str());
            },
            FiloError::NotADirectory(p) => {
                append_str(&mut v, "destination is not a directory: ");
                append_str(&mut v, p.as_str());
            },
            FiloError::WouldOverwrite(p) => {
                append_str(&mut v, "refusing to overwrite existing path: ");
                append_str(&mut v, p.as_str());
            },
            FiloError::NameCollision(p) => {
                append_str(&mut v, "bulk rename would create a name collision: ");
                append_str(&mut v, p.as_str());
            },
            FiloError::NothingToUndo => {
                append_str(&mut v, "nothing to undo");
            },
            FiloError::NothingToRedo => {
                append_str(&mut v, "nothing to redo");
            },
            FiloError::NotReversible(why) => {
                append_str(&mut v, "cannot undo: ");
                append_str(&mut v, why.as_str());
            },
            FiloError::BadPattern(p) => {
                append_str(&mut v, "invalid rename pattern: ");
                append_str(&mut v, p.as_str());
            },
            FiloError::NoDataDir => {
                append_str(&mut v, "could not determine a data directory for filo");
            },
            FiloError::PathIo(what, cause) => {
                append_str(&mut v, what.as_str());
                append_str(&mut v, ": ");
                append_str(&mut v, cause.as_str());
            },
            FiloError::Io(m) => {
                append_str(&mut v, m.as_str());
            },
            FiloError::Json(m) => {
                append_str(&mut v, m.as_str());
            },
            FiloError::Toml(m) => {
                append_str(&mut v, m.as_str());
            },
            FiloError::Regex(m) => {
                append_str(&mut v, m.as_str());
            },
            FiloError::WalkDir(m) => {
                append_str(&mut v, m.as_str());
            },
        }
        proof {
            assert(Seq::<char>::empty() + error_text(*self) =~= error_text(*self));
        }
        string_of(&v)
    }
}

} // verus!
