//! What can go wrong, and how it is told.

use crate::text::{decimal, lossy, push_decimal, push_text, text_lossy};
use vstd::prelude::*;

verus! {

/// Why an operation on the trash failed.
#[derive(Debug)]
pub enum TrashError {
    /// A system call failed.
    Io(String),
    NotFound(Vec<u8>),
    /// The settings say that the path is not trashed.
    Excluded(Vec<u8>),
    TooLarge { path: Vec<u8>, size_mb: u64, limit_mb: u64 },
    Index(String),
    EntryNotFound(String),
    /// Something stands where the item would be restored to.
    RestoreConflict(Vec<u8>),
    /// The recorded path leads out of where the item can have stood.
    RestoreTraversal(Vec<u8>),
    AmbiguousMatch { pattern: String, count: usize },
    HashMismatch { path: Vec<u8>, expected: String, actual: String },
    /// The item is part of the trash, or has no place to go back to.
    Refused(Vec<u8>),
}

/// An error as values.
#[verifier::ext_equal]
pub enum Failure {
    Io(Seq<char>),
    NotFound(Seq<u8>),
    Excluded(Seq<u8>),
    TooLarge { path: Seq<u8>, size_mb: u64, limit_mb: u64 },
    Index(Seq<char>),
    EntryNotFound(Seq<char>),
    RestoreConflict(Seq<u8>),
    RestoreTraversal(Seq<u8>),
    AmbiguousMatch { pattern: Seq<char>, count: nat },
    HashMismatch { path: Seq<u8>, expected: Seq<char>, actual: Seq<char> },
    Refused(Seq<u8>),
}

impl View for TrashError {
    type V = Failure;

    open spec fn view(&self) -> Failure {
        match *self {
            TrashError::Io(e) => Failure::Io(e@),
            TrashError::NotFound(p) => Failure::NotFound(p@),
            TrashError::Excluded(p) => Failure::Excluded(p@),
            TrashError::TooLarge { path, size_mb, limit_mb } => Failure::TooLarge {
                path: path@,
                size_mb,
                limit_mb,
            },
            TrashError::Index(e) => Failure::Index(e@),
            TrashError::EntryNotFound(n) => Failure::EntryNotFound(n@),
            TrashError::RestoreConflict(p) => Failure::RestoreConflict(p@),
            TrashError::RestoreTraversal(p) => Failure::RestoreTraversal(p@),
            TrashError::AmbiguousMatch { pattern, count } => Failure::AmbiguousMatch {
                pattern: pattern@,
                count: count as nat,
            },
            TrashError::HashMismatch { path, expected, actual } => Failure::HashMismatch {
                path: path@,
                expected: expected@,
                actual: actual@,
            },
            TrashError::Refused(p) => Failure::Refused(p@),
        }
    }
}

/// How an error is told.
pub open spec fn told(f: Failure) -> Seq<char> {
    match f {
        Failure::Io(e) => "io error: "@ + e,
        Failure::NotFound(p) => "path does not exist: "@ + lossy(p),
        Failure::Excluded(p) => "path is in never-trash list: "@ + lossy(p),
        Failure::TooLarge { path, size_mb, limit_mb } => "file too large ("@ + decimal(
            size_mb as nat,
        ) + " MB > "@ + decimal(limit_mb as nat) + " MB limit): "@ + lossy(path),
        Failure::Index(e) => "index error: "@ + e,
        Failure::EntryNotFound(n) => "trash entry not found: "@ + n,
        Failure::RestoreConflict(p) => "original path already exists: "@ + lossy(p),
        Failure::RestoreTraversal(p) =>
        "refusing to restore outside the original location (possible path traversal): "@ + lossy(p),
        Failure::AmbiguousMatch { pattern, count } => "multiple matches for '"@ + pattern + "': "@
            + decimal(count) + " items (use trash ID for exact match)"@,
        Failure::HashMismatch { path, expected, actual } => "hash mismatch for '"@ + lossy(path)
            + "': expected "@ + expected + ", got "@ + actual,
        Failure::Refused(p) => "refused: "@ + lossy(p),
    }
}

fn with_path(start: &str, p: &[u8]) -> (r: String)
    ensures
        r@ == start@ + lossy(p@),
{
    let mut r: String = start.to_owned();
    let t = text_lossy(p);
    push_text(&mut r, t.as_str());
    r
}

fn with_text(start: &str, t: &str) -> (r: String)
    ensures
        r@ == start@ + t@,
{
    let mut r: String = start.to_owned();
    push_text(&mut r, t);
    r
}

impl TrashError {
    /// How the error is told.
    pub fn message(&self) -> (r: String)
        ensures
            r@ == told(self@),
    {
        match self {
            TrashError::Io(e) => with_text("io error: ", e.as_str()),
            TrashError::NotFound(p) => with_path("path does not exist: ", p.as_slice()),
            TrashError::Excluded(p) => with_path("path is in never-trash list: ", p.as_slice()),
            TrashError::TooLarge { path, size_mb, limit_mb } => {
                let mut r: String = "file too large (".to_owned();
                push_decimal(&mut r, *size_mb);
                push_text(&mut r, " MB > ");
                push_decimal(&mut r, *limit_mb);
                push_text(&mut r, " MB limit): ");
                let t = text_lossy(path.as_slice());
                push_text(&mut r, t.as_str());
                r
            },
            TrashError::Index(e) => with_text("index error: ", e.as_str()),
            TrashError::EntryNotFound(n) => with_text("trash entry not found: ", n.as_str()),
            TrashError::RestoreConflict(p) => with_path(
                "original path already exists: ",
                p.as_slice(),
            ),
            TrashError::RestoreTraversal(p) => with_path(
                "refusing to restore outside the original location (possible path traversal): ",
                p.as_slice(),
            ),
            TrashError::AmbiguousMatch { pattern, count } => {
                let mut r = with_text("multiple matches for '", pattern.as_str());
                push_text(&mut r, "': ");
                push_decimal(&mut r, *count as u64);
                push_text(&mut r, " items (use trash ID for exact match)");
                r
            },
            TrashError::HashMismatch { path, expected, actual } => {
                let mut r = with_path("hash mismatch for '", path.as_slice());
                push_text(&mut r, "': expected ");
                push_text(&mut r, expected.as_str());
                push_text(&mut r, ", got ");
                push_text(&mut r, actual.as_str());
                r
            },
            TrashError::Refused(p) => with_path("refused: ", p.as_slice()),
        }
    }
}

} // verus!
