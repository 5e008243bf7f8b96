//! Structured failures of the materialization engine.
//!
//! Every failure carries a human-readable message naming the offending path
//! or cause. Restore failures are kept distinct from the error that triggered
//! the rollback: they mean the target may be left in a half-written state.

use vstd::prelude::*;

verus! {

/// One failure of building, rendering, saving or restoring a tree.
#[derive(Debug)]
pub enum DotfilerError {
    /// The source entry cannot be represented (unsupported type, bad metadata).
    BuildFailure(String),
    /// The target path exists but holds an incompatible kind of entry.
    PathConflict(String),
    /// Placeholder substitution failed.
    RenderFailure(String),
    /// A read, write, copy, symlink or remove failed.
    IoFailure(String),
    /// A database transaction or query failed.
    DatabaseFailure(String),
    /// An error occurred while rolling back; manual intervention is required.
    RestoreFailure(String),
}

impl DotfilerError {
    /// The message that describes this failure, with its kind spelled out.
    pub open spec fn spec_message(&self) -> Seq<char> {
        match self {
            DotfilerError::BuildFailure(m) => "build failure: "@ + m@,
            DotfilerError::PathConflict(m) => "path conflict: "@ + m@,
            DotfilerError::RenderFailure(m) => "render failure: "@ + m@,
            DotfilerError::IoFailure(m) => "io failure: "@ + m@,
            DotfilerError::DatabaseFailure(m) => "database failure: "@ + m@,
            DotfilerError::RestoreFailure(m) => (
            "restore failure (automatic recovery failed, manual intervention required): "@ + m@
            ),
        }
    }

    /// Renders the failure as one line of text.
    pub fn message(&self) -> (res: String)
        ensures
            res@ == self.spec_message(),
    {
        let mut out: String;
        match self {
            DotfilerError::BuildFailure(m) => {
                out = String::from_str("build failure: ");
                out.append(m.as_str());
            },
            DotfilerError::PathConflict(m) => {
                out = String::from_str("path conflict: ");
                out.append(m.as_str());
            },
            DotfilerError::RenderFailure(m) => {
                out = String::from_str("render failure: ");
                out.append(m.as_str());
            },
            DotfilerError::IoFailure(m) => {
                out = String::from_str("io failure: ");
                out.append(m.as_str());
            },
            DotfilerError::DatabaseFailure(m) => {
                out = String::from_str("database failure: ");
                out.append(m.as_str());
            },
            DotfilerError::RestoreFailure(m) => {
                out = String::from_str(
                    "restore failure (automatic recovery failed, manual intervention required): ",
                );
                out.append(m.as_str());
            },
        }
        out
    }
}

} // verus!
