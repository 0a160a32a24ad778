//! What can go wrong in a run, and how it is reported.

use vstd::prelude::*;

verus! {

/// The five families of failure.
#[derive(Debug, Clone, Copy, PartialEq, Eq)]
pub enum ErrorKind {
    /// A parameter is outside what the engine accepts.
    InvalidArgument,
    /// The base directory or a file path cannot be used.
    Path,
    /// The glob pattern was refused.
    Glob,
    /// The filesystem refused an operation.
    Filesystem,
    /// Something already sits where a folder or file should go.
    Conflict,
}

/// A terminal error of a run.
#[derive(Debug, PartialEq, Eq)]
pub enum RefolderError {
    /// Zero subfolders were asked for.
    ZeroSubfolders,
    /// The suffix style is none of `numbers`, `letters`, `none`.
    UnknownSuffix { style: String },
    /// The base path does not exist.
    PathMissing { path: String },
    /// The base path exists and is not a directory.
    NotADirectory { path: String },
    /// The path could not be resolved to its canonical form; `cause` is what
    /// the operating system reported.
    Unresolvable { path: String, cause: String },
    /// The path cannot be written as text.
    NotText { path: String },
    /// The path has no final component that could name the moved file.
    InvalidFileName { path: String },
    /// The glob walker could not be built for `root`; `cause` is the reason
    /// that the pattern parser gave.
    Glob { root: String, cause: String },
    /// A filesystem operation failed; `context` says which one and on what
    /// path, `cause` is what the operating system reported.
    Filesystem { context: String, cause: String },
    /// The destination folder path exists and is not a directory.
    FolderConflict { path: String },
    /// The destination file exists and overwriting was not asked for.
    FileConflict { path: String },
}

/// An error as plain values: each path and text as its characters.
pub enum ErrorView {
    ZeroSubfolders,
    UnknownSuffix { style: Seq<char> },
    PathMissing { path: Seq<char> },
    NotADirectory { path: Seq<char> },
    Unresolvable { path: Seq<char>, cause: Seq<char> },
    NotText { path: Seq<char> },
    InvalidFileName { path: Seq<char> },
    Glob { root: Seq<char>, cause: Seq<char> },
    Filesystem { context: Seq<char>, cause: Seq<char> },
    FolderConflict { path: Seq<char> },
    FileConflict { path: Seq<char> },
}

impl View for RefolderError {
    type V = ErrorView;

    open spec fn view(&self) -> ErrorView {
        match self {
            RefolderError::ZeroSubfolders => ErrorView::ZeroSubfolders,
            RefolderError::UnknownSuffix { style } => ErrorView::UnknownSuffix { style: style@ },
            RefolderError::PathMissing { path } => ErrorView::PathMissing { path: path@ },
            RefolderError::NotADirectory { path } => ErrorView::NotADirectory { path: path@ },
            RefolderError::Unresolvable { path, cause } => ErrorView::Unresolvable {
                path: path@,
                cause: cause@,
            },
            RefolderError::NotText { path } => ErrorView::NotText { path: path@ },
            RefolderError::InvalidFileName { path } => ErrorView::InvalidFileName { path: path@ },
            RefolderError::Glob { root, cause } => ErrorView::Glob { root: root@, cause: cause@ },
            RefolderError::Filesystem { context, cause } => ErrorView::Filesystem {
                context: context@,
                cause: cause@,
            },
            RefolderError::FolderConflict { path } => ErrorView::FolderConflict { path: path@ },
            RefolderError::FileConflict { path } => ErrorView::FileConflict { path: path@ },
        }
    }
}

impl RefolderError {
    /// The family that this error belongs to.
    pub open spec fn kind_of(self) -> ErrorKind {
        match self {
            RefolderError::ZeroSubfolders => ErrorKind::InvalidArgument,
            RefolderError::UnknownSuffix { .. } => ErrorKind::InvalidArgument,
            RefolderError::PathMissing { .. } => ErrorKind::Path,
            RefolderError::NotADirectory { .. } => ErrorKind::Path,
            RefolderError::Unresolvable { .. } => ErrorKind::Path,
            RefolderError::NotText { .. } => ErrorKind::Path,
            RefolderError::InvalidFileName { .. } => ErrorKind::Path,
            RefolderError::Glob { .. } => ErrorKind::Glob,
            RefolderError::Filesystem { .. } => ErrorKind::Filesystem,
            RefolderError::FolderConflict { .. } => ErrorKind::Conflict,
            RefolderError::FileConflict { .. } => ErrorKind::Conflict,
        }
    }

    /// The text that `message` returns.
    pub open spec fn message_of(self) -> Seq<char> {
        match self {
            RefolderError::ZeroSubfolders => "subfolders must be greater than zero"@,
            RefolderError::UnknownSuffix { style } => "Unknown suffix style '"@ + style@
                + "'. Use numbers|letters|none"@,
            RefolderError::PathMissing { path } => "Path '"@ + path@ + "' does not exist"@,
            RefolderError::NotADirectory { path } => "Path '"@ + path@ + "' is not a directory"@,
            RefolderError::Unresolvable { path, cause } => "Failed to canonicalize "@ + path@
                + ": "@ + cause@,
            RefolderError::NotText { path } => "Path "@ + path@ + " is not valid UTF-8"@,
            RefolderError::InvalidFileName { path } => "Invalid filename for "@ + path@,
            RefolderError::Glob { root, cause } => "Failed building glob walker for "@ + root@
                + ": "@ + cause@,
            RefolderError::Filesystem { context, cause } => context@ + ": "@ + cause@,
            RefolderError::FolderConflict { path } => "Destination path "@ + path@
                + " exists and is not a directory"@,
            RefolderError::FileConflict { path } => "Destination file "@ + path@
                + " already exists (use --force to overwrite)"@,
        }
    }

    /// The family that this error belongs to.
    pub fn kind(&self) -> (kind: ErrorKind)
        ensures
            kind == self.kind_of(),
    {
        match self {
            RefolderError::ZeroSubfolders => ErrorKind::InvalidArgument,
            RefolderError::UnknownSuffix { .. } => ErrorKind::InvalidArgument,
            RefolderError::PathMissing { .. } => ErrorKind::Path,
            RefolderError::NotADirectory { .. } => ErrorKind::Path,
            RefolderError::Unresolvable { .. } => ErrorKind::Path,
            RefolderError::NotText { .. } => ErrorKind::Path,
            RefolderError::InvalidFileName { .. } => ErrorKind::Path,
            RefolderError::Glob { .. } => ErrorKind::Glob,
            RefolderError::Filesystem { .. } => ErrorKind::Filesystem,
            RefolderError::FolderConflict { .. } => ErrorKind::Conflict,
            RefolderError::FileConflict { .. } => ErrorKind::Conflict,
        }
    }

    /// A copy of this error.
    pub fn duplicate(&self) -> (copy: RefolderError)
        ensures
            copy@ == self@,
    {
        match self {
            RefolderError::ZeroSubfolders => RefolderError::ZeroSubfolders,
            RefolderError::UnknownSuffix { style } => RefolderError::UnknownSuffix {
                style: style.clone(),
            },
            RefolderError::PathMissing { path } => RefolderError::PathMissing { path: path.clone() },
            RefolderError::NotADirectory { path } => RefolderError::NotADirectory {
                path: path.clone(),
            },
            RefolderError::Unresolvable { path, cause } => RefolderError::Unresolvable {
                path: path.clone(),
                cause: cause.clone(),
            },
            RefolderError::NotText { path } => RefolderError::NotText { path: path.clone() },
            RefolderError::InvalidFileName { path } => RefolderError::InvalidFileName {
                path: path.clone(),
            },
            RefolderError::Glob { root, cause } => RefolderError::Glob {
                root: root.clone(),
                cause: cause.clone(),
            },
            RefolderError::Filesystem { context, cause } => RefolderError::Filesystem {
                context: context.clone(),
                cause: cause.clone(),
            },
            RefolderError::FolderConflict { path } => RefolderError::FolderConflict {
                path: path.clone(),
            },
            RefolderError::FileConflict { path } => RefolderError::FileConflict {
                path: path.clone(),
            },
        }
    }

    /// One line for the user that says what failed and on which path.
    pub fn message(&self) -> (text: String)
        ensures
            text@ == self.message_of(),
    {
        match self {
            RefolderError::ZeroSubfolders => String::from_str(
                "subfolders must be greater than zero",
            ),
            RefolderError::UnknownSuffix { style } => framed(
                "Unknown suffix style '",
                style.as_str(),
                "'. Use numbers|letters|none",
            ),
            RefolderError::PathMissing { path } => framed(
                "Path '",
                path.as_str(),
                "' does not exist",
            ),
            RefolderError::NotADirectory { path } => framed(
                "Path '",
                path.as_str(),
                "' is not a directory",
            ),
            RefolderError::Unresolvable { path, cause } => {
                let head = framed("Failed to canonicalize ", path.as_str(), ": ");
                head.concat(cause.as_str())
            },
            RefolderError::NotText { path } => framed("Path ", path.as_str(), " is not valid UTF-8"),
            RefolderError::InvalidFileName { path } => String::from_str(
                "Invalid filename for ",
            ).concat(path.as_str()),
            RefolderError::Glob { root, cause } => {
                let head = framed("Failed building glob walker for ", root.as_str(), ": ");
                head.concat(cause.as_str())
            },
            RefolderError::Filesystem { context, cause } => framed(
                context.as_str(),
                ": ",
                cause.as_str(),
            ),
            RefolderError::FolderConflict { path } => framed(
                "Destination path ",
                path.as_str(),
                " exists and is not a directory",
            ),
            RefolderError::FileConflict { path } => framed(
                "Destination file ",
                path.as_str(),
                " already exists (use --force to overwrite)",
            ),
        }
    }
}

/// `before`, `middle` and `after`, joined in that order.
pub fn framed(before: &str, middle: &str, after: &str) -> (text: String)
    ensures
        text@ == before@ + middle@ + after@,
{
    let mut text = String::from_str(before);
    text.append(middle);
    text.append(after);
    text
}

} // verus!
