use refolder::error::framed;
use refolder::{ErrorKind, RefolderError};

fn text(s: &str) -> String {
    s.to_string()
}

#[test]
fn every_error_has_its_family() {
    assert_eq!(RefolderError::ZeroSubfolders.kind(), ErrorKind::InvalidArgument);
    assert_eq!(RefolderError::UnknownSuffix { style: text("x") }.kind(), ErrorKind::InvalidArgument);
    assert_eq!(RefolderError::PathMissing { path: text("/p") }.kind(), ErrorKind::Path);
    assert_eq!(RefolderError::NotADirectory { path: text("/p") }.kind(), ErrorKind::Path);
    assert_eq!(RefolderError::InvalidFileName { path: text("/p/") }.kind(), ErrorKind::Path);
    assert_eq!(RefolderError::Unresolvable { path: text("p"), cause: text("c") }.kind(), ErrorKind::Path);
    assert_eq!(RefolderError::NotText { path: text("p") }.kind(), ErrorKind::Path);
    assert_eq!(RefolderError::Glob { root: text("/p"), cause: text("c") }.kind(), ErrorKind::Glob);
    assert_eq!(
        RefolderError::Filesystem { context: text("x"), cause: text("c") }.kind(),
        ErrorKind::Filesystem
    );
    assert_eq!(RefolderError::FolderConflict { path: text("/p") }.kind(), ErrorKind::Conflict);
    assert_eq!(RefolderError::FileConflict { path: text("/p") }.kind(), ErrorKind::Conflict);
}

#[test]
fn every_error_has_its_message() {
    assert_eq!(RefolderError::ZeroSubfolders.message(), "subfolders must be greater than zero");
    assert_eq!(
        RefolderError::UnknownSuffix { style: text("roman") }.message(),
        "Unknown suffix style 'roman'. Use numbers|letters|none"
    );
    assert_eq!(RefolderError::PathMissing { path: text("/p") }.message(), "Path '/p' does not exist");
    assert_eq!(
        RefolderError::NotADirectory { path: text("/p") }.message(),
        "Path '/p' is not a directory"
    );
    assert_eq!(
        RefolderError::InvalidFileName { path: text("/p/") }.message(),
        "Invalid filename for /p/"
    );
    assert_eq!(
        RefolderError::Unresolvable { path: text("p"), cause: text("denied") }.message(),
        "Failed to canonicalize p: denied"
    );
    assert_eq!(RefolderError::NotText { path: text("p") }.message(), "Path p is not valid UTF-8");
    assert_eq!(
        RefolderError::Glob { root: text("/p"), cause: text("bad class") }.message(),
        "Failed building glob walker for /p: bad class"
    );
    assert_eq!(
        RefolderError::Filesystem { context: text("Failed to create directory /p"), cause: text("denied") }
            .message(),
        "Failed to create directory /p: denied"
    );
    assert_eq!(
        RefolderError::FolderConflict { path: text("/p/pack-1") }.message(),
        "Destination path /p/pack-1 exists and is not a directory"
    );
    assert_eq!(
        RefolderError::FileConflict { path: text("/p/pack-1/a") }.message(),
        "Destination file /p/pack-1/a already exists (use --force to overwrite)"
    );
}

#[test]
fn duplicate_is_equal_to_the_original() {
    let errors = vec![
        RefolderError::ZeroSubfolders,
        RefolderError::UnknownSuffix { style: text("x") },
        RefolderError::PathMissing { path: text("/p") },
        RefolderError::NotADirectory { path: text("/p") },
        RefolderError::InvalidFileName { path: text("/p/") },
        RefolderError::Unresolvable { path: text("p"), cause: text("c") },
        RefolderError::NotText { path: text("p") },
        RefolderError::Glob { root: text("/p"), cause: text("c") },
        RefolderError::Filesystem { context: text("x"), cause: text("c") },
        RefolderError::FolderConflict { path: text("/p") },
        RefolderError::FileConflict { path: text("/q") },
    ];
    for error in &errors {
        assert_eq!(&error.duplicate(), error);
    }
}

#[test]
fn framed_joins_three_parts() {
    assert_eq!(framed("<", "x", ">"), "<x>");
    assert_eq!(framed("", "", ""), "");
    assert_eq!(framed("a", "", "b"), "ab");
}
