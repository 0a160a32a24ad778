use refolder::{is_redo_folder, merge_collected, plan_run, primary_walker, redo_walker};
use std::path::Path;
use tempfile::{Builder, NamedTempFile, TempDir};

fn touch(dir: &Path, name: &str) -> NamedTempFile {
    Builder::new().prefix(name).suffix("").rand_bytes(0).tempfile_in(dir).unwrap()
}

fn folder(dir: &Path, name: &str) -> TempDir {
    Builder::new().prefix(name).suffix("").rand_bytes(0).tempdir_in(dir).unwrap()
}

fn text(path: &Path) -> String {
    path.to_str().unwrap().to_string()
}

/// The regular files that the walker yields, as paths below `base`.
fn found(walker: globwalk::GlobWalker, base: &Path) -> Vec<String> {
    let mut names: Vec<String> = walker
        .filter_map(Result::ok)
        .filter(|entry| entry.path().is_file())
        .map(|entry| text(entry.path().strip_prefix(base).unwrap()))
        .collect();
    names.sort();
    names
}

#[test]
fn test_strip_prefix_safe() {
    let dir = tempfile::tempdir().unwrap();
    let base = dir.path();
    let _files: Vec<NamedTempFile> = (0..3).map(|i| touch(base, &format!("f{}.txt", i))).collect();

    let walker = primary_walker(base.to_str().unwrap(), "*.txt", true).unwrap();
    let primary: Vec<String> = walker
        .filter_map(Result::ok)
        .filter(|entry| entry.path().is_file())
        .map(|entry| text(entry.path()))
        .collect();
    let files = merge_collected(&primary, &Vec::new());
    assert_eq!(
        files,
        vec![text(&base.join("f0.txt")), text(&base.join("f1.txt")), text(&base.join("f2.txt"))]
    );
}

#[test]
fn the_primary_walk_matches_without_regard_to_case() {
    let dir = tempfile::tempdir().unwrap();
    let base = dir.path();
    let _a = touch(base, "a.txt");
    let _b = touch(base, "B.TXT");
    let _c = touch(base, "c.md");
    let walker = primary_walker(base.to_str().unwrap(), "*.txt", false).unwrap();
    assert_eq!(found(walker, base), vec!["B.TXT", "a.txt"]);
}

#[test]
fn the_primary_walk_stays_at_the_top_unless_recursive() {
    let dir = tempfile::tempdir().unwrap();
    let base = dir.path();
    let _a = touch(base, "a.txt");
    let sub = folder(base, "sub");
    let _d = touch(sub.path(), "d.txt");
    let deeper = folder(sub.path(), "deeper");
    let _e = touch(deeper.path(), "e.txt");

    let flat = primary_walker(base.to_str().unwrap(), "*.txt", false).unwrap();
    assert_eq!(found(flat, base), vec!["a.txt"]);
    let deep = primary_walker(base.to_str().unwrap(), "*.txt", true).unwrap();
    assert_eq!(found(deep, base), vec!["a.txt", "sub/d.txt", "sub/deeper/e.txt"]);
}

#[test]
fn the_redo_walk_matches_without_regard_to_case_and_one_level_deep() {
    let dir = tempfile::tempdir().unwrap();
    let base = dir.path();
    let pack = folder(base, "pack-1");
    let _e = touch(pack.path(), "e.txt");
    let _f = touch(pack.path(), "F.TXT");
    let _m = touch(pack.path(), "m.md");
    let inner = folder(pack.path(), "inner");
    let _g = touch(inner.path(), "g.txt");

    let walker = redo_walker(pack.path().to_str().unwrap(), "*.txt").unwrap();
    assert_eq!(found(walker, pack.path()), vec!["F.TXT", "e.txt"]);
}

/// What a collection under `base` finds, made of the library's parts.
fn collect(base: &Path, pattern: &str, recursive: bool, prefix: &str, folders: &[&str]) -> Vec<String> {
    let files_of = |walker: globwalk::GlobWalker| -> Vec<String> {
        walker
            .filter_map(Result::ok)
            .filter(|entry| entry.path().is_file())
            .map(|entry| text(entry.path()))
            .collect()
    };
    let primary = files_of(primary_walker(base.to_str().unwrap(), pattern, recursive).unwrap());
    let mut rescanned = Vec::new();
    for name in folders {
        if is_redo_folder(name, prefix) {
            let inner = text(&base.join(name));
            rescanned.extend(files_of(redo_walker(&inner, pattern).unwrap()));
        }
    }
    merge_collected(&primary, &rescanned)
}

#[test]
fn a_file_of_an_earlier_run_is_collected_whatever_its_case() {
    let dir = tempfile::tempdir().unwrap();
    let base = dir.path();
    let pack = folder(base, "pack-1");
    let _a = touch(pack.path(), "A.TXT");
    assert_eq!(
        collect(base, "*.txt", false, "pack", &["pack-1"]),
        vec![text(&base.join("pack-1/A.TXT"))]
    );
}

#[test]
fn a_second_run_over_names_of_mixed_case_plans_no_move() {
    let dir = tempfile::tempdir().unwrap();
    let base = dir.path();
    let root = text(base);
    let first = plan_run(
        &root,
        vec!["A.TXT", "B.TXT", "c.txt", "d.txt", "e.txt"].into_iter().map(|n| text(&base.join(n))).collect(),
        3,
        "pack",
        "numbers",
    )
    .unwrap();
    let mut kept = Vec::new();
    let mut folders = Vec::new();
    for bucket in &first {
        let made = folder(base, Path::new(&bucket.folder).file_name().unwrap().to_str().unwrap());
        for planned in &bucket.moves {
            let name = Path::new(&planned.destination).file_name().unwrap().to_str().unwrap().to_string();
            kept.push(touch(made.path(), &name));
        }
        folders.push(made);
    }

    let again = collect(base, "*.txt", false, "pack", &["pack-1", "pack-2", "pack-3"]);
    assert_eq!(again.len(), 5);
    let second = plan_run(&root, again, 3, "pack", "numbers").unwrap();
    let sizes: Vec<usize> = second.iter().map(|b| b.moves.len()).collect();
    assert_eq!(sizes, vec![2, 2, 1]);
    for bucket in &second {
        for planned in &bucket.moves {
            assert_eq!(planned.source, planned.destination);
        }
    }
    assert_eq!(second[0].moves[0].source, text(&base.join("pack-1/A.TXT")));
    assert_eq!(second[1].moves[0].source, text(&base.join("pack-2/c.txt")));
}

#[test]
fn a_collection_finds_files_of_an_earlier_run_once() {
    let dir = tempfile::tempdir().unwrap();
    let base = dir.path();
    let _x = touch(base, "x.txt");
    let pack = folder(base, "pack-1");
    let _a = touch(pack.path(), "a.txt");
    let other = folder(base, "other");
    let _o = touch(other.path(), "o.txt");

    let collect = |walker: globwalk::GlobWalker| -> Vec<String> {
        walker
            .filter_map(Result::ok)
            .filter(|entry| entry.path().is_file())
            .map(|entry| text(entry.path()))
            .collect()
    };
    let primary = collect(primary_walker(base.to_str().unwrap(), "*.txt", true).unwrap());
    let mut rescanned = Vec::new();
    for name in ["other", "pack-1"] {
        if is_redo_folder(name, "pack") {
            let inner = text(&base.join(name));
            rescanned.extend(collect(redo_walker(&inner, "*.txt").unwrap()));
        }
    }
    assert_eq!(rescanned, vec![text(&base.join("pack-1/a.txt"))]);
    let mut expected = vec![
        text(&base.join("other/o.txt")),
        text(&base.join("pack-1/a.txt")),
        text(&base.join("x.txt")),
    ];
    expected.sort();
    assert_eq!(merge_collected(&primary, &rescanned), expected);
}
