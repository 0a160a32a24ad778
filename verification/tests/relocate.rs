use refolder::paths::split_path;
use refolder::{
    all_moves, is_redo_folder, merge_collected, plan_run, render_dry_run_preview, BucketPlan, ErrorKind,
    PlannedMove, RefolderError, Relocation, Reply, Request,
};
use std::collections::BTreeSet;

/// A disk that exists in memory only.
#[derive(Debug, Clone, PartialEq, Eq, Default)]
struct Disk {
    files: BTreeSet<String>,
    folders: BTreeSet<String>,
    renames_fail: bool,
    copies_fail: bool,
    log: Vec<String>,
}

impl Disk {
    fn with(folders: &[&str], files: &[&str]) -> Disk {
        Disk {
            files: files.iter().map(|s| s.to_string()).collect(),
            folders: folders.iter().map(|s| s.to_string()).collect(),
            ..Disk::default()
        }
    }

    fn probe(&self, path: &str) -> Reply {
        let is_folder = self.folders.contains(path);
        Reply::probed(is_folder || self.files.contains(path), is_folder)
    }

    fn outcome(ok: bool, cause: &str) -> Reply {
        Reply::outcome(if ok { None } else { Some(cause.to_string()) })
    }

    fn serve(&mut self, request: &Request) -> Reply {
        match request {
            Request::ProbeFolder { path } => {
                self.log.push(format!("probe-folder {}", path));
                self.probe(path)
            }
            Request::ProbeDestination { path } => {
                self.log.push(format!("probe {}", path));
                self.probe(path)
            }
            Request::CreateFolder { path } => {
                self.log.push(format!("mkdir {}", path));
                self.folders.insert(path.clone());
                Reply::Done
            }
            Request::RemoveDestination { path } => {
                self.log.push(format!("clear {}", path));
                Disk::outcome(self.files.remove(path), "not a file")
            }
            Request::Rename { from, to } => {
                self.log.push(format!("rename {} {}", from, to));
                if self.renames_fail {
                    return Reply::Failed { cause: "cross-device link".to_string() };
                }
                let ok = self.files.remove(from);
                if ok {
                    self.files.insert(to.clone());
                }
                Disk::outcome(ok, "no such file")
            }
            Request::Copy { from, to } => {
                self.log.push(format!("copy {} {}", from, to));
                if self.copies_fail {
                    return Reply::Failed { cause: "disk full".to_string() };
                }
                let ok = self.files.contains(from);
                if ok {
                    self.files.insert(to.clone());
                }
                Disk::outcome(ok, "no such file")
            }
            Request::RemoveSource { path } => {
                self.log.push(format!("remove {}", path));
                Disk::outcome(self.files.remove(path), "no such file")
            }
            Request::ShowPreview { text } => {
                self.log.push(format!("show {}", text.len()));
                Reply::Done
            }
            Request::Finished | Request::Failed { .. } => unreachable!(),
        }
    }

    /// The files directly in `base` and those directly in its folders whose
    /// name begins with `prefix`, as a collection would find them.
    fn collect(&self, base: &str, prefix: &str) -> Vec<String> {
        let mut primary = Vec::new();
        let mut rescanned = Vec::new();
        for file in &self.files {
            let (folder, _) = split_path(file);
            if folder == base {
                primary.push(file.clone());
            } else {
                let (above, name) = split_path(&folder);
                if above == base && is_redo_folder(&name, prefix) {
                    rescanned.push(file.clone());
                }
            }
        }
        merge_collected(&primary, &rescanned)
    }

    fn count_in(&self, folder: &str) -> usize {
        self.files.iter().filter(|f| split_path(f).0 == folder).count()
    }
}

fn drive(mut run: Relocation, disk: &mut Disk) -> Result<(), RefolderError> {
    loop {
        let request = run.request();
        match request {
            Request::Finished => return Ok(()),
            Request::Failed { error } => return Err(error),
            other => {
                let reply = disk.serve(&other);
                run = run.advance(reply);
            }
        }
    }
}

fn refold(disk: &mut Disk, base: &str, subfolders: usize, prefix: &str, suffix: &str, dry_run: bool, force: bool)
    -> Result<Vec<PlannedMove>, RefolderError> {
    let files = disk.collect(base, prefix);
    let plan = plan_run(base, files, subfolders, prefix, suffix)?;
    let moves = all_moves(&plan);
    drive(Relocation::start(plan, dry_run, force), disk)?;
    Ok(moves)
}

fn renames(disk: &Disk) -> Vec<String> {
    disk.log.iter().filter(|l| l.starts_with("rename ")).cloned().collect()
}

fn planned(source: &str, destination: &str) -> PlannedMove {
    PlannedMove { source: source.to_string(), destination: destination.to_string() }
}

fn one_move_plan() -> Vec<BucketPlan> {
    plan_run("/b", vec!["/b/a.txt".to_string()], 1, "pack", "numbers").unwrap()
}

#[test]
fn integration_move_files() {
    let mut disk = Disk::with(
        &["/b"],
        &["/b/file0.txt", "/b/file1.txt", "/b/file2.txt", "/b/file3.txt", "/b/file4.txt"],
    );
    refold(&mut disk, "/b", 3, "pack", "numbers", false, true).unwrap();

    assert!(disk.folders.contains("/b/pack-1") && disk.folders.contains("/b/pack-2") && disk.folders.contains("/b/pack-3"));
    let cnts = vec![disk.count_in("/b/pack-1"), disk.count_in("/b/pack-2"), disk.count_in("/b/pack-3")];
    assert_eq!(cnts.iter().sum::<usize>(), 5);
    assert_eq!(cnts, vec![2, 2, 1]);
    assert_eq!(disk.count_in("/b"), 0);
    assert!(disk.files.contains("/b/pack-1/file0.txt"));
    assert!(disk.files.contains("/b/pack-3/file4.txt"));
}

#[test]
fn redo_existing_folders() {
    let mut disk = Disk::with(
        &["/b", "/b/pack-1", "/b/pack-2"],
        &["/b/pack-1/a.txt", "/b/pack-1/b.txt", "/b/pack-2/c.txt"],
    );
    refold(&mut disk, "/b", 3, "pack", "numbers", false, true).unwrap();

    assert!(disk.folders.contains("/b/pack-1") && disk.folders.contains("/b/pack-2") && disk.folders.contains("/b/pack-3"));
    let total: usize = ["/b/pack-1", "/b/pack-2", "/b/pack-3"].iter().map(|d| disk.count_in(d)).sum();
    assert_eq!(total, 3);
    assert_eq!(
        disk.files.iter().cloned().collect::<Vec<_>>(),
        vec!["/b/pack-1/a.txt", "/b/pack-2/b.txt", "/b/pack-3/c.txt"]
    );
    assert_eq!(
        renames(&disk),
        vec!["rename /b/pack-1/b.txt /b/pack-2/b.txt", "rename /b/pack-2/c.txt /b/pack-3/c.txt"]
    );
}

#[test]
fn running_again_with_the_same_arguments_moves_nothing() {
    let mut disk = Disk::with(&["/b"], &["/b/1.txt", "/b/2.txt", "/b/3.txt", "/b/4.txt", "/b/5.txt"]);
    refold(&mut disk, "/b", 3, "pack", "numbers", false, false).unwrap();
    let after_first = disk.files.clone();
    disk.log.clear();

    let moves = refold(&mut disk, "/b", 3, "pack", "numbers", false, false).unwrap();
    assert_eq!(moves.len(), 5);
    assert!(moves.iter().all(|m| m.source == m.destination));
    assert_eq!(disk.files, after_first);
    assert_eq!(
        disk.log,
        vec!["probe-folder /b/pack-1", "probe-folder /b/pack-2", "probe-folder /b/pack-3"]
    );
    let total: usize = ["/b/pack-1", "/b/pack-2", "/b/pack-3"].iter().map(|d| disk.count_in(d)).sum();
    assert_eq!(total, 5);
}

#[test]
fn a_dry_run_shows_the_moves_that_a_real_run_makes() {
    let start = Disk::with(&["/b", "/b/pack-1"], &["/b/pack-1/a", "/b/pack-1/b", "/b/c", "/b/d"]);

    let mut dry = start.clone();
    let shown = refold(&mut dry, "/b", 2, "pack", "numbers", true, false).unwrap();
    assert_eq!(dry.files, start.files);
    assert_eq!(dry.folders, start.folders);
    assert_eq!(dry.log.len(), 1);

    let mut real = start.clone();
    let made = refold(&mut real, "/b", 2, "pack", "numbers", false, false).unwrap();
    assert_eq!(shown, made);
    let expected: Vec<String> = made
        .iter()
        .filter(|m| m.source != m.destination)
        .map(|m| format!("rename {} {}", m.source, m.destination))
        .collect();
    assert_eq!(renames(&real), expected);
    assert_eq!(
        expected,
        vec![
            "rename /b/c /b/pack-1/c",
            "rename /b/d /b/pack-1/d",
            "rename /b/pack-1/a /b/pack-2/a",
            "rename /b/pack-1/b /b/pack-2/b",
        ]
    );
    for m in &made {
        assert!(real.files.contains(&m.destination));
    }
    assert_eq!(real.files.len(), 4);
}

#[test]
fn a_dry_run_asks_for_its_preview_and_nothing_else() {
    let files = vec!["/b/x".to_string(), "/b/y".to_string()];
    let plan = plan_run("/b", files.clone(), 2, "p", "letters").unwrap();
    let text = render_dry_run_preview(&all_moves(&plan));
    let run = Relocation::start(plan, true, false);
    assert_eq!(run.request(), Request::ShowPreview { text: text.clone() });
    let run = run.advance(Reply::Absent);
    assert_eq!(run.request(), Request::ShowPreview { text });
    let run = run.advance(Reply::Done);
    assert_eq!(run.request(), Request::Finished);
    let run = run.advance(Reply::Done);
    assert_eq!(run.request(), Request::Finished);
}

#[test]
fn an_empty_plan_is_finished_at_once() {
    assert_eq!(Relocation::start(Vec::new(), false, false).request(), Request::Finished);
    assert_eq!(Relocation::start(Vec::new(), true, true).request(), Request::Finished);
}

#[test]
fn an_occupied_destination_is_a_conflict_without_force() {
    let mut disk = Disk::with(&["/b", "/b/pack-1"], &["/b/a.txt", "/b/pack-1/a.txt"]);
    let before = disk.files.clone();
    let error = drive(Relocation::start(one_move_plan(), false, false), &mut disk).unwrap_err();
    assert_eq!(error, RefolderError::FileConflict { path: "/b/pack-1/a.txt".to_string() });
    assert_eq!(error.kind(), ErrorKind::Conflict);
    assert_eq!(disk.files, before);
    assert_eq!(disk.log, vec!["probe-folder /b/pack-1", "probe /b/pack-1/a.txt"]);
}

#[test]
fn an_occupied_destination_is_replaced_with_force() {
    let mut disk = Disk::with(&["/b", "/b/pack-1"], &["/b/a.txt", "/b/pack-1/a.txt"]);
    drive(Relocation::start(one_move_plan(), false, true), &mut disk).unwrap();
    assert_eq!(disk.files.iter().cloned().collect::<Vec<_>>(), vec!["/b/pack-1/a.txt"]);
    assert_eq!(
        disk.log,
        vec![
            "probe-folder /b/pack-1",
            "probe /b/pack-1/a.txt",
            "clear /b/pack-1/a.txt",
            "rename /b/a.txt /b/pack-1/a.txt",
        ]
    );
}

#[test]
fn a_destination_that_cannot_be_cleared_ends_the_run() {
    let mut disk = Disk::with(&["/b", "/b/pack-1", "/b/pack-1/a.txt"], &["/b/a.txt"]);
    let error = drive(Relocation::start(one_move_plan(), false, true), &mut disk).unwrap_err();
    assert_eq!(
        error,
        RefolderError::Filesystem {
            context: "Failed removing existing destination file /b/pack-1/a.txt".to_string(),
            cause: "not a file".to_string(),
        }
    );
    assert!(disk.files.contains("/b/a.txt"));
}

#[test]
fn a_folder_path_taken_by_a_file_is_a_conflict() {
    let mut disk = Disk::with(&["/b"], &["/b/a.txt", "/b/pack-1"]);
    let before = disk.clone();
    let error = drive(Relocation::start(one_move_plan(), false, true), &mut disk).unwrap_err();
    assert_eq!(error, RefolderError::FolderConflict { path: "/b/pack-1".to_string() });
    assert_eq!(error.kind(), ErrorKind::Conflict);
    assert_eq!(disk.files, before.files);
    assert_eq!(disk.folders, before.folders);
}

#[test]
fn a_missing_folder_is_created_also_for_an_empty_bucket() {
    let mut disk = Disk::with(&["/b"], &["/b/a.txt"]);
    refold(&mut disk, "/b", 3, "pack", "numbers", false, false).unwrap();
    assert_eq!(
        disk.log,
        vec![
            "probe-folder /b/pack-1",
            "mkdir /b/pack-1",
            "probe /b/pack-1/a.txt",
            "rename /b/a.txt /b/pack-1/a.txt",
            "probe-folder /b/pack-2",
            "mkdir /b/pack-2",
            "probe-folder /b/pack-3",
            "mkdir /b/pack-3",
        ]
    );
}

#[test]
fn a_folder_that_cannot_be_created_ends_the_run() {
    let run = Relocation::start(one_move_plan(), false, false);
    assert_eq!(run.request(), Request::ProbeFolder { path: "/b/pack-1".to_string() });
    let run = run.advance(Reply::Absent);
    assert_eq!(run.request(), Request::CreateFolder { path: "/b/pack-1".to_string() });
    let run = run.advance(Reply::Failed { cause: "read-only".to_string() });
    let failure = Request::Failed {
        error: RefolderError::Filesystem {
            context: "Failed to create directory /b/pack-1".to_string(),
            cause: "read-only".to_string(),
        },
    };
    assert_eq!(run.request(), failure);
    let run = run.advance(Reply::Done);
    assert_eq!(run.request(), failure);
}

#[test]
fn a_failed_rename_falls_back_to_copy_and_remove() {
    let mut disk = Disk::with(&["/b"], &["/b/a.txt"]);
    disk.renames_fail = true;
    drive(Relocation::start(one_move_plan(), false, false), &mut disk).unwrap();
    assert_eq!(disk.files.iter().cloned().collect::<Vec<_>>(), vec!["/b/pack-1/a.txt"]);
    assert_eq!(
        disk.log,
        vec![
            "probe-folder /b/pack-1",
            "mkdir /b/pack-1",
            "probe /b/pack-1/a.txt",
            "rename /b/a.txt /b/pack-1/a.txt",
            "copy /b/a.txt /b/pack-1/a.txt",
            "remove /b/a.txt",
        ]
    );
}

#[test]
fn a_failed_copy_leaves_the_source_in_place() {
    let mut disk = Disk::with(&["/b"], &["/b/a.txt"]);
    disk.renames_fail = true;
    disk.copies_fail = true;
    let error = drive(Relocation::start(one_move_plan(), false, false), &mut disk).unwrap_err();
    assert_eq!(
        error,
        RefolderError::Filesystem {
            context: "Failed copying /b/a.txt to /b/pack-1/a.txt: cross-device link".to_string(),
            cause: "disk full".to_string(),
        }
    );
    assert_eq!(error.kind(), ErrorKind::Filesystem);
    assert_eq!(error.message(), "Failed copying /b/a.txt to /b/pack-1/a.txt: cross-device link: disk full");
    assert!(disk.files.contains("/b/a.txt"));
    assert!(!disk.log.iter().any(|l| l.starts_with("remove ")));
}

#[test]
fn a_source_that_cannot_be_removed_ends_the_run() {
    let run = Relocation::start(one_move_plan(), false, false)
        .advance(Reply::Directory)
        .advance(Reply::Absent)
        .advance(Reply::Failed { cause: "cross-device link".to_string() })
        .advance(Reply::Done);
    assert_eq!(run.request(), Request::RemoveSource { path: "/b/a.txt".to_string() });
    let run = run.advance(Reply::Failed { cause: "busy".to_string() });
    assert_eq!(
        run.request(),
        Request::Failed {
            error: RefolderError::Filesystem {
                context: "Failed removing original file /b/a.txt".to_string(),
                cause: "busy".to_string(),
            },
        }
    );
}

#[test]
fn a_reply_that_does_not_answer_the_request_is_ignored() {
    let run = Relocation::start(one_move_plan(), false, false);
    let asked = run.request();
    let run = run.advance(Reply::Done);
    assert_eq!(run.request(), asked);
    let run = run.advance(Reply::Failed { cause: "?".to_string() });
    assert_eq!(run.request(), asked);
    let run = run.advance(Reply::Directory);
    assert_eq!(run.request(), Request::ProbeDestination { path: "/b/pack-1/a.txt".to_string() });
    let run = run.advance(Reply::Done);
    assert_eq!(run.request(), Request::ProbeDestination { path: "/b/pack-1/a.txt".to_string() });
    let run = run.advance(Reply::Absent);
    assert_eq!(
        run.request(),
        Request::Rename { from: "/b/a.txt".to_string(), to: "/b/pack-1/a.txt".to_string() }
    );
    let run = run.advance(Reply::Absent);
    assert_eq!(
        run.request(),
        Request::Rename { from: "/b/a.txt".to_string(), to: "/b/pack-1/a.txt".to_string() }
    );
    let run = run.advance(Reply::Done);
    assert_eq!(run.request(), Request::Finished);
}

#[test]
fn a_file_in_its_place_is_passed_over() {
    let plan = vec![
        BucketPlan {
            folder: "/b/p-1".to_string(),
            moves: vec![planned("/b/p-1/a", "/b/p-1/a"), planned("/b/x", "/b/p-1/x"), planned("/b/p-1/z", "/b/p-1/z")],
        },
        BucketPlan { folder: "/b/p-2".to_string(), moves: vec![planned("/b/p-2/q", "/b/p-2/q")] },
    ];
    let mut disk = Disk::with(&["/b", "/b/p-1", "/b/p-2"], &["/b/p-1/a", "/b/x", "/b/p-1/z", "/b/p-2/q"]);
    drive(Relocation::start(plan, false, false), &mut disk).unwrap();
    assert_eq!(
        disk.log,
        vec!["probe-folder /b/p-1", "probe /b/p-1/x", "rename /b/x /b/p-1/x", "probe-folder /b/p-2"]
    );
}

#[test]
fn redistribution_into_fewer_folders_collects_from_all() {
    let mut disk = Disk::with(
        &["/b", "/b/pack-1", "/b/pack-2", "/b/pack-3"],
        &["/b/pack-1/a", "/b/pack-2/b", "/b/pack-3/c", "/b/new"],
    );
    refold(&mut disk, "/b", 2, "pack", "numbers", false, false).unwrap();
    assert_eq!(
        disk.files.iter().cloned().collect::<Vec<_>>(),
        vec!["/b/pack-1/a", "/b/pack-1/new", "/b/pack-2/b", "/b/pack-2/c"]
    );
}

#[test]
fn a_probe_is_answered_from_two_facts() {
    assert_eq!(Reply::probed(false, false), Reply::Absent);
    assert_eq!(Reply::probed(false, true), Reply::Absent);
    assert_eq!(Reply::probed(true, true), Reply::Directory);
    assert_eq!(Reply::probed(true, false), Reply::Occupied);
}

#[test]
fn an_operation_is_reported_from_its_failure() {
    assert_eq!(Reply::outcome(None), Reply::Done);
    assert_eq!(Reply::outcome(Some("denied".to_string())), Reply::Failed { cause: "denied".to_string() });
}

#[test]
fn a_second_run_asks_only_for_the_folders() {
    let files: Vec<String> = ["1", "2", "3", "4", "5"].iter().map(|n| format!("/b/{}.txt", n)).collect();
    let first = plan_run("/b", files, 3, "pack", "numbers").unwrap();
    let arrived: Vec<String> = all_moves(&first).into_iter().map(|m| m.destination).collect();
    let second = plan_run("/b", merge_collected(&Vec::new(), &arrived), 3, "pack", "numbers").unwrap();
    assert!(all_moves(&second).iter().all(|m| m.source == m.destination));
    let mut run = Relocation::start(second, false, false);
    let mut asked = Vec::new();
    loop {
        match run.request() {
            Request::Finished => break,
            Request::ProbeFolder { path } => {
                asked.push(path);
                run = run.advance(Reply::Directory);
            }
            other => panic!("a second run asked for {:?}", other),
        }
    }
    assert_eq!(asked, vec!["/b/pack-1", "/b/pack-2", "/b/pack-3"]);
}

#[test]
fn a_second_run_into_ten_numbered_folders_is_not_in_place() {
    let files: Vec<String> = (0..10).map(|i| format!("/b/f{}", i)).collect();
    let first = plan_run("/b", files, 10, "pack", "numbers").unwrap();
    let arrived: Vec<String> = all_moves(&first).into_iter().map(|m| m.destination).collect();
    let found = merge_collected(&Vec::new(), &arrived);
    assert_eq!(found[1], "/b/pack-10/f9");
    let second = plan_run("/b", found, 10, "pack", "numbers").unwrap();
    assert!(all_moves(&second).iter().any(|m| m.source != m.destination));
}
