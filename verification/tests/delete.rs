//! Deletions and tallies, driven step by step with what the filesystem
//! would report: removing, inspecting and listing are handed to each step
//! as values, so these tests touch no disk.
use oweka::engine::{delete_artifact, DeleteOutcome, Deletion, SizeProbe, SizeReport, Sizing};
use oweka::location::{Location, Part};
use oweka::matcher::Artifact;
use oweka::registry::Builtin;

fn location(path: &str) -> Location {
    let mut parts = Vec::new();
    if path.starts_with('/') {
        parts.push(Part::Root);
    }
    for segment in path.split('/') {
        if !segment.is_empty() {
            parts.push(Part::Named(segment.as_bytes().to_vec()));
        }
    }
    Location::from_parts(parts)
}

fn node_modules_artifact(root: &str) -> Artifact {
    Artifact {
        matcher_id: "node_modules",
        path: location(root).join(b"node_modules"),
    }
}

/// The tally of a directory holding the given regular files (size, modified).
fn tally(path: &Location, files: &[(&str, u64, Option<i128>)]) -> SizeReport {
    let mut sizing = Sizing::start(path);
    let directory = sizing.next_directory().unwrap();
    for (name, len, modified) in files {
        sizing.absorb(
            &directory,
            SizeProbe::File { name: name.as_bytes().to_vec(), len: *len, modified: *modified },
        );
    }
    assert!(sizing.next_directory().is_none());
    sizing.finish()
}

fn finished(deletion: Deletion) -> oweka::engine::DeleteResult {
    match deletion {
        Deletion::Finished { result } => result,
        other => panic!("expected a finished deletion, saw {other:?}"),
    }
}

#[test]
fn delete_removes_artifact_from_disk() {
    let artifact = node_modules_artifact("/tmp/t");
    let deletion = delete_artifact(&artifact);
    let deletion = deletion.inspected(true, Some(Builtin::NodeModules));
    assert!(matches!(deletion, Deletion::Removing { matcher: Builtin::NodeModules, .. }));
    let result = finished(deletion.removed(Ok(())));
    match result.outcome {
        DeleteOutcome::Deleted => {}
        other => panic!("expected Deleted, saw {other:?}"),
    }
    assert_eq!(result.artifact, artifact);
    assert!(result.rescan.is_none());
}

#[test]
fn delete_after_rename_aborts_safely() {
    let stale = node_modules_artifact("/tmp/t");
    // the path is gone: not a directory any more
    let deletion = delete_artifact(&stale).inspected(false, None);
    assert!(matches!(deletion, Deletion::Rescanning { outcome: DeleteOutcome::NotFound, .. }));
    let rescan = tally(&stale.path, &[]);
    let result = finished(deletion.rescanned(rescan));
    match result.outcome {
        DeleteOutcome::NotFound => {}
        other => panic!("expected NotFound, saw {other:?}"),
    }
    assert_eq!(result.artifact, stale);
    assert_eq!(result.rescan.as_ref().map(|report| report.bytes), Some(0));
}

#[test]
fn delete_under_read_only_parent_reports_io_failure() {
    let artifact = node_modules_artifact("/tmp/t/proj");
    let deletion = delete_artifact(&artifact).inspected(true, Some(Builtin::NodeModules));
    let deletion = deletion.removed(Err(String::from("Permission denied (os error 13)")));
    let rescan = tally(&artifact.path, &[]);
    let result = finished(deletion.rescanned(rescan));
    match result.outcome {
        DeleteOutcome::IoFailed(_) => {}
        other => panic!("expected IoFailed, saw {other:?}"),
    }
    assert_eq!(result.artifact, artifact);
    assert_eq!(result.rescan.as_ref().map(|report| report.bytes), Some(0));
}

#[test]
fn delete_works_when_artifact_is_scan_root() {
    let artifact = Artifact {
        matcher_id: "node_modules",
        path: location("/tmp/p/node_modules"),
    };
    let deletion = delete_artifact(&artifact).inspected(true, Some(Builtin::NodeModules));
    let result = finished(deletion.removed(Ok(())));
    match result.outcome {
        DeleteOutcome::Deleted => {}
        other => panic!("expected Deleted, saw {other:?}"),
    }
    assert!(result.rescan.is_none());
}

#[test]
fn size_artifact_reports_bytes_and_newest_mtime() {
    let artifact = node_modules_artifact("/tmp/t");
    let second: i128 = 1_000_000_000;
    let report = tally(
        &artifact.path,
        &[("older.js", 10, Some(1_600_000_000 * second)), ("newer.js", 5, Some(1_700_000_000 * second))],
    );
    assert_eq!(report.bytes, 15);
    assert_eq!(report.last_modified, Some(1_700_000_000 * second));
    assert!(report.errors.is_empty());
}

#[test]
fn delete_claimed_by_another_matcher_is_not_found() {
    let artifact = node_modules_artifact("/tmp/t");
    let deletion = delete_artifact(&artifact).inspected(true, Some(Builtin::Target));
    assert!(matches!(deletion, Deletion::Rescanning { outcome: DeleteOutcome::NotFound, .. }));
    let unknown = Artifact { matcher_id: "gradle", path: location("/tmp/t/build") };
    let deletion = delete_artifact(&unknown).inspected(true, None);
    assert!(matches!(deletion, Deletion::Rescanning { outcome: DeleteOutcome::NotFound, .. }));
}

#[test]
fn sizing_walks_depth_first_and_notes_problems() {
    let root = location("/a");
    let mut sizing = Sizing::start(&root);
    let dir = sizing.next_directory().unwrap();
    assert!(dir.same(&root));
    sizing.absorb(&dir, SizeProbe::Directory { name: b"x".to_vec() });
    sizing.absorb(&dir, SizeProbe::Directory { name: b"y".to_vec() });
    sizing.absorb(&dir, SizeProbe::Symlink);
    sizing.absorb(&dir, SizeProbe::TypeUnknown { name: b"q".to_vec(), reason: String::from("bad") });
    sizing.absorb(&dir, SizeProbe::Unreadable { reason: String::from("gone") });
    sizing.absorb(&dir, SizeProbe::FileUnreadable { name: b"f".to_vec(), reason: String::from("meta") });
    let next = sizing.next_directory().unwrap();
    assert!(next.same(&location("/a/y")));
    sizing.unreadable(&next, String::from("denied"));
    let last = sizing.next_directory().unwrap();
    assert!(last.same(&location("/a/x")));
    sizing.absorb(&last, SizeProbe::File { name: b"g".to_vec(), len: 3, modified: None });
    assert!(sizing.next_directory().is_none());
    let report = sizing.finish();
    assert_eq!(report.bytes, 3);
    assert_eq!(report.last_modified, None);
    let paths: Vec<Location> = report.errors.iter().map(|e| e.path.clone()).collect();
    assert_eq!(paths, vec![location("/a/q"), location("/a"), location("/a/f"), location("/a/y")]);
    assert_eq!(report.errors[3].reason, "denied");
}

#[test]
fn newest_modification_wins_and_unknown_counts_as_oldest() {
    let mut report = SizeReport::new();
    report.add_file(1, None);
    assert_eq!(report.last_modified, None);
    report.add_file(1, Some(-4));
    report.add_file(1, None);
    assert_eq!(report.last_modified, Some(-4));
    report.add_file(1, Some(9));
    report.add_file(1, Some(2));
    assert_eq!(report.last_modified, Some(9));
    assert_eq!(report.bytes, 5);
}

#[test]
fn tally_does_not_depend_on_file_order() {
    let path = location("/t");
    let files = [("a", 3, Some(7)), ("b", 4, None), ("c", 5, Some(2))];
    let forward = tally(&path, &files);
    let mut reversed_files = files;
    reversed_files.reverse();
    let backward = tally(&path, &reversed_files);
    assert_eq!(forward.bytes, backward.bytes);
    assert_eq!(forward.last_modified, backward.last_modified);
    assert_eq!(forward.last_modified, Some(7));
}
