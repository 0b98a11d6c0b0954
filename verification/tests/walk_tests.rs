use rebackup::config::{WalkerConfig, WalkerRule};
use rebackup::LoggerLevel;
use rebackup::fs_model::{FsEntry, FsEntryKind, FsModel, ItemPath};
use rebackup::walker::{walk, WalkerErr};

fn p(segs: &[u64]) -> ItemPath {
    ItemPath { segments: segs.to_vec() }
}

fn dir(path: &[u64]) -> FsEntry {
    FsEntry { path: p(path), kind: FsEntryKind::Directory }
}

fn file(path: &[u64]) -> FsEntry {
    FsEntry { path: p(path), kind: FsEntryKind::File }
}

fn link(path: &[u64], target: &[u64]) -> FsEntry {
    FsEntry { path: p(path), kind: FsEntryKind::Symlink(p(target)) }
}

fn views(items: &[ItemPath]) -> Vec<Vec<u64>> {
    items.iter().map(|i| i.segments.clone()).collect()
}

fn no_rules() -> WalkerConfig {
    WalkerConfig { rules: Vec::new(), follow_symlinks: false, drop_empty_dirs: false }
}

// Source tree src/{a.txt, b/} with b/ empty: both items are listed, in
// either order.
#[test]
fn end_to_end_basic() {
    let fs = FsModel { entries: vec![dir(&[]), dir(&[1]), file(&[1, 2]), dir(&[1, 3])] };
    assert!(fs.check_wf());
    let out = walk(&fs, &p(&[1]), &no_rules()).unwrap();
    let vs = views(&out);
    assert_eq!(vs.len(), 2);
    assert!(vs.contains(&vec![1, 2]));
    assert!(vs.contains(&vec![1, 3]));
}

// An empty directory appears in the output when empty directories are kept.
#[test]
fn empty_dir_kept() {
    let fs = FsModel { entries: vec![dir(&[]), dir(&[1])] };
    assert!(fs.check_wf());
    let out = walk(&fs, &p(&[1]), &no_rules()).unwrap();
    assert_eq!(views(&out), vec![vec![1]]);
}

// The same empty directory is absent when empty directories are dropped.
#[test]
fn empty_dir_dropped() {
    let fs = FsModel { entries: vec![dir(&[]), dir(&[1])] };
    let mut config = no_rules();
    config.drop_empty_dirs = true;
    let out = walk(&fs, &p(&[1]), &config).unwrap();
    assert!(out.is_empty());
}

// An empty nested directory follows the same policy.
#[test]
fn nested_empty_dir_policy() {
    let fs = FsModel { entries: vec![dir(&[]), dir(&[1]), file(&[1, 2]), dir(&[1, 3])] };
    let mut config = no_rules();
    config.drop_empty_dirs = true;
    let out = walk(&fs, &p(&[1]), &config).unwrap();
    assert_eq!(views(&out), vec![vec![1, 2]]);
}

// A nested tree is expanded depth-first in entry order, with an empty
// nested directory kept or dropped by policy.
#[test]
fn nested_tree_expansion() {
    let fs = FsModel {
        entries: vec![
            dir(&[]),
            dir(&[1]),
            file(&[1, 2]),
            dir(&[1, 3]),
            dir(&[1, 3, 4]),
            file(&[1, 3, 5]),
        ],
    };
    assert!(fs.check_wf());
    let out = walk(&fs, &p(&[1]), &no_rules()).unwrap();
    assert_eq!(views(&out), vec![vec![1, 2], vec![1, 3, 4], vec![1, 3, 5]]);
    let mut config = no_rules();
    config.drop_empty_dirs = true;
    let out = walk(&fs, &p(&[1]), &config).unwrap();
    assert_eq!(views(&out), vec![vec![1, 2], vec![1, 3, 5]]);
}

// A missing source fails canonicalization, carrying the source path.
#[test]
fn source_missing() {
    let fs = FsModel { entries: vec![dir(&[]), dir(&[1])] };
    match walk(&fs, &p(&[8]), &no_rules()) {
        Err(WalkerErr::FailedToCanonicalize(q)) => assert_eq!(q.segments, vec![8]),
        other => panic!("expected FailedToCanonicalize, got {:?}", other.is_ok()),
    }
}

// A source that is a file is rejected as not found.
#[test]
fn source_not_a_directory() {
    let fs = FsModel { entries: vec![dir(&[]), file(&[1])] };
    match walk(&fs, &p(&[1]), &no_rules()) {
        Err(WalkerErr::DirNotFound) => {}
        other => panic!("expected DirNotFound, got {:?}", other.is_ok()),
    }
}

// A symlink is skipped entirely when links are not followed, while its
// siblings are unaffected.
#[test]
fn symlink_skipped_when_not_following() {
    let fs = FsModel {
        entries: vec![
            dir(&[]),
            dir(&[1]),
            file(&[1, 2]),
            dir(&[2]),
            link(&[1, 4], &[2]),
        ],
    };
    assert!(fs.check_wf());
    let out = walk(&fs, &p(&[1]), &no_rules()).unwrap();
    assert_eq!(views(&out), vec![vec![1, 2]]);
}

// Two symlinks aliasing the same real directory yield its contents only
// once: the second link's target is already registered and it is skipped.
#[test]
fn symlink_alias_contents_once() {
    let fs = FsModel {
        entries: vec![
            dir(&[]),
            dir(&[1]),
            dir(&[2]),
            dir(&[2, 3]),
            file(&[2, 3, 6]),
            link(&[1, 4], &[2, 3]),
            link(&[1, 5], &[2, 3]),
        ],
    };
    assert!(fs.check_wf());
    let mut config = no_rules();
    config.follow_symlinks = true;
    let out = walk(&fs, &p(&[1]), &config).unwrap();
    // The directory behind the links is expanded once, under the first
    // link's path; the alias is omitted.
    assert_eq!(views(&out), vec![vec![1, 4, 6]]);
}

// A symlink chain pointing back into its own ancestor terminates: the walk
// completes successfully with the cyclic link omitted.
#[test]
fn symlink_cycle_terminates() {
    let fs = FsModel {
        entries: vec![dir(&[]), dir(&[1]), dir(&[1, 3]), link(&[1, 3, 4], &[1])],
    };
    assert!(fs.check_wf());
    let mut config = no_rules();
    config.follow_symlinks = true;
    let out = walk(&fs, &p(&[1]), &config).unwrap();
    // The subdirectory yields nothing once its cyclic link is skipped, so
    // it is kept as an empty leaf.
    assert_eq!(views(&out), vec![vec![1, 3]]);
}

// A dangling symlink fails canonicalization when followed.
#[test]
fn dangling_symlink_fails_canonicalization() {
    let fs = FsModel { entries: vec![dir(&[]), dir(&[1]), link(&[1, 4], &[9])] };
    let mut config = no_rules();
    config.follow_symlinks = true;
    match walk(&fs, &p(&[1]), &config) {
        Err(WalkerErr::FailedToCanonicalize(q)) => assert_eq!(q.segments, vec![1, 4]),
        other => panic!("expected FailedToCanonicalize, got {:?}", other.is_ok()),
    }
}

// A mutually cyclic pair of symlinks exhausts resolution and aborts, as the
// operating system's own resolution would.
#[test]
fn symlink_loop_fails_canonicalization() {
    let fs = FsModel {
        entries: vec![dir(&[]), dir(&[1]), link(&[1, 3], &[1, 4]), link(&[1, 4], &[1, 3])],
    };
    let mut config = no_rules();
    config.follow_symlinks = true;
    match walk(&fs, &p(&[1]), &config) {
        Err(WalkerErr::FailedToCanonicalize(_)) => {}
        other => panic!("expected FailedToCanonicalize, got {:?}", other.is_ok()),
    }
}

// The defaults of a fresh configuration: keep empty directories, do not
// follow symlinks.
#[test]
fn config_defaults() {
    let config = WalkerConfig::new(Vec::new());
    assert!(!config.follow_symlinks);
    assert!(!config.drop_empty_dirs);
    assert!(config.rules.is_empty());
}

// The diagnostic level threshold shows exactly the levels at or above the
// threshold's severity.
#[test]
fn logger_levels_order() {
    assert!(LoggerLevel::Debug.shows(LoggerLevel::Error));
    assert!(LoggerLevel::Error.shows(LoggerLevel::Failure));
    assert!(LoggerLevel::Error.shows(LoggerLevel::Error));
    assert!(!LoggerLevel::Error.shows(LoggerLevel::Info));
    assert!(!LoggerLevel::Failure.shows(LoggerLevel::Debug));
    assert_eq!(LoggerLevel::Failure.rank(), 0);
    assert_eq!(LoggerLevel::Debug.rank(), 3);
}

// Well-formedness checking rejects duplicate paths, a missing root, and a
// non-root entry without a directory parent.
#[test]
fn wf_check_rejects_bad_snapshots() {
    let ok = FsModel { entries: vec![dir(&[]), dir(&[1]), file(&[1, 2])] };
    assert!(ok.check_wf());
    let dup = FsModel { entries: vec![dir(&[]), dir(&[1]), dir(&[1])] };
    assert!(!dup.check_wf());
    let rootless = FsModel { entries: vec![dir(&[1])] };
    assert!(!rootless.check_wf());
    let orphan = FsModel { entries: vec![dir(&[]), file(&[1, 2])] };
    assert!(!orphan.check_wf());
    let file_parent = FsModel { entries: vec![dir(&[]), file(&[1]), file(&[1, 2])] };
    assert!(!file_parent.check_wf());
}
