use ubiquity::archive::{Archive, ArchiveEntries};
use ubiquity::codec::ReadError;
use ubiquity::config::{Ignore, IgnorePattern};
use ubiquity::detect::{
    are_archive_files_identical, check_all_roots_exist, is_ignored, is_item_in_sync,
    scan_directory_contents,
    DetectionResult, Difference,
};
use ubiquity::error::SyncError;
use ubiquity::paths::TreePath;
use ubiquity::progress::{parse_progress_line, ToCheck};
use ubiquity::propagate::{
    any_directories_in, directory_children, DescendantPruning, needs_descendant_pruning, plan_replica,
    records_for_children, transition, Action,
};
use ubiquity::reconcile::{guess_operation, Operation};
use ubiquity::state::{ArchiveEntryExists, ArchiveEntryPerReplica};

fn rel(text: &str) -> TreePath {
    let components = text.split('/').filter(|c| !c.is_empty()).map(|c| c.to_string()).collect();
    TreePath::relative(components)
}

fn token(ino: u64, ctime: i64) -> ArchiveEntryExists {
    ArchiveEntryExists { ino, ctime }
}

fn file(ino: u64) -> ArchiveEntryPerReplica {
    ArchiveEntryPerReplica::File(token(ino, 5))
}

fn dir(ino: u64) -> ArchiveEntryPerReplica {
    ArchiveEntryPerReplica::Directory(token(ino, 5))
}

const EMPTY: ArchiveEntryPerReplica = ArchiveEntryPerReplica::Empty;

fn difference(path: &str, previous: Option<Vec<ArchiveEntryPerReplica>>, current: Vec<ArchiveEntryPerReplica>) -> Difference {
    Difference {
        path: rel(path),
        roots: vec!["/a".to_string(), "/b".to_string()],
        previous_state: previous,
        current_state: current,
    }
}

#[test]
fn entry_kinds() {
    assert!(ArchiveEntryPerReplica::equal_ty(&file(1), &file(2)));
    assert!(!ArchiveEntryPerReplica::equal_ty(&file(1), &dir(1)));
    assert!(ArchiveEntryPerReplica::equal_ty(&EMPTY, &EMPTY));
    assert!(file(1).is_file_or_symlink());
    assert!(ArchiveEntryPerReplica::Symlink(token(1, 1)).is_file_or_symlink());
    assert!(!dir(1).is_file_or_symlink());
    assert!(!EMPTY.entry_exists());
    assert!(dir(3).entry_exists());
}

#[test]
fn path_hash_is_fnv1a_of_the_text() {
    assert_eq!(Archive::hash(&TreePath::root()), 0xcbf29ce484222325);
    assert_eq!(Archive::hash(&rel("foo")), 0xdcb27518fed9d577);
    assert_eq!(Archive::hash(&rel("foobar")), 0x85944171f73967e8);
    assert_ne!(Archive::hash(&rel("a/b")), Archive::hash(&rel("ab")));
}

#[test]
fn paths_compare_by_whole_components() {
    assert!(rel("a/b/c").starts_with(&rel("a/b")));
    assert!(rel("a/b").starts_with(&rel("a/b")));
    assert!(rel("a/b").starts_with(&TreePath::root()));
    assert!(!rel("a/bc").starts_with(&rel("a/b")));
    assert!(!rel("a").starts_with(&rel("a/b")));
    assert_eq!(rel("a/b").join("c").to_text(), "a/b/c");
    assert_eq!(rel("a/b").parent().unwrap().to_text(), "a");
    assert!(TreePath::root().parent().is_none());
    assert!(rel("x/y").equals(&rel("x/y")));
}

#[test]
fn entries_insert_get_and_prune() {
    let mut e = ArchiveEntries::empty();
    assert!(!e.is_dirty());
    e.insert(&rel("a"), vec![file(1), file(2)]);
    e.insert(&rel("b"), vec![EMPTY, EMPTY]);
    e.insert(&rel("a"), vec![file(3), file(4)]);
    assert!(e.is_dirty());
    assert_eq!(e.len(), 2);
    assert_eq!(e.get(&rel("a")), Some(&vec![file(3), file(4)]));
    assert!(e.get(&rel("c")).is_none());
    e.prune_deleted();
    assert_eq!(e.len(), 1);
    assert!(e.get(&rel("b")).is_none());
}

#[test]
fn archive_contents_round_trip() {
    let mut e = ArchiveEntries::empty();
    e.insert(&rel("x"), vec![dir(9), ArchiveEntryPerReplica::File(token(u64::MAX, -7))]);
    e.insert(&rel("y"), vec![ArchiveEntryPerReplica::Symlink(token(3, i64::MIN)), EMPTY]);
    e.insert(&rel("z"), vec![EMPTY, EMPTY]);
    let bytes = e.to_file_contents().expect("records are left");
    assert_eq!(&bytes[0..4], &[3, 0, 0, 0]);
    assert_eq!(&bytes[4..12], &[2, 0, 0, 0, 0, 0, 0, 0]);
    let back = ArchiveEntries::decode(&bytes, 2).unwrap();
    assert_eq!(back.iter(), e.iter());
    assert!(!back.is_dirty());
}

#[test]
fn all_empty_records_leave_no_file() {
    let mut e = ArchiveEntries::empty();
    e.insert(&rel("gone"), vec![EMPTY, EMPTY]);
    assert!(e.to_file_contents().is_none());
    assert_eq!(e.len(), 0);
}

#[test]
fn other_versions_and_truncation_read_as_empty() {
    let mut e = ArchiveEntries::empty();
    e.insert(&rel("x"), vec![file(1), file(2)]);
    let mut bytes = e.encode();
    let whole = ArchiveEntries::decode(&bytes, 2).unwrap();
    assert_eq!(whole.len(), 1);
    let truncated = ArchiveEntries::decode(&bytes[..bytes.len() - 3], 2).unwrap();
    assert_eq!(truncated.len(), 0);
    assert_eq!(ArchiveEntries::decode(&bytes[..2], 2).unwrap().len(), 0);
    bytes[0] = 2;
    assert_eq!(ArchiveEntries::decode(&bytes, 2).unwrap().len(), 0);
}

#[test]
fn corrupt_bodies_are_errors() {
    let mut e = ArchiveEntries::empty();
    e.insert(&rel("x"), vec![file(1), file(2)]);
    let mut bytes = e.encode();
    bytes[20] = 9;
    assert!(matches!(ArchiveEntries::decode(&bytes, 2), Err(ReadError::DeserializeError)));
    let mut twice = e.encode();
    twice[4] = 2;
    let record = twice[12..].to_vec();
    twice.extend_from_slice(&record);
    assert!(matches!(ArchiveEntries::decode(&twice, 2), Err(ReadError::DeserializeError)));
}

#[test]
fn ignore_rules() {
    let mut ignore = Ignore::nothing();
    assert!(!is_ignored(&ignore, &rel("foo")));
    ignore.paths.push(rel("baz"));
    ignore.regexes.push(IgnorePattern::new("foo").unwrap());
    assert!(is_ignored(&ignore, &rel("baz")));
    assert!(is_ignored(&ignore, &rel("baz/qux")));
    assert!(!is_ignored(&ignore, &rel("bazooka")));
    assert!(is_ignored(&ignore, &rel("something_contains_foo")));
    assert!(!is_ignored(&ignore, &rel("bar")));
    assert!(IgnorePattern::new("(").is_err());
    assert_eq!(IgnorePattern::new("a+").unwrap().source(), "a+");
}

#[test]
fn in_sync_needs_kinds_sizes_and_contents() {
    let files = vec![file(1), file(2)];
    assert!(is_item_in_sync(&files, &vec![4, 4], &vec![true], true));
    assert!(!is_item_in_sync(&files, &vec![4, 5], &vec![true], true));
    assert!(!is_item_in_sync(&files, &vec![4, 4], &vec![false], true));
    assert!(is_item_in_sync(&files, &vec![4, 4], &vec![], false));
    assert!(!is_item_in_sync(&vec![file(1), dir(2)], &vec![4, 0], &vec![], false));
    assert!(is_item_in_sync(&vec![dir(1), dir(2)], &vec![0, 7], &vec![false], true));
    assert!(is_item_in_sync(&vec![], &vec![], &vec![], true));
}

#[test]
fn identical_archive_states() {
    assert!(are_archive_files_identical(&vec![file(1), EMPTY], &vec![file(1), EMPTY]));
    assert!(!are_archive_files_identical(&vec![file(1), EMPTY], &vec![file(2), EMPTY]));
    assert!(!are_archive_files_identical(&vec![file(1)], &vec![file(1), EMPTY]));
}

#[test]
fn scan_unions_children_and_flags_the_directory() {
    let listings = vec![
        Some(vec!["a".to_string(), "b".to_string()]),
        Some(vec!["b".to_string(), "c".to_string()]),
    ];
    let keys = scan_directory_contents(&rel("d"), &listings, &Ignore::nothing());
    let texts: Vec<String> = keys.iter().map(|k| k.to_text()).collect();
    assert_eq!(texts, vec!["d/a", "d/b", "d/c"]);
    let keys = scan_directory_contents(&rel("d"), &vec![Some(vec!["a".to_string()]), None], &Ignore::nothing());
    let texts: Vec<String> = keys.iter().map(|k| k.to_text()).collect();
    assert_eq!(texts, vec!["d/a", "d"]);
}

#[test]
fn roots_must_exist() {
    let roots = vec!["/a".to_string(), "/b".to_string(), "/c".to_string()];
    assert!(check_all_roots_exist(&roots, &vec![true, true, true]).is_ok());
    match check_all_roots_exist(&roots, &vec![true, false, false]) {
        Err(SyncError::RootDoesntExist(root)) => assert_eq!(root, "/b"),
        other => panic!("unexpected {:?}", other),
    }
}

#[test]
fn nested_difference_is_dropped_and_inner_one_not_added() {
    let mut result = DetectionResult::new();
    result.add_difference(difference("a/b/c", None, vec![file(1), EMPTY]));
    result.add_difference(difference("x", None, vec![file(1), EMPTY]));
    result.add_difference(difference("a/b", None, vec![dir(1), EMPTY]));
    let texts: Vec<String> = result.differences.iter().map(|d| d.path.to_text()).collect();
    assert_eq!(texts, vec!["x", "a/b"]);
    result.add_difference(difference("a/b/d", None, vec![file(1), EMPTY]));
    assert_eq!(result.differences.len(), 2);
    result.add_difference(difference("a/bc", None, vec![file(1), EMPTY]));
    assert_eq!(result.differences.len(), 3);
}

#[test]
fn guesses() {
    let changed_on_b = difference("p", Some(vec![file(1), file(2)]), vec![file(1), file(3)]);
    assert_eq!(guess_operation(&changed_on_b), Operation::PropagateFromMaster(1));
    let changed_on_both = difference("p", Some(vec![file(1), file(2)]), vec![file(4), file(3)]);
    assert_eq!(guess_operation(&changed_on_both), Operation::ItemChangedOnMultipleReplicas);
    let unchanged = difference("p", Some(vec![file(1), file(2)]), vec![file(1), file(2)]);
    assert_eq!(guess_operation(&unchanged), Operation::ItemChangedOnMultipleReplicas);
    let only_a = difference("p", None, vec![file(1), EMPTY]);
    assert_eq!(guess_operation(&only_a), Operation::PropagateFromMaster(0));
    let both = difference("p", None, vec![file(1), file(2)]);
    assert_eq!(guess_operation(&both), Operation::ItemDiffersBetweenReplicasAndNoArchive);
}

#[test]
fn transitions_follow_the_table() {
    assert_eq!(transition(&EMPTY, &EMPTY), vec![]);
    assert_eq!(transition(&EMPTY, &file(1)), vec![Action::RemoveFile]);
    assert_eq!(transition(&EMPTY, &dir(1)), vec![Action::RemoveDirectory]);
    assert_eq!(transition(&file(1), &EMPTY), vec![Action::CopyFile]);
    assert_eq!(transition(&file(1), &file(2)), vec![Action::CopyFile]);
    assert_eq!(transition(&file(1), &dir(2)), vec![Action::RemoveDirectory, Action::CopyFile]);
    assert_eq!(transition(&dir(1), &EMPTY), vec![Action::CopyDirectory]);
    assert_eq!(transition(&dir(1), &file(2)), vec![Action::RemoveFile, Action::CopyDirectory]);
    assert_eq!(transition(&dir(1), &dir(2)), vec![Action::RemoveDirectory, Action::CopyDirectory]);
}

#[test]
fn modified_replica_stops_propagation() {
    let d = difference("p/q", None, vec![file(1), EMPTY]);
    assert_eq!(plan_replica(&d, 0, 1, &EMPTY).unwrap(), vec![Action::CopyFile]);
    match plan_replica(&d, 0, 1, &file(8)) {
        Err(SyncError::PathModified(path)) => assert_eq!(path, "/b/p/q"),
        other => panic!("unexpected {:?}", other),
    }
}

#[test]
fn descendant_pruning_follows_directories() {
    let mut parent = ArchiveEntries::empty();
    parent.insert(&rel("d"), vec![dir(1), EMPTY]);
    parent.insert(&rel("f"), vec![file(1), file(2)]);
    assert!(needs_descendant_pruning(&parent, &rel("d")));
    assert!(!needs_descendant_pruning(&parent, &rel("f")));
    assert!(!needs_descendant_pruning(&parent, &rel("none")));
    assert_eq!(directory_children(&parent), vec![Archive::hash(&rel("d"))]);
    assert!(any_directories_in(&[EMPTY, dir(2)]));
    assert!(!any_directories_in(&[EMPTY, file(2)]));
}

#[test]
fn record_set_of_a_copied_directory() {
    let children = vec![(rel("d/a"), vec![file(1), file(2)]), (rel("d/s"), vec![dir(3), dir(4)])];
    let e = records_for_children(&children);
    assert!(e.is_dirty());
    assert_eq!(e.len(), 2);
    assert_eq!(e.get(&rel("d/s")), Some(&vec![dir(3), dir(4)]));
}

#[test]
fn progress_records() {
    let line = parse_progress_line("      1,238,099 100%  146.38kB/s    0:00:08 (xfr#5, to-chk=169/396)").unwrap();
    assert_eq!(line.transferred_bytes, 1238099);
    assert_eq!(line.progress, 100);
    assert_eq!(line.speed, "146.38kB/s");
    assert_eq!(line.elapsed_time, "0:00:08");
    assert_eq!(line.transferred, Some(5));
    assert_eq!(line.to_check, Some(ToCheck { remaining: 169, total: 396 }));
    let short = parse_progress_line("32,768  50%   1.00MB/s    0:00:01").unwrap();
    assert_eq!(short.transferred_bytes, 32768);
    assert_eq!(short.progress, 50);
    assert_eq!(short.transferred, None);
    assert_eq!(short.to_check, None);
    assert!(parse_progress_line("sending incremental file list").is_none());
    assert!(parse_progress_line("1 300% a b").is_none());
    assert!(parse_progress_line("99999999999999999999999 1% a b").is_none());
}

#[test]
fn error_messages() {
    assert_eq!(SyncError::Cancelled.message(), "operation cancelled");
    assert_eq!(SyncError::RootDoesntExist("/r".to_string()).message(), "root does not exist: /r");
    assert_eq!(
        SyncError::IoError("denied".to_string(), Some("when removing".to_string())).message(),
        "io error: denied, (when removing)"
    );
    assert_eq!(
        SyncError::ArchiveReadError(ReadError::DeserializeError).message(),
        "archive read error: corrupt archive body"
    );
    let absolute = TreePath { absolute: true, components: vec!["x".to_string()] };
    assert_eq!(
        SyncError::AbsolutePathProvided(absolute).message(),
        "the absolute path /x is invalid (hint: search directories must be relative to the replica root)"
    );
}

#[test]
fn pruning_walks_directory_children_depth_first() {
    let mut walk = DescendantPruning::start(&rel("d"));
    assert_eq!(walk.next(), Some(Archive::hash(&rel("d"))));
    let mut below = ArchiveEntries::empty();
    below.insert(&rel("d/s"), vec![dir(1), dir(2)]);
    below.insert(&rel("d/f"), vec![file(1), file(2)]);
    below.insert(&rel("d/t"), vec![EMPTY, dir(2)]);
    walk.visit(&below);
    assert_eq!(walk.next(), Some(Archive::hash(&rel("d/t"))));
    assert_eq!(walk.next(), Some(Archive::hash(&rel("d/s"))));
    assert_eq!(walk.next(), None);
}
