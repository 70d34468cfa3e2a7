use ubiquity::archive::ArchiveEntries;
use ubiquity::config::{IgnorePattern, SyncInfo};
use ubiquity::detect::{scan_directory_contents, Difference, SearchDirectories, UpdateDetection};
use ubiquity::paths::TreePath;
use ubiquity::propagate::{
    directory_children, needs_descendant_pruning, plan_replica, records_for_children, Action,
};
use ubiquity::reconcile::{guess_operation, Operation};
use ubiquity::state::{ArchiveEntryExists, ArchiveEntryPerReplica};

fn rel(text: &str) -> TreePath {
    let components = text.split('/').filter(|c| !c.is_empty()).map(|c| c.to_string()).collect();
    TreePath::relative(components)
}

fn roots() -> Vec<String> {
    vec!["/replicas/a".to_string(), "/replicas/b".to_string()]
}

fn file(ino: u64) -> ArchiveEntryPerReplica {
    ArchiveEntryPerReplica::File(ArchiveEntryExists { ino, ctime: 1_600_000_000 })
}

fn dir(ino: u64) -> ArchiveEntryPerReplica {
    ArchiveEntryPerReplica::Directory(ArchiveEntryExists { ino, ctime: 1_600_000_000 })
}

const EMPTY: ArchiveEntryPerReplica = ArchiveEntryPerReplica::Empty;

/// Runs one directory of a detection: `listings` per replica, and the
/// observed states and in-sync answer of every path that the scan gives.
fn run_directory(
    run: &mut UpdateDetection,
    config: &SyncInfo,
    entries: &mut ArchiveEntries,
    listings: Vec<Option<Vec<&str>>>,
    observe: &dyn Fn(&TreePath) -> (Vec<ArchiveEntryPerReplica>, bool),
) -> TreePath {
    let directory = run.next_directory().expect("a directory is waiting").expect("relative");
    let listings: Vec<Option<Vec<String>>> = listings
        .into_iter()
        .map(|l| l.map(|names| names.into_iter().map(|n| n.to_string()).collect()))
        .collect();
    for path in scan_directory_contents(&directory, &listings, &config.ignore) {
        let (current, in_sync) = observe(&path);
        run.analyse_entry(&config.roots, entries, path, current, in_sync);
    }
    directory
}

#[test]
fn test_regex_forward_slash() {
    let r = IgnorePattern::new(r"/target/").unwrap();
    assert!(r.is_match("/Users/bob/awesome/target/foo"));
    assert!(!r.is_match("/Users/bob/awesome/target"));
}

#[test]
fn test_differences_are_empty() {
    let config = SyncInfo::new(roots());
    let mut run = UpdateDetection::start(SearchDirectories::from_root(), &config.ignore);
    let mut entries = ArchiveEntries::empty();
    run_directory(&mut run, &config, &mut entries, vec![Some(vec![]), Some(vec![])], &|_| {
        panic!("nothing to observe")
    });
    assert!(run.next_directory().is_none());
    assert!(run.result.differences.is_empty());
    assert!(!entries.is_dirty());
    let mut entries = entries;
    assert!(entries.to_file_contents().is_none());
}

#[test]
fn test_changes_are_detected() {
    let config = SyncInfo::new(roots());
    let mut run = UpdateDetection::start(SearchDirectories::from_root(), &config.ignore);
    let mut entries = ArchiveEntries::empty();
    run_directory(
        &mut run,
        &config,
        &mut entries,
        vec![Some(vec![]), Some(vec!["Test Document"])],
        &|_| (vec![EMPTY, file(7)], false),
    );
    let differences = &run.result.differences;
    assert_eq!(differences.len(), 1);
    assert_eq!(differences[0].path.to_text(), "Test Document");
    assert!(differences[0].previous_state.is_none());
    assert_eq!(differences[0].current_state, vec![EMPTY, file(7)]);
    assert_eq!(guess_operation(&differences[0]), Operation::PropagateFromMaster(1));
}

#[test]
fn test_files_are_ignored() {
    let mut config = SyncInfo::new(roots());
    config.ignore.regexes.push(IgnorePattern::new(r"foo").unwrap());
    config.ignore.paths.push(rel("baz"));
    let mut run = UpdateDetection::start(SearchDirectories::from_root(), &config.ignore);
    let mut entries = ArchiveEntries::empty();
    run_directory(
        &mut run,
        &config,
        &mut entries,
        vec![Some(vec!["foo", "something_contains_foo", "baz"]), Some(vec![])],
        &|p| panic!("{} should have been ignored", p.to_text()),
    );
    assert!(run.result.differences.is_empty());
    assert!(!entries.is_dirty());
}

#[test]
fn test_nested_differences_are_removed() {
    let config = SyncInfo::new(roots());
    let search = SearchDirectories::new(vec![rel("baz"), rel("baz/qux")], false);
    let mut run = UpdateDetection::start(search, &config.ignore);
    let observe = |p: &TreePath| match p.to_text().as_str() {
        "baz/qux/cub" => (vec![file(3), EMPTY], false),
        _ => (vec![dir(2), EMPTY], false),
    };
    let mut entries = ArchiveEntries::empty();
    let first = run_directory(&mut run, &config, &mut entries, vec![Some(vec!["cub"]), None], &observe);
    assert_eq!(first.to_text(), "baz/qux");
    let mut entries = ArchiveEntries::empty();
    let second = run_directory(&mut run, &config, &mut entries, vec![Some(vec!["qux"]), None], &observe);
    assert_eq!(second.to_text(), "baz");
    assert!(run.next_directory().is_none());
    assert_eq!(run.result.differences.len(), 1);
    assert_eq!(run.result.differences[0].path.to_text(), "baz");
}

#[test]
fn synced_paths_are_archive_hits_on_the_next_pass() {
    let config = SyncInfo::new(roots());
    let observe = |p: &TreePath| match p.to_text().as_str() {
        "baz" => (vec![dir(10), dir(20)], true),
        _ => (vec![file(11), file(21)], true),
    };
    let mut root_entries = ArchiveEntries::empty();
    let mut baz_entries = ArchiveEntries::empty();
    for pass in 0..2 {
        let mut run = UpdateDetection::start(SearchDirectories::from_root(), &config.ignore);
        run_directory(&mut run, &config, &mut root_entries, vec![Some(vec!["baz"]), Some(vec!["baz"])], &observe);
        run_directory(&mut run, &config, &mut baz_entries, vec![Some(vec!["cub"]), Some(vec!["cub"])], &observe);
        assert!(run.next_directory().is_none());
        assert!(run.result.differences.is_empty());
        if pass == 0 {
            assert_eq!(run.result.statistics.archive_additions, 2);
            assert_eq!(run.result.statistics.archive_hits, 0);
        } else {
            assert_eq!(run.result.statistics.archive_additions, 0);
            assert_eq!(run.result.statistics.archive_hits, 2);
        }
    }
}

#[test]
fn deletion_on_one_replica_propagates_from_it() {
    let mut entries = ArchiveEntries::empty();
    entries.insert(&rel("baz"), vec![dir(10), dir(20)]);
    let config = SyncInfo::new(roots());
    let mut run = UpdateDetection::start(SearchDirectories::from_root(), &config.ignore);
    run_directory(&mut run, &config, &mut entries, vec![Some(vec!["baz"]), Some(vec![])], &|_| {
        (vec![dir(10), EMPTY], false)
    });
    let differences = &run.result.differences;
    assert_eq!(differences.len(), 1);
    assert_eq!(differences[0].previous_state, Some(vec![dir(10), dir(20)]));
    assert_eq!(guess_operation(&differences[0]), Operation::PropagateFromMaster(1));
}

#[test]
fn difference_reports_absolute_paths() {
    let d = Difference {
        path: rel("a/b"),
        roots: roots(),
        previous_state: None,
        current_state: vec![EMPTY, EMPTY],
    };
    assert_eq!(d.absolute_path_for_root(1), "/replicas/b/a/b");
}

#[test]
fn propagated_path_is_a_hit_afterwards() {
    let config = SyncInfo::new(roots());
    let mut entries = ArchiveEntries::empty();
    entries.insert(&rel("Test Document"), vec![file(8), file(7)]);
    let mut run = UpdateDetection::start(SearchDirectories::from_root(), &config.ignore);
    run_directory(
        &mut run,
        &config,
        &mut entries,
        vec![Some(vec!["Test Document"]), Some(vec!["Test Document"])],
        &|_| (vec![file(8), file(7)], false),
    );
    assert!(run.result.differences.is_empty());
    assert_eq!(run.result.statistics.archive_hits, 1);
    assert_eq!(run.result.statistics.archive_additions, 0);
}

#[test]
fn test_differences_are_resolved() {
    let config = SyncInfo::new(roots());
    let mut root_entries = ArchiveEntries::empty();

    // `baz/cub` is created on the first replica.
    let mut run = UpdateDetection::start(SearchDirectories::from_root(), &config.ignore);
    run_directory(&mut run, &config, &mut root_entries, vec![Some(vec!["baz"]), Some(vec![])], &|_| {
        (vec![dir(10), EMPTY], false)
    });
    assert!(run.next_directory().is_none());
    assert_eq!(run.result.differences.len(), 1);
    let d = &run.result.differences[0];
    let master = match guess_operation(d) {
        Operation::PropagateFromMaster(m) => m,
        other => panic!("unexpected {:?}", other),
    };
    assert_eq!(master, 0);
    assert_eq!(plan_replica(d, master, 1, &EMPTY).unwrap(), vec![Action::CopyDirectory]);
    // After the copy: the parent's record and the copied directory's record set.
    assert!(!needs_descendant_pruning(&root_entries, &d.path));
    root_entries.insert(&d.path, vec![dir(10), dir(20)]);
    let mut baz_entries = records_for_children(&vec![(rel("baz/cub"), vec![file(11), file(21)])]);

    let observe = |p: &TreePath| match p.to_text().as_str() {
        "baz" => (vec![dir(10), dir(20)], true),
        _ => (vec![file(11), file(21)], true),
    };
    let mut run = UpdateDetection::start(SearchDirectories::from_root(), &config.ignore);
    run_directory(&mut run, &config, &mut root_entries, vec![Some(vec!["baz"]), Some(vec!["baz"])], &observe);
    run_directory(&mut run, &config, &mut baz_entries, vec![Some(vec!["cub"]), Some(vec!["cub"])], &observe);
    assert!(run.next_directory().is_none());
    assert_eq!(run.result.statistics.archive_additions, 0);
    assert_eq!(run.result.differences.len(), 0);

    // `baz` is removed from the second replica.
    let mut run = UpdateDetection::start(SearchDirectories::from_root(), &config.ignore);
    run_directory(&mut run, &config, &mut root_entries, vec![Some(vec!["baz"]), Some(vec![])], &|_| {
        (vec![dir(10), EMPTY], false)
    });
    assert!(run.next_directory().is_none());
    assert_eq!(run.result.differences.len(), 1);
    let d = &run.result.differences[0];
    assert_eq!(guess_operation(d), Operation::PropagateFromMaster(1));
    assert_eq!(plan_replica(d, 1, 0, &dir(10)).unwrap(), vec![Action::RemoveDirectory]);
    // The archive below `baz` is pruned, and `baz` is recorded as gone.
    assert!(needs_descendant_pruning(&root_entries, &d.path));
    assert!(directory_children(&baz_entries).is_empty());
    root_entries.insert(&d.path, vec![EMPTY, EMPTY]);
    assert!(root_entries.to_file_contents().is_none());

    let mut run = UpdateDetection::start(SearchDirectories::from_root(), &config.ignore);
    run_directory(&mut run, &config, &mut root_entries, vec![Some(vec![]), Some(vec![])], &|_| {
        panic!("nothing to observe")
    });
    assert!(run.next_directory().is_none());
    assert_eq!(run.result.differences.len(), 0);
    assert_eq!(run.result.statistics.archive_additions, 0);
}
