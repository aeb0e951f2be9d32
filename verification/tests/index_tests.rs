use dup_cleaner::index::MyApp;
use dup_cleaner::index::FileKey;
use dup_cleaner::index::FileRecord;

fn rec(name: &str, size: u64, path: &str) -> FileRecord {
    FileRecord { name: String::from(name), size, path: String::from(path) }
}

fn key(name: &str, size: u64) -> FileKey {
    FileKey { name: String::from(name), size }
}

#[test]
fn new_index_is_empty() {
    let idx = MyApp::new(0);
    assert_eq!(idx.groups().len(), 0);
    assert_eq!(idx.min_size(), 0);
    assert_eq!(idx.marked_paths().len(), 0);
}

#[test]
fn scenario_same_name_and_size_in_two_dirs() {
    // a/report.txt and b/report.txt, both 500 bytes, threshold 0:
    // one group with key ("report.txt", 500) and two members.
    let mut idx = MyApp::new(0);
    let records = vec![rec("report.txt", 500, "a/report.txt"), rec("report.txt", 500, "b/report.txt")];
    idx.search_duplicate_files(&records);
    let groups = idx.groups();
    assert_eq!(groups.len(), 1);
    assert_eq!(groups[0].key.name, "report.txt");
    assert_eq!(groups[0].key.size, 500);
    assert_eq!(groups[0].members.len(), 2);
    assert_eq!(groups[0].members[0].path, "a/report.txt");
    assert_eq!(groups[0].members[1].path, "b/report.txt");
    assert!(!groups[0].members[0].marked);
    assert!(!groups[0].members[1].marked);
}

#[test]
fn scenario_threshold_filters_both_out() {
    // Same two files but threshold 1000: the scan yields zero groups.
    let mut idx = MyApp::new(1000);
    let records = vec![rec("report.txt", 500, "a/report.txt"), rec("report.txt", 500, "b/report.txt")];
    idx.search_duplicate_files(&records);
    assert_eq!(idx.groups().len(), 0);
}

#[test]
fn threshold_is_strict_below() {
    // Files exactly at the threshold are kept; only strictly smaller ones are
    // excluded.
    let mut idx = MyApp::new(1000);
    let records = vec![rec("a.bin", 1000, "x/a.bin"), rec("a.bin", 1000, "y/a.bin")];
    idx.search_duplicate_files(&records);
    assert_eq!(idx.groups().len(), 1);
}

#[test]
fn small_records_never_produce_or_extend_groups() {
    // Two large duplicates group; the small third copy of the same name and
    // size range does not extend anything, nor do small duplicates group.
    let mut idx = MyApp::new(100);
    let records = vec![
        rec("big.dat", 200, "p/big.dat"),
        rec("big.dat", 200, "q/big.dat"),
        rec("big.dat", 50, "r/big.dat"),
        rec("tiny.dat", 10, "p/tiny.dat"),
        rec("tiny.dat", 10, "q/tiny.dat"),
    ];
    idx.search_duplicate_files(&records);
    let groups = idx.groups();
    assert_eq!(groups.len(), 1);
    assert_eq!(groups[0].key.name, "big.dat");
    assert_eq!(groups[0].members.len(), 2);
}

#[test]
fn one_record_is_no_duplicate() {
    let mut idx = MyApp::new(0);
    let records = vec![rec("only.txt", 7, "a/only.txt")];
    idx.search_duplicate_files(&records);
    assert_eq!(idx.groups().len(), 0);
}

#[test]
fn distinct_keys_never_group() {
    // Same name, different size; same size, different name: no group.
    let mut idx = MyApp::new(0);
    let records = vec![
        rec("a.txt", 10, "p/a.txt"),
        rec("a.txt", 11, "q/a.txt"),
        rec("b.txt", 10, "p/b.txt"),
    ];
    idx.search_duplicate_files(&records);
    assert_eq!(idx.groups().len(), 0);
}

#[test]
fn third_copy_extends_its_group() {
    let mut idx = MyApp::new(0);
    let records = vec![
        rec("x.iso", 9, "a/x.iso"),
        rec("x.iso", 9, "b/x.iso"),
        rec("x.iso", 9, "c/x.iso"),
    ];
    idx.search_duplicate_files(&records);
    let groups = idx.groups();
    assert_eq!(groups.len(), 1);
    assert_eq!(groups[0].members.len(), 3);
    assert_eq!(groups[0].members[0].path, "a/x.iso");
    assert_eq!(groups[0].members[1].path, "b/x.iso");
    assert_eq!(groups[0].members[2].path, "c/x.iso");
}

#[test]
fn rescan_never_merges_with_previous_results() {
    // A scan of a new set of records replaces the prior groups entirely; an
    // empty scan yields an empty group collection regardless of prior state.
    let mut idx = MyApp::new(0);
    let first = vec![rec("dup.txt", 5, "a/dup.txt"), rec("dup.txt", 5, "b/dup.txt")];
    idx.search_duplicate_files(&first);
    assert_eq!(idx.groups().len(), 1);
    let second: Vec<FileRecord> = vec![rec("dup.txt", 5, "c/dup.txt")];
    idx.search_duplicate_files(&second);
    assert_eq!(idx.groups().len(), 0);
    let none: Vec<FileRecord> = vec![];
    idx.search_duplicate_files(&none);
    assert_eq!(idx.groups().len(), 0);
}

#[test]
fn empty_scan_leaves_usable_state() {
    // A scan that visited nothing (for instance because a root did not
    // exist) produces zero groups and the index stays usable.
    let mut idx = MyApp::new(0);
    let none: Vec<FileRecord> = vec![];
    idx.search_duplicate_files(&none);
    assert_eq!(idx.groups().len(), 0);
    let records = vec![rec("f", 1, "a/f"), rec("f", 1, "b/f")];
    idx.search_duplicate_files(&records);
    assert_eq!(idx.groups().len(), 1);
}

#[test]
fn set_min_size_applies_to_next_scan() {
    let mut idx = MyApp::new(0);
    idx.set_min_size(100);
    assert_eq!(idx.min_size(), 100);
    let records = vec![rec("s", 99, "a/s"), rec("s", 99, "b/s")];
    idx.search_duplicate_files(&records);
    assert_eq!(idx.groups().len(), 0);
}

#[test]
fn reset_clears_groups() {
    let mut idx = MyApp::new(0);
    let records = vec![rec("d", 1, "a/d"), rec("d", 1, "b/d")];
    idx.search_duplicate_files(&records);
    assert_eq!(idx.groups().len(), 1);
    idx.reset();
    assert_eq!(idx.groups().len(), 0);
    assert_eq!(idx.min_size(), 0);
}

#[test]
fn toggle_mark_flips_one_member() {
    let mut idx = MyApp::new(0);
    let records = vec![rec("m.txt", 3, "a/m.txt"), rec("m.txt", 3, "b/m.txt")];
    idx.search_duplicate_files(&records);
    let k = key("m.txt", 3);
    assert!(idx.toggle_mark(&k, &String::from("b/m.txt")));
    {
        let groups = idx.groups();
        assert!(!groups[0].members[0].marked);
        assert!(groups[0].members[1].marked);
    }
    // Toggling again flips it back.
    assert!(idx.toggle_mark(&k, &String::from("b/m.txt")));
    let groups = idx.groups();
    assert!(!groups[0].members[1].marked);
}

#[test]
fn toggle_mark_on_stale_key_or_path_is_noop() {
    let mut idx = MyApp::new(0);
    let records = vec![rec("m.txt", 3, "a/m.txt"), rec("m.txt", 3, "b/m.txt")];
    idx.search_duplicate_files(&records);
    assert!(!idx.toggle_mark(&key("other.txt", 3), &String::from("a/m.txt")));
    assert!(!idx.toggle_mark(&key("m.txt", 4), &String::from("a/m.txt")));
    assert!(!idx.toggle_mark(&key("m.txt", 3), &String::from("z/m.txt")));
    let groups = idx.groups();
    assert_eq!(groups.len(), 1);
    assert_eq!(groups[0].members.len(), 2);
    assert!(!groups[0].members[0].marked);
    assert!(!groups[0].members[1].marked);
}

#[test]
fn marked_paths_lists_exactly_the_flagged() {
    let mut idx = MyApp::new(0);
    let records = vec![
        rec("x", 1, "a/x"),
        rec("x", 1, "b/x"),
        rec("x", 1, "c/x"),
    ];
    idx.search_duplicate_files(&records);
    assert_eq!(idx.marked_paths().len(), 0);
    let k = key("x", 1);
    idx.toggle_mark(&k, &String::from("b/x"));
    idx.toggle_mark(&k, &String::from("c/x"));
    let paths = idx.marked_paths();
    assert_eq!(paths, vec![String::from("b/x"), String::from("c/x")]);
}

#[test]
fn remove_drops_group_that_falls_below_two() {
    // Three files share a key; two are marked and deleted; the group of one
    // survivor is dropped from the visible set entirely.
    let mut idx = MyApp::new(0);
    let records = vec![
        rec("x", 1, "a/x"),
        rec("x", 1, "b/x"),
        rec("x", 1, "c/x"),
    ];
    idx.search_duplicate_files(&records);
    let k = key("x", 1);
    idx.toggle_mark(&k, &String::from("b/x"));
    idx.toggle_mark(&k, &String::from("c/x"));
    let deleted = idx.marked_paths();
    idx.remove_marked(&deleted);
    assert_eq!(idx.groups().len(), 0);
}

#[test]
fn remove_keeps_unmarked_members() {
    // Only flagged, successfully deleted paths leave; the others stay with
    // their flags as they were.
    let mut idx = MyApp::new(0);
    let records = vec![
        rec("x", 1, "a/x"),
        rec("x", 1, "b/x"),
        rec("x", 1, "c/x"),
        rec("x", 1, "d/x"),
    ];
    idx.search_duplicate_files(&records);
    let k = key("x", 1);
    idx.toggle_mark(&k, &String::from("a/x"));
    idx.toggle_mark(&k, &String::from("c/x"));
    let deleted = idx.marked_paths();
    idx.remove_marked(&deleted);
    let groups = idx.groups();
    assert_eq!(groups.len(), 1);
    assert_eq!(groups[0].members.len(), 2);
    assert_eq!(groups[0].members[0].path, "b/x");
    assert_eq!(groups[0].members[1].path, "d/x");
    assert!(!groups[0].members[0].marked);
    assert!(!groups[0].members[1].marked);
}

#[test]
fn remove_retains_member_whose_deletion_failed() {
    // A marked member whose path is not reported deleted stays in its group,
    // still marked.
    let mut idx = MyApp::new(0);
    let records = vec![rec("x", 1, "a/x"), rec("x", 1, "b/x"), rec("x", 1, "c/x")];
    idx.search_duplicate_files(&records);
    let k = key("x", 1);
    idx.toggle_mark(&k, &String::from("b/x"));
    let deleted: Vec<String> = vec![];
    idx.remove_marked(&deleted);
    let groups = idx.groups();
    assert_eq!(groups.len(), 1);
    assert_eq!(groups[0].members.len(), 3);
    assert!(groups[0].members[1].marked);
    assert_eq!(idx.marked_paths(), vec![String::from("b/x")]);
}

#[test]
fn surviving_groups_always_have_two_members() {
    // Two groups: one falls below two members and disappears, the other
    // survives; no surviving group has fewer than two members.
    let mut idx = MyApp::new(0);
    let records = vec![
        rec("x", 1, "a/x"),
        rec("x", 1, "b/x"),
        rec("y", 2, "a/y"),
        rec("y", 2, "b/y"),
        rec("y", 2, "c/y"),
    ];
    idx.search_duplicate_files(&records);
    assert_eq!(idx.groups().len(), 2);
    idx.toggle_mark(&key("x", 1), &String::from("a/x"));
    idx.toggle_mark(&key("y", 2), &String::from("c/y"));
    let deleted = idx.marked_paths();
    idx.remove_marked(&deleted);
    let groups = idx.groups();
    assert_eq!(groups.len(), 1);
    for g in groups.iter() {
        assert!(g.members.len() >= 2);
    }
    assert_eq!(groups[0].key.name, "y");
    assert_eq!(groups[0].members.len(), 2);
}

#[test]
fn remove_twice_is_a_noop() {
    // After a removal pass whose deletions all succeeded, nothing is marked:
    // a second pass attempts nothing and changes nothing.
    let mut idx = MyApp::new(0);
    let records = vec![
        rec("x", 1, "a/x"),
        rec("x", 1, "b/x"),
        rec("x", 1, "c/x"),
    ];
    idx.search_duplicate_files(&records);
    idx.toggle_mark(&key("x", 1), &String::from("c/x"));
    let deleted = idx.marked_paths();
    idx.remove_marked(&deleted);
    let before: Vec<(String, u64, Vec<(String, bool)>)> = idx
        .groups()
        .iter()
        .map(|g| {
            (
                g.key.name.clone(),
                g.key.size,
                g.members.iter().map(|m| (m.path.clone(), m.marked)).collect(),
            )
        })
        .collect();
    assert_eq!(idx.marked_paths().len(), 0);
    let second: Vec<String> = idx.marked_paths();
    idx.remove_marked(&second);
    let after: Vec<(String, u64, Vec<(String, bool)>)> = idx
        .groups()
        .iter()
        .map(|g| {
            (
                g.key.name.clone(),
                g.key.size,
                g.members.iter().map(|m| (m.path.clone(), m.marked)).collect(),
            )
        })
        .collect();
    assert_eq!(before, after);
}
