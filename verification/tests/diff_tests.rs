use arc_diff::generate::{
    compare_folders, get_direct_child_from_parent_hash, walk_search_section, GenerateError,
    SearchEntry,
};
use arc_diff::index::{FolderEntry, PathEntry, SearchIndex, INVALID};

fn h(s: &str) -> u64 {
    hash40::Hash40::new(s).0
}

/// An index holding `a/b/c.txt` and `a/d/e.txt` under the root.
fn sample_index() -> SearchIndex {
    let paths = vec![
        // row 0: a
        PathEntry {
            path: h("a"),
            parent: h("/"),
            file_name: h("a"),
            ext: 0,
            next: INVALID,
            is_directory: true,
        },
        // row 1: a/b
        PathEntry {
            path: h("a/b"),
            parent: h("a"),
            file_name: h("b"),
            ext: 0,
            next: 2,
            is_directory: true,
        },
        // row 2: a/b/c.txt
        PathEntry {
            path: h("a/b/c.txt"),
            parent: h("a/b"),
            file_name: h("c.txt"),
            ext: h("txt"),
            next: INVALID,
            is_directory: false,
        },
        // row 3: a/d
        PathEntry {
            path: h("a/d"),
            parent: h("a"),
            file_name: h("d"),
            ext: 0,
            next: INVALID,
            is_directory: true,
        },
        // row 4: a/d/e.txt
        PathEntry {
            path: h("a/d/e.txt"),
            parent: h("a/d"),
            file_name: h("e.txt"),
            ext: h("txt"),
            next: INVALID,
            is_directory: false,
        },
    ];
    let links = vec![0usize, 1, 3, 2, 4];
    let folders = vec![
        FolderEntry { path: h("/"), first_child: 0 },
        FolderEntry { path: h("a"), first_child: 1 },
        FolderEntry { path: h("a/b"), first_child: 3 },
        FolderEntry { path: h("a/d"), first_child: 4 },
    ];
    SearchIndex { paths, links, folders }
}

#[test]
fn diff_into_empty_destination_reports_both_files() {
    let idx = sample_index();
    let missing = compare_folders(&idx, h("a"), h("a2")).unwrap();
    assert_eq!(missing.len(), 2);

    let c = missing.get(&h("a/b/c.txt")).unwrap();
    assert_eq!(c.full_path, h("a2/b/c.txt"));
    assert_eq!(c.file_name, h("c.txt"));
    assert_eq!(c.extension, h("txt"));
    // two-level owned parent chain: a2/b -> a2
    assert_eq!(c.parent.full_path, h("a2/b"));
    assert_eq!(c.parent.name, Some(h("b")));
    let top = c.parent.parent.as_ref().unwrap();
    assert_eq!(top.full_path, h("a2"));
    assert_eq!(top.name, None);
    assert!(top.parent.is_none());

    let e = missing.get(&h("a/d/e.txt")).unwrap();
    assert_eq!(e.full_path, h("a2/d/e.txt"));
    assert_eq!(e.parent.full_path, h("a2/d"));
    assert_eq!(e.parent.name, Some(h("d")));
    let top2 = e.parent.parent.as_ref().unwrap();
    assert_eq!(top2.full_path, h("a2"));
    assert!(top2.parent.is_none());
}

#[test]
fn diff_of_folder_with_itself_is_empty() {
    let idx = sample_index();
    let missing = compare_folders(&idx, h("a"), h("a")).unwrap();
    assert!(missing.is_empty());
    let missing_b = compare_folders(&idx, h("a/b"), h("a/b")).unwrap();
    assert!(missing_b.is_empty());
}

#[test]
fn diff_missing_source_is_rejected() {
    let idx = sample_index();
    let err = compare_folders(&idx, h("nowhere"), h("a2")).unwrap_err();
    assert_eq!(err, GenerateError::MissingSourceFolder);
}

#[test]
fn diff_between_sibling_subtrees_reports_only_absent_names() {
    let idx = sample_index();
    // a/b holds c.txt; a/d holds e.txt: diffing b against d reports c.txt
    let missing = compare_folders(&idx, h("a/b"), h("a/d")).unwrap();
    assert_eq!(missing.len(), 1);
    let c = missing.get(&h("a/b/c.txt")).unwrap();
    assert_eq!(c.full_path, h("a/d/c.txt"));
}

#[test]
fn walk_depth_zero_yields_nothing() {
    let idx = sample_index();
    let out = walk_search_section(&idx, h("a"), Some(0)).unwrap();
    assert!(out.is_empty());
}

#[test]
fn walk_shallow_lists_immediate_children() {
    let idx = sample_index();
    let out = walk_search_section(&idx, h("a"), Some(1)).unwrap();
    assert_eq!(out.len(), 2);
    match &out[0] {
        SearchEntry::Folder { path_index, children } => {
            assert_eq!(*path_index, 1);
            assert!(children.is_empty());
        },
        SearchEntry::File(_) => panic!("expected folder entry"),
    }
    match &out[1] {
        SearchEntry::Folder { path_index, children } => {
            assert_eq!(*path_index, 3);
            assert!(children.is_empty());
        },
        SearchEntry::File(_) => panic!("expected folder entry"),
    }
}

#[test]
fn walk_unbounded_visits_every_descendant_once() {
    let idx = sample_index();
    let out = walk_search_section(&idx, h("/"), None).unwrap();
    let mut rows = Vec::new();
    fn collect(entries: &[SearchEntry], rows: &mut Vec<usize>) {
        for e in entries {
            match e {
                SearchEntry::File(r) => rows.push(*r),
                SearchEntry::Folder { path_index, children } => {
                    rows.push(*path_index);
                    collect(children, rows);
                },
            }
        }
    }
    collect(&out, &mut rows);
    assert_eq!(rows, vec![0, 1, 2, 3, 4]);
}

#[test]
fn walk_of_file_row_is_invalid_folder() {
    let idx = sample_index();
    let err = walk_search_section(&idx, h("a/b/c.txt"), None).unwrap_err();
    assert_eq!(err, GenerateError::InvalidFolder);
}

#[test]
fn walk_of_unknown_hash_is_lookup_failure() {
    let idx = sample_index();
    let err = walk_search_section(&idx, h("nowhere"), None).unwrap_err();
    assert_eq!(err, GenerateError::Lookup);
}

#[test]
fn broken_sibling_link_is_fatal() {
    let mut idx = sample_index();
    // a's first child link now resolves to the sentinel inside the
    // index table: corruption, not end-of-children
    idx.links[1] = INVALID;
    let err = walk_search_section(&idx, h("a"), None).unwrap_err();
    assert_eq!(err, GenerateError::InvalidPathIndex);
}

#[test]
fn well_formedness_check_rejects_duplicate_hashes() {
    let idx = sample_index();
    assert!(idx.check_wf());
    let mut bad = sample_index();
    bad.paths[3].path = bad.paths[1].path;
    assert!(!bad.check_wf());
}

#[test]
fn direct_child_by_parent_hash_resolves_first() {
    let idx = sample_index();
    assert_eq!(get_direct_child_from_parent_hash(&idx, h("a"), h("d")).unwrap(), Some(3));
    assert_eq!(get_direct_child_from_parent_hash(&idx, h("a"), h("z")).unwrap(), None);
    let err = get_direct_child_from_parent_hash(&idx, h("nowhere"), h("d")).unwrap_err();
    assert_eq!(err, GenerateError::Lookup);
}

#[test]
fn directory_without_folder_entry_is_lookup_failure() {
    let mut idx = sample_index();
    // drop a/d's folder entry: its row claims a directory the folder
    // table does not know
    idx.folders.truncate(3);
    let err = walk_search_section(&idx, h("a"), None).unwrap_err();
    assert_eq!(err, GenerateError::Lookup);
}

#[test]
fn cyclic_sibling_chain_is_fatal() {
    let mut idx = sample_index();
    // a/b's next sibling link points back at a/b's own link position
    idx.paths[1].next = 1;
    let err = walk_search_section(&idx, h("a"), None).unwrap_err();
    assert_eq!(err, GenerateError::InvalidPathIndex);
}
