use arc_diff::generate::{compare_folders_path, GenerateError};
use arc_diff::index::{FolderEntry, PathEntry, SearchIndex, INVALID};
use arc_diff::search::{DiskEntry, DiskNode};

fn h(s: &str) -> u64 {
    hash40::Hash40::new(s).0
}

fn sample_index() -> SearchIndex {
    let paths = vec![
        PathEntry {
            path: h("a"),
            parent: h("/"),
            file_name: h("a"),
            ext: 0,
            next: INVALID,
            is_directory: true,
        },
        PathEntry {
            path: h("a/b"),
            parent: h("a"),
            file_name: h("b"),
            ext: 0,
            next: 2,
            is_directory: true,
        },
        PathEntry {
            path: h("a/b/c.txt"),
            parent: h("a/b"),
            file_name: h("c.txt"),
            ext: h("txt"),
            next: INVALID,
            is_directory: false,
        },
        PathEntry {
            path: h("a/d"),
            parent: h("a"),
            file_name: h("d"),
            ext: 0,
            next: INVALID,
            is_directory: true,
        },
        PathEntry {
            path: h("a/d/e.txt"),
            parent: h("a/d"),
            file_name: h("e.txt"),
            ext: h("txt"),
            next: INVALID,
            is_directory: false,
        },
    ];
    let links = vec![0usize, 1, 3, 2, 4];
    let folders = vec![
        FolderEntry { path: h("/"), first_child: 0 },
        FolderEntry { path: h("a"), first_child: 1 },
        FolderEntry { path: h("a/b"), first_child: 3 },
        FolderEntry { path: h("a/d"), first_child: 4 },
    ];
    SearchIndex { paths, links, folders }
}

fn fresh_map() -> hash40::label_map::LabelMap {
    hash40::label_map::LabelMap::default()
}

#[test]
fn real_file_with_same_name_is_omitted() {
    let idx = sample_index();
    let mut labels = fresh_map();
    // the destination a2 exists and already holds b/c.txt as a real file
    let tree = DiskNode::Dir(vec![DiskEntry {
        name: String::from("b"),
        node: DiskNode::Dir(vec![DiskEntry { name: String::from("c.txt"), node: DiskNode::File }]),
    }]);
    let missing =
        compare_folders_path(&idx, &mut labels, h("a"), Some(&tree), "root/a2", "root").unwrap();
    assert_eq!(missing.len(), 1);
    assert!(missing.get(&h("a/b/c.txt")).is_none());
    let e = missing.get(&h("a/d/e.txt")).unwrap();
    assert_eq!(e.full_path, h("a2/d/e.txt"));
    assert_eq!(e.file_name, h("e.txt"));
    assert_eq!(e.parent.full_path, h("a2/d"));
}

#[test]
fn expected_directory_that_is_a_real_file_fails() {
    let idx = sample_index();
    let mut labels = fresh_map();
    // a2/b exists on disk but as a plain file
    let tree = DiskNode::Dir(vec![DiskEntry { name: String::from("b"), node: DiskNode::File }]);
    let err = compare_folders_path(&idx, &mut labels, h("a"), Some(&tree), "root/a2", "root")
        .unwrap_err();
    assert_eq!(err, GenerateError::InvalidFolder);
}

#[test]
fn absent_destination_reports_whole_subtree() {
    let idx = sample_index();
    let mut labels = fresh_map();
    let missing =
        compare_folders_path(&idx, &mut labels, h("a"), None, "root/a2", "root").unwrap();
    assert_eq!(missing.len(), 2);
    assert_eq!(missing.get(&h("a/b/c.txt")).unwrap().full_path, h("a2/b/c.txt"));
    assert_eq!(missing.get(&h("a/d/e.txt")).unwrap().full_path, h("a2/d/e.txt"));
}

#[test]
fn destination_outside_root_is_rejected() {
    let idx = sample_index();
    let mut labels = fresh_map();
    let err = compare_folders_path(&idx, &mut labels, h("a"), None, "elsewhere/a2", "root")
        .unwrap_err();
    assert_eq!(err, GenerateError::InvalidRoot);
}

#[test]
fn fs_diff_registers_labels_it_reads() {
    let idx = sample_index();
    let mut labels = fresh_map();
    let tree = DiskNode::Dir(vec![DiskEntry {
        name: String::from("b"),
        node: DiskNode::Dir(vec![DiskEntry { name: String::from("c.txt"), node: DiskNode::File }]),
    }]);
    compare_folders_path(&idx, &mut labels, h("a"), Some(&tree), "root/a2", "root").unwrap();
    // the relative component and the listed names are now resolvable
    assert_eq!(labels.label_of(hash40::Hash40::new("a2")), Some(String::from("a2")));
    assert_eq!(labels.label_of(hash40::Hash40::new("b")), Some(String::from("b")));
    assert_eq!(labels.label_of(hash40::Hash40::new("c.txt")), Some(String::from("c.txt")));
}

#[test]
fn rerunning_after_materializing_reports_nothing() {
    let idx = sample_index();
    let mut labels = fresh_map();
    let tree = DiskNode::Dir(vec![DiskEntry {
        name: String::from("b"),
        node: DiskNode::Dir(vec![DiskEntry { name: String::from("c.txt"), node: DiskNode::File }]),
    }]);
    let first =
        compare_folders_path(&idx, &mut labels, h("a"), Some(&tree), "root/a2", "root").unwrap();
    assert_eq!(first.len(), 1);
    // extend the destination listing with every reported missing file
    let tree2 = DiskNode::Dir(vec![
        DiskEntry {
            name: String::from("b"),
            node: DiskNode::Dir(vec![DiskEntry {
                name: String::from("c.txt"),
                node: DiskNode::File,
            }]),
        },
        DiskEntry {
            name: String::from("d"),
            node: DiskNode::Dir(vec![DiskEntry {
                name: String::from("e.txt"),
                node: DiskNode::File,
            }]),
        },
    ]);
    let second =
        compare_folders_path(&idx, &mut labels, h("a"), Some(&tree2), "root/a2", "root").unwrap();
    assert!(second.is_empty());
}
