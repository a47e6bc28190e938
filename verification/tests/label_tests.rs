use arc_diff::generate::get_direct_child;
use arc_diff::index::{FolderEntry, PathEntry, SearchIndex, INVALID};
use arc_diff::labels::fill_label_map_from_search;

fn h(s: &str) -> u64 {
    hash40::Hash40::new(s).0
}

fn hh(s: &str) -> hash40::Hash40 {
    hash40::Hash40::new(s)
}

fn sample_index() -> SearchIndex {
    let paths = vec![
        PathEntry {
            path: h("a"),
            parent: h("/"),
            file_name: h("a"),
            ext: 0,
            next: INVALID,
            is_directory: true,
        },
        PathEntry {
            path: h("a/b"),
            parent: h("a"),
            file_name: h("b"),
            ext: 0,
            next: 2,
            is_directory: true,
        },
        PathEntry {
            path: h("a/b/c.txt"),
            parent: h("a/b"),
            file_name: h("c.txt"),
            ext: h("txt"),
            next: INVALID,
            is_directory: false,
        },
        PathEntry {
            path: h("a/d"),
            parent: h("a"),
            file_name: h("d"),
            ext: 0,
            next: INVALID,
            is_directory: true,
        },
        PathEntry {
            path: h("a/d/e.txt"),
            parent: h("a/d"),
            file_name: h("e.txt"),
            ext: h("txt"),
            next: INVALID,
            is_directory: false,
        },
    ];
    let links = vec![0usize, 1, 3, 2, 4];
    let folders = vec![
        FolderEntry { path: h("/"), first_child: 0 },
        FolderEntry { path: h("a"), first_child: 1 },
        FolderEntry { path: h("a/b"), first_child: 3 },
        FolderEntry { path: h("a/d"), first_child: 4 },
    ];
    SearchIndex { paths, links, folders }
}

#[test]
fn known_full_label_spreads_to_its_components() {
    let idx = sample_index();
    let mut labels = hash40::label_map::LabelMap::default();
    labels.add_labels(vec![String::from("a/b/c.txt")]);
    fill_label_map_from_search(&idx, &mut labels).unwrap();
    // intermediate directory labels become independently resolvable
    assert_eq!(labels.label_of(hh("a")), Some(String::from("a")));
    assert_eq!(labels.label_of(hh("b")), Some(String::from("b")));
    assert_eq!(labels.label_of(hh("c.txt")), Some(String::from("c.txt")));
}

#[test]
fn missing_label_is_built_from_parent_and_name() {
    let idx = sample_index();
    let mut labels = hash40::label_map::LabelMap::default();
    // the file's own name and its parent's full path are known; the
    // full path label is not
    labels.add_custom_labels(
        vec![(hh("e.txt"), String::from("e.txt")), (hh("a/d"), String::from("a/d"))].into_iter(),
    );
    fill_label_map_from_search(&idx, &mut labels).unwrap();
    assert_eq!(labels.label_of(hh("a/d/e.txt")), Some(String::from("a/d/e.txt")));
    // the built label's components are registered along with it
    assert_eq!(labels.label_of(hh("a")), Some(String::from("a")));
    assert_eq!(labels.label_of(hh("d")), Some(String::from("d")));
}

#[test]
fn unresolvable_entries_are_left_alone() {
    let idx = sample_index();
    let mut labels = hash40::label_map::LabelMap::default();
    fill_label_map_from_search(&idx, &mut labels).unwrap();
    assert_eq!(labels.label_of(hh("a/b/c.txt")), None);
}

#[test]
fn second_reconstruction_adds_no_labels() {
    // every file either has a stored full label (whose components the
    // pass registers) or cannot be resolved: a second pass repeats the
    // same registrations and changes nothing
    let idx = sample_index();
    let mut labels = hash40::label_map::LabelMap::default();
    labels.add_labels(vec![String::from("a/b/c.txt")]);
    fill_label_map_from_search(&idx, &mut labels).unwrap();
    let after_first = labels.map.len();
    let known: Vec<Option<String>> =
        vec![labels.label_of(hh("a")), labels.label_of(hh("b")), labels.label_of(hh("c.txt"))];
    fill_label_map_from_search(&idx, &mut labels).unwrap();
    assert_eq!(labels.map.len(), after_first);
    assert_eq!(
        vec![labels.label_of(hh("a")), labels.label_of(hh("b")), labels.label_of(hh("c.txt"))],
        known
    );
}

#[test]
fn reconstruction_with_built_labels_is_a_fixed_point() {
    // a label built from parent and name is registered together with
    // its components, so a second pass finds everything in place and
    // changes nothing
    let idx = sample_index();
    let mut labels = hash40::label_map::LabelMap::default();
    labels.add_custom_labels(
        vec![(hh("e.txt"), String::from("e.txt")), (hh("a/d"), String::from("a/d"))].into_iter(),
    );
    fill_label_map_from_search(&idx, &mut labels).unwrap();
    assert_eq!(labels.label_of(hh("a/d/e.txt")), Some(String::from("a/d/e.txt")));
    assert_eq!(labels.label_of(hh("d")), Some(String::from("d")));
    let after_first = labels.map.len();
    fill_label_map_from_search(&idx, &mut labels).unwrap();
    assert_eq!(labels.map.len(), after_first);
    assert_eq!(labels.label_of(hh("a/d/e.txt")), Some(String::from("a/d/e.txt")));
}

#[test]
fn direct_child_lookup_stops_at_the_first_match() {
    // the scan never inspects the chain beyond a match, but a break
    // reached before any match is fatal
    let mut idx = sample_index();
    idx.links[2] = INVALID;
    let found = get_direct_child(&idx, 0, h("b")).unwrap();
    assert_eq!(found, Some(1));
    let err = get_direct_child(&idx, 0, h("z")).unwrap_err();
    assert_eq!(err, arc_diff::generate::GenerateError::InvalidPathIndex);
}

#[test]
fn direct_child_lookup_finds_only_existing_names() {
    let idx = sample_index();
    // row 0 is the folder `a`
    let found = get_direct_child(&idx, 0, h("b")).unwrap();
    assert_eq!(found, Some(1));
    let absent = get_direct_child(&idx, 0, h("z")).unwrap();
    assert_eq!(absent, None);
    // row 2 is a file: not a folder
    let err = get_direct_child(&idx, 2, h("b")).unwrap_err();
    assert_eq!(err, arc_diff::generate::GenerateError::InvalidFolder);
}
