use arc_diff::hashing::{hash_str, join_hashes, split_components};
use arc_diff::{path_to_hash, try_path_to_hash};

fn h(s: &str) -> u64 {
    hash40::Hash40::new(s).0
}

#[test]
fn path_hash_matches_whole_string_hash() {
    // chaining component hashes with the separator reproduces the
    // hash of the whole path
    assert_eq!(path_to_hash("fighter/mario/model/body/c00/model.numdlb"),
        h("fighter/mario/model/body/c00/model.numdlb"));
    assert_eq!(path_to_hash("a"), h("a"));
    assert_eq!(path_to_hash("a/b/c.txt"), h("a/b/c.txt"));
}

#[test]
fn path_hash_ignores_repeated_separators() {
    assert_eq!(path_to_hash("a//b/"), h("a/b"));
    assert_eq!(path_to_hash("/a/b"), h("a/b"));
}

#[test]
fn literal_hex_component_is_read_back() {
    // a component written as a literal hex hash stands for that value
    let mario = hash40::Hash40::new("mario");
    let expected = hash40::Hash40::new("fighter").join_path(mario).join_path(
        hash40::Hash40::new("body"),
    );
    let path = format!("fighter/0x{:x}/body", mario.0);
    assert_eq!(path_to_hash(&path), expected.0);
}

#[test]
fn literal_hex_component_with_extension_keeps_only_the_hash() {
    // the hash before the extension separator already encodes the
    // extension, so only it contributes
    let model = hash40::Hash40::new("model.numdlb");
    let expected = hash40::Hash40::new("fighter").join_path(model);
    let path = format!("fighter/0x{:x}.numdlb", model.0);
    assert_eq!(path_to_hash(&path), expected.0);
}

#[test]
fn first_hex_component_stands_alone() {
    let a = hash40::Hash40::new("a");
    let path = format!("0x{:x}/b", a.0);
    assert_eq!(path_to_hash(&path), h("a/b"));
}

#[test]
fn hash_wrappers_agree_with_the_algorithm() {
    // the digest wrapper must hand back the real digest, and the join
    // wrapper the real chaining, not their inputs
    assert_eq!(hash_str("mario"), hash40::Hash40::new("mario").0);
    assert_ne!(hash_str("mario"), 0);
    let joined = join_hashes(h("a"), h("b"));
    assert_eq!(joined, h("a/b"));
    assert_ne!(joined, h("a"));
    assert_ne!(joined, h("b"));
}

#[test]
fn malformed_hex_components_are_reported() {
    assert!(try_path_to_hash("a/0xZZ.txt").is_none());
    assert!(try_path_to_hash("0x").is_none());
    assert!(try_path_to_hash("a/0x12345678901234567").is_none());
    assert_eq!(try_path_to_hash("a/b"), Some(h("a/b")));
    let mario = hash40::Hash40::new("mario");
    let path = format!("fighter/0x{:x}", mario.0);
    assert_eq!(try_path_to_hash(&path), Some(h("fighter/mario")));
}

#[test]
fn split_drops_empty_pieces() {
    let parts = split_components("a//b/c/");
    let views: Vec<&str> = parts.iter().map(|s| s.as_str()).collect();
    assert_eq!(views, vec!["a", "b", "c"]);
    assert!(split_components("").is_empty());
    assert!(split_components("///").is_empty());
}
