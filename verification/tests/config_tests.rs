use arc_diff::config::Config;
use arc_diff::search::FileSet;

fn h(s: &str) -> u64 {
    hash40::Hash40::new(s).0
}

#[test]
fn new_configuration_is_empty() {
    let c = Config::new();
    assert!(c.unshare_blacklist.is_empty());
    assert!(c.preprocess_reshare.is_empty());
    assert!(c.share_to_vanilla.is_empty());
    assert!(c.share_to_added.is_empty());
    assert!(c.new_dir_files.is_empty());
    assert!(c.new_dir_infos.is_empty());
    assert!(c.new_dir_infos_base.is_empty());
}

#[test]
fn merge_concatenates_lists_and_extends_sets() {
    let mut a = Config::new();
    a.unshare_blacklist.push(h("x"));
    a.share_to_vanilla.push((h("k"), FileSet(vec![h("v1")])));
    a.new_dir_infos.push(String::from("fighter/luigi/c08"));

    let mut b = Config::new();
    b.unshare_blacklist.push(h("y"));
    b.share_to_vanilla.push((h("k"), FileSet(vec![h("v2")])));
    b.share_to_vanilla.push((h("k2"), FileSet(vec![h("v3")])));
    b.new_dir_infos.push(String::from("fighter/luigi/c09"));

    a.merge(b);
    assert_eq!(a.unshare_blacklist, vec![h("x"), h("y")]);
    assert_eq!(a.share_to_vanilla.len(), 2);
    assert_eq!(a.share_to_vanilla[0].0, h("k"));
    assert_eq!(a.share_to_vanilla[0].1 .0, vec![h("v1"), h("v2")]);
    assert_eq!(a.share_to_vanilla[1].0, h("k2"));
    assert_eq!(a.share_to_vanilla[1].1 .0, vec![h("v3")]);
    assert_eq!(a.new_dir_infos, vec![
        String::from("fighter/luigi/c08"),
        String::from("fighter/luigi/c09")
    ]);
}

#[test]
fn merge_replaces_scalar_entries() {
    let mut a = Config::new();
    a.preprocess_reshare.push((h("k"), h("old")));
    a.new_dir_infos_base.push((String::from("p"), String::from("old")));

    let mut b = Config::new();
    b.preprocess_reshare.push((h("k"), h("new")));
    b.preprocess_reshare.push((h("k2"), h("other")));
    b.new_dir_infos_base.push((String::from("p"), String::from("new")));

    a.merge(b);
    assert_eq!(a.preprocess_reshare, vec![(h("k"), h("new")), (h("k2"), h("other"))]);
    assert_eq!(a.new_dir_infos_base.len(), 1);
    assert_eq!(a.new_dir_infos_base[0].1, String::from("new"));
}

#[test]
fn merge_extends_dir_file_lists() {
    let mut a = Config::new();
    a.new_dir_files.push((h("pkg"), vec![h("f1")]));
    let mut b = Config::new();
    b.new_dir_files.push((h("pkg"), vec![h("f2")]));
    a.merge(b);
    assert_eq!(a.new_dir_files, vec![(h("pkg"), vec![h("f1"), h("f2")])]);
}

#[test]
fn default_matches_new() {
    let d = Config::default();
    assert!(d.unshare_blacklist.is_empty());
    assert!(d.new_dir_infos_base.is_empty());
}
