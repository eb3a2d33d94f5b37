use skeld::tree::{FSTreeError, VirtualFSEntryType, VirtualFSTree};

fn comps(parts: &[&str]) -> Vec<String> {
    parts.iter().map(|p| p.to_string()).collect()
}

fn flat(tree: &VirtualFSTree<&'static str>) -> Vec<(Vec<String>, VirtualFSEntryType)> {
    tree.flatten()
}

#[test]
fn leaf_exclusivity() {
    let mut t: VirtualFSTree<&'static str> = VirtualFSTree::new();
    assert!(t.add_path(&comps(&["tmp"]), VirtualFSEntryType::Tmpfs, "/tmp").is_ok());
    let r = t.add_path(&comps(&["tmp", "build"]), VirtualFSEntryType::ReadWrite, "/tmp/build");
    assert_eq!(
        r,
        Err(FSTreeError::IllegalChildren { inner_path: "/tmp", invalid_child: "/tmp/build" })
    );
    assert_eq!(flat(&t), vec![(comps(&["tmp"]), VirtualFSEntryType::Tmpfs)]);
}

#[test]
fn conflicting_leaf_kinds() {
    let mut t: VirtualFSTree<&'static str> = VirtualFSTree::new();
    assert!(t.add_path(&comps(&["p"]), VirtualFSEntryType::Symlink, "first").is_ok());
    let r = t.add_path(&comps(&["p"]), VirtualFSEntryType::Tmpfs, "second");
    assert_eq!(r, Err(FSTreeError::ConflictingEntries("first", "second")));
    assert_eq!(flat(&t), vec![(comps(&["p"]), VirtualFSEntryType::Symlink)]);
}

#[test]
fn scenario_flatten_order() {
    let mut t: VirtualFSTree<&'static str> = VirtualFSTree::new();
    assert!(t.add_path(&comps(&[]), VirtualFSEntryType::ReadOnly, "/").is_ok());
    assert!(t.add_path(&comps(&["home", "user"]), VirtualFSEntryType::ReadWrite, "/home/user")
        .is_ok());
    // a symlink beneath the stronger read-write whitelist is redundant and
    // is dropped while descending
    assert!(t
        .add_path(&comps(&["home", "user", ".ssh"]), VirtualFSEntryType::Symlink, "ssh")
        .is_ok());
    assert_eq!(
        flat(&t),
        vec![
            (comps(&[]), VirtualFSEntryType::ReadOnly),
            (comps(&["home", "user"]), VirtualFSEntryType::ReadWrite),
        ]
    );
}

#[test]
fn pruning_weaker_descendant() {
    let mut t: VirtualFSTree<&'static str> = VirtualFSTree::new();
    assert!(t.add_path(&comps(&["a"]), VirtualFSEntryType::ReadWrite, "a").is_ok());
    assert!(t.add_path(&comps(&["a", "b"]), VirtualFSEntryType::ReadOnly, "b").is_ok());
    assert_eq!(flat(&t), vec![(comps(&["a"]), VirtualFSEntryType::ReadWrite)]);
}

#[test]
fn promotion_prunes_child() {
    let mut t: VirtualFSTree<&'static str> = VirtualFSTree::new();
    assert!(t.add_path(&comps(&["a", "b"]), VirtualFSEntryType::ReadOnly, "b").is_ok());
    assert!(t.add_path(&comps(&["a"]), VirtualFSEntryType::ReadWrite, "a").is_ok());
    assert_eq!(flat(&t), vec![(comps(&["a"]), VirtualFSEntryType::ReadWrite)]);
}

#[test]
fn idempotent_insert() {
    let mut t: VirtualFSTree<&'static str> = VirtualFSTree::new();
    assert!(t.add_path(&comps(&["x"]), VirtualFSEntryType::ReadOnly, "x1").is_ok());
    assert!(t.add_path(&comps(&["x"]), VirtualFSEntryType::ReadOnly, "x2").is_ok());
    assert_eq!(flat(&t), vec![(comps(&["x"]), VirtualFSEntryType::ReadOnly)]);
}

#[test]
fn stronger_descendant_kept() {
    let mut t: VirtualFSTree<&'static str> = VirtualFSTree::new();
    assert!(t.add_path(&comps(&["a"]), VirtualFSEntryType::ReadOnly, "a").is_ok());
    assert!(t.add_path(&comps(&["a", "b"]), VirtualFSEntryType::AllowDev, "b").is_ok());
    assert_eq!(
        flat(&t),
        vec![
            (comps(&["a"]), VirtualFSEntryType::ReadOnly),
            (comps(&["a", "b"]), VirtualFSEntryType::AllowDev),
        ]
    );
}

#[test]
fn remove_user_data_keeps_kinds_and_order() {
    let mut t: VirtualFSTree<&'static str> = VirtualFSTree::new();
    assert!(t.add_path(&comps(&["b"]), VirtualFSEntryType::ReadOnly, "b").is_ok());
    assert!(t.add_path(&comps(&["a"]), VirtualFSEntryType::ReadWrite, "a").is_ok());
    assert!(t.add_path(&comps(&["b", "c"]), VirtualFSEntryType::AllowDev, "c").is_ok());
    let before = t.flatten();
    let stripped = t.remove_user_data();
    assert_eq!(stripped.flatten(), before);
    assert_eq!(
        before,
        vec![
            (comps(&["b"]), VirtualFSEntryType::ReadOnly),
            (comps(&["b", "c"]), VirtualFSEntryType::AllowDev),
            (comps(&["a"]), VirtualFSEntryType::ReadWrite),
        ]
    );
}
