use magic_mount::node::{
    descends_into, dir_is_replace, EntryMeta, FileKind, Listing, Node, NodeFileType, RealState,
    ScannedEntry,
};

fn kind(is_file: bool, is_dir: bool, is_symlink: bool) -> FileKind {
    FileKind { is_file, is_dir, is_symlink }
}

fn file_kind() -> FileKind {
    kind(true, false, false)
}

fn dir_kind() -> FileKind {
    kind(false, true, false)
}

fn link_kind() -> FileKind {
    kind(false, false, true)
}

fn meta(kind: FileKind) -> Option<EntryMeta> {
    Some(EntryMeta { kind, is_char_device: false, rdev: 0 })
}

fn entry(name: &str, path: &str, meta: Option<EntryMeta>, contents: Listing) -> ScannedEntry {
    ScannedEntry {
        name: name.to_string(),
        path: path.to_string(),
        meta,
        replace_xattr: None,
        replace_marker: false,
        contents,
    }
}

fn file_entry(name: &str, path: &str) -> ScannedEntry {
    entry(name, path, meta(file_kind()), Listing::Unreadable("Not a directory (os error 20)".to_string()))
}

fn dir_entry(name: &str, path: &str, entries: Vec<ScannedEntry>) -> ScannedEntry {
    entry(name, path, meta(dir_kind()), Listing::Entries(entries))
}

fn names(node: &Node) -> Vec<String> {
    node.children.iter().map(|c| c.name.clone()).collect()
}

#[test]
fn file_type_follows_file_dir_symlink_order() {
    assert_eq!(NodeFileType::from_file_type(file_kind()), NodeFileType::RegularFile);
    assert_eq!(NodeFileType::from_file_type(dir_kind()), NodeFileType::Directory);
    assert_eq!(NodeFileType::from_file_type(link_kind()), NodeFileType::Symlink);
    assert_eq!(NodeFileType::from_file_type(kind(false, false, false)), NodeFileType::Whiteout);
    assert_eq!(NodeFileType::from_file_type(kind(true, true, true)), NodeFileType::RegularFile);
    assert_eq!(NodeFileType::from_file_type(kind(false, true, true)), NodeFileType::Directory);
}

#[test]
fn symlinks_and_whiteouts_against_real_files() {
    let missing = RealState { exists: false, kind: None };
    let real_file = RealState { exists: true, kind: Some(file_kind()) };
    assert!(NodeFileType::Symlink.needs_overlay_vs_real(&missing));
    assert!(NodeFileType::Symlink.needs_overlay_vs_real(&real_file));
    assert!(NodeFileType::Whiteout.needs_overlay_vs_real(&real_file));
    assert!(!NodeFileType::Whiteout.needs_overlay_vs_real(&missing));
}

#[test]
fn files_and_directories_against_real_files() {
    let unreadable = RealState { exists: false, kind: None };
    let real_file = RealState { exists: true, kind: Some(file_kind()) };
    let real_dir = RealState { exists: true, kind: Some(dir_kind()) };
    let real_link = RealState { exists: true, kind: Some(link_kind()) };
    let dangling_link = RealState { exists: false, kind: Some(link_kind()) };
    assert!(!NodeFileType::RegularFile.needs_overlay_vs_real(&real_file));
    assert!(NodeFileType::RegularFile.needs_overlay_vs_real(&real_dir));
    assert!(NodeFileType::RegularFile.needs_overlay_vs_real(&real_link));
    assert!(NodeFileType::RegularFile.needs_overlay_vs_real(&unreadable));
    assert!(!NodeFileType::Directory.needs_overlay_vs_real(&real_dir));
    assert!(NodeFileType::Directory.needs_overlay_vs_real(&real_file));
    assert!(NodeFileType::Directory.needs_overlay_vs_real(&dangling_link));
}

#[test]
fn replace_by_attribute_or_marker() {
    assert!(dir_is_replace(&Some(b"y".to_vec()), false));
    assert!(!dir_is_replace(&Some(b"yes".to_vec()), false));
    assert!(!dir_is_replace(&Some(b"n".to_vec()), false));
    assert!(!dir_is_replace(&Some(Vec::new()), false));
    assert!(dir_is_replace(&Some(b"n".to_vec()), true));
    assert!(dir_is_replace(&None, true));
    assert!(!dir_is_replace(&None, false));
}

#[test]
fn new_root_is_an_empty_directory() {
    let root = Node::new_root("system");
    assert_eq!(root.name, "system");
    assert_eq!(root.file_type, NodeFileType::Directory);
    assert!(root.children.is_empty());
    assert!(root.module_source.is_none());
    assert!(!root.replace);
    assert!(!root.skip);
}

#[test]
fn new_module_reads_the_entry() {
    let unreadable = entry("x", "/m/x", None, Listing::Entries(Vec::new()));
    assert!(Node::new_module(&unreadable).is_none());

    let whiteout = entry(
        "gone",
        "/m/system/gone",
        Some(EntryMeta { kind: kind(false, false, false), is_char_device: true, rdev: 0 }),
        Listing::Entries(Vec::new()),
    );
    let node = Node::new_module(&whiteout).unwrap();
    assert_eq!(node.file_type, NodeFileType::Whiteout);
    assert_eq!(node.module_source.as_deref(), Some("/m/system/gone"));

    let device = entry(
        "tty",
        "/m/system/tty",
        Some(EntryMeta { kind: kind(false, false, false), is_char_device: true, rdev: 5 }),
        Listing::Entries(Vec::new()),
    );
    assert_eq!(Node::new_module(&device).unwrap().file_type, NodeFileType::Whiteout);

    let device_file = entry(
        "odd",
        "/m/system/odd",
        Some(EntryMeta { kind: file_kind(), is_char_device: true, rdev: 3 }),
        Listing::Entries(Vec::new()),
    );
    assert_eq!(Node::new_module(&device_file).unwrap().file_type, NodeFileType::RegularFile);
}

#[test]
fn new_module_marks_only_directories_replaced() {
    let mut dir = dir_entry("app", "/m/system/app", Vec::new());
    dir.replace_xattr = Some(b"y".to_vec());
    let node = Node::new_module(&dir).unwrap();
    assert!(node.replace);
    assert_eq!(node.name, "app");

    let mut file = file_entry("hosts", "/m/system/etc/hosts");
    file.replace_marker = true;
    file.replace_xattr = Some(b"y".to_vec());
    assert!(!Node::new_module(&file).unwrap().replace);
}

#[test]
fn unreadable_listing_is_an_error() {
    let mut root = Node::new_root("system");
    let result = root.collect_module_files(&Listing::Unreadable("Permission denied".to_string()));
    let error = result.unwrap_err();
    assert_eq!(error.message, "Permission denied");
    assert!(error.context.is_empty());
}

#[test]
fn collect_keeps_children_sorted_at_every_level() {
    let mut root = Node::new_root("system");
    let listing = Listing::Entries(vec![
        file_entry("zeta", "/m/system/zeta"),
        dir_entry(
            "etc",
            "/m/system/etc",
            vec![file_entry("hosts", "/m/system/etc/hosts"), file_entry("fonts.xml", "/m/system/etc/fonts.xml")],
        ),
        file_entry("bin", "/m/system/bin"),
    ]);
    assert!(root.collect_module_files(&listing).unwrap());
    assert_eq!(names(&root), vec!["bin", "etc", "zeta"]);
    assert_eq!(names(&root.children[1]), vec!["fonts.xml", "hosts"]);
    assert_eq!(root.children[1].children[1].module_source.as_deref(), Some("/m/system/etc/hosts"));
}

#[test]
fn empty_directories_bring_no_files() {
    let mut root = Node::new_root("system");
    let listing = Listing::Entries(vec![dir_entry("empty", "/m/system/empty", Vec::new())]);
    assert!(!root.collect_module_files(&listing).unwrap());
    assert_eq!(names(&root), vec!["empty"]);

    let mut replaced = dir_entry("app", "/m/system/app", Vec::new());
    replaced.replace_marker = true;
    let mut root = Node::new_root("system");
    assert!(root.collect_module_files(&Listing::Entries(vec![replaced])).unwrap());
}

#[test]
fn entries_without_metadata_are_ignored() {
    let mut root = Node::new_root("system");
    let listing = Listing::Entries(vec![entry("x", "/m/system/x", None, Listing::Entries(Vec::new()))]);
    assert!(!root.collect_module_files(&listing).unwrap());
    assert!(root.children.is_empty());
}

#[test]
fn first_module_file_wins() {
    let mut root = Node::new_root("system");
    let first = Listing::Entries(vec![file_entry("hosts", "/m1/system/hosts")]);
    let second = Listing::Entries(vec![dir_entry("hosts", "/m2/system/hosts", vec![file_entry("a", "/m2/system/hosts/a")])]);
    assert!(root.collect_module_files(&first).unwrap());
    assert!(root.collect_module_files(&second).unwrap());
    assert_eq!(root.children.len(), 1);
    assert_eq!(root.children[0].file_type, NodeFileType::RegularFile);
    assert_eq!(root.children[0].module_source.as_deref(), Some("/m1/system/hosts"));
}

#[test]
fn later_modules_merge_into_directories() {
    let mut root = Node::new_root("system");
    let first = Listing::Entries(vec![dir_entry("etc", "/m1/system/etc", vec![file_entry("b", "/m1/system/etc/b")])]);
    let second = Listing::Entries(vec![dir_entry("etc", "/m2/system/etc", vec![file_entry("a", "/m2/system/etc/a")])]);
    assert!(root.collect_module_files(&first).unwrap());
    assert!(root.collect_module_files(&second).unwrap());
    let etc = &root.children[0];
    assert_eq!(etc.module_source.as_deref(), Some("/m1/system/etc"));
    assert_eq!(names(etc), vec!["a", "b"]);
    assert_eq!(etc.children[0].module_source.as_deref(), Some("/m2/system/etc/a"));
}

#[test]
fn merging_a_file_into_a_directory_fails() {
    let mut root = Node::new_root("system");
    let first = Listing::Entries(vec![dir_entry("etc", "/m1/system/etc", Vec::new())]);
    let second = Listing::Entries(vec![file_entry("etc", "/m2/system/etc")]);
    assert!(!root.collect_module_files(&first).unwrap());
    let error = root.collect_module_files(&second).unwrap_err();
    assert_eq!(error.message, "Not a directory (os error 20)");
    assert_eq!(names(&root), vec!["etc"]);
    assert_eq!(root.children[0].module_source.as_deref(), Some("/m1/system/etc"));
}

#[test]
fn a_new_directory_stays_when_its_listing_fails() {
    let mut root = Node::new_root("system");
    let bad = entry("etc", "/m/system/etc", meta(dir_kind()), Listing::Unreadable("Permission denied".to_string()));
    let listing = Listing::Entries(vec![file_entry("a", "/m/system/a"), bad, file_entry("z", "/m/system/z")]);
    let error = root.collect_module_files(&listing).unwrap_err();
    assert_eq!(error.message, "Permission denied");
    assert_eq!(names(&root), vec!["a", "etc"]);
    assert_eq!(root.children[1].file_type, NodeFileType::Directory);
    assert!(root.children[1].children.is_empty());
}

#[test]
fn an_unreadable_listing_leaves_the_node_as_it_was() {
    let mut root = Node::new_root("system");
    root.collect_module_files(&Listing::Entries(vec![file_entry("a", "/m/system/a")])).unwrap();
    assert!(root.collect_module_files(&Listing::Unreadable("EIO".to_string())).is_err());
    assert_eq!(names(&root), vec!["a"]);
    assert_eq!(root.name, "system");
    assert!(root.module_source.is_none());
}

#[test]
fn descent_follows_the_existing_node_first() {
    let dir_node = Node::new_root("etc");
    let mut file_node = Node::new_root("hosts");
    file_node.file_type = NodeFileType::RegularFile;
    assert!(descends_into(Some(&dir_node), &meta(file_kind())));
    assert!(!descends_into(Some(&file_node), &meta(dir_kind())));
    assert!(descends_into(None, &meta(dir_kind())));
    assert!(!descends_into(None, &meta(link_kind())));
    assert!(!descends_into(None, &None));
}

#[test]
fn children_are_found_by_name() {
    let mut root = Node::new_root("system");
    let listing = Listing::Entries(vec![file_entry("b", "/m/b"), file_entry("a", "/m/a")]);
    root.collect_module_files(&listing).unwrap();
    assert_eq!(root.find_child(&"b".to_string()), Some(1));
    assert_eq!(root.find_child(&"c".to_string()), None);
    assert_eq!(root.child(&"a".to_string()).unwrap().module_source.as_deref(), Some("/m/a"));
    assert!(root.child(&"c".to_string()).is_none());
    assert_eq!(root.sorted_position(&"aa".to_string()), 1);
    assert_eq!(root.sorted_position(&"c".to_string()), 2);
}
