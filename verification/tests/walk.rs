use magic_mount::error::MountError;
use magic_mount::node::{FileKind, Node, NodeFileType, RealState};
use magic_mount::visit::{Action, Event, NodeVisit, Op};
use magic_mount::walk::{
    handle_mount_result, process_existing_entries, process_remaining_children, should_create_overlay,
    ChildTask,
};

fn node(name: &str, file_type: NodeFileType, source: Option<&str>, children: Vec<Node>) -> Node {
    Node {
        name: name.to_string(),
        file_type,
        children,
        module_source: source.map(|s| s.to_string()),
        replace: false,
        skip: false,
    }
}

fn file(name: &str, source: Option<&str>) -> Node {
    node(name, NodeFileType::RegularFile, source, Vec::new())
}

fn dir(name: &str, source: Option<&str>, children: Vec<Node>) -> Node {
    node(name, NodeFileType::Directory, source, children)
}

fn observed_as(is_file: bool, is_dir: bool, is_symlink: bool) -> RealState {
    RealState { exists: true, kind: Some(FileKind { is_file, is_dir, is_symlink }) }
}

fn missing() -> RealState {
    RealState { exists: false, kind: None }
}

fn error(message: &str) -> MountError {
    MountError { message: message.to_string(), context: Vec::new() }
}

fn strings(items: &[&str]) -> Vec<String> {
    items.iter().map(|s| s.to_string()).collect()
}

fn finished(action: Action) -> Result<(), MountError> {
    match action {
        Action::Finish(result) => result,
        other => panic!("expected the end of the visit, got {:?}", other),
    }
}

fn visit_names(tasks: &[ChildTask]) -> Vec<String> {
    tasks
        .iter()
        .map(|t| match t {
            ChildTask::Visit(n) => format!("visit {}", n.name),
            ChildTask::Mirror(name) => format!("mirror {}", name),
            ChildTask::Opaque => "opaque".to_string(),
        })
        .collect()
}

#[test]
fn failures_end_the_parent_only_under_an_overlay() {
    assert!(matches!(handle_mount_result(Ok(()), true), Ok(None)));
    assert!(matches!(handle_mount_result(Ok(()), false), Ok(None)));
    match handle_mount_result(Err(error("boom")), true) {
        Err(e) => assert_eq!(e.message, "boom"),
        _ => panic!("the failure must end the parent"),
    }
    match handle_mount_result(Err(error("boom")), false) {
        Ok(Some(e)) => assert_eq!(e.message, "boom"),
        _ => panic!("the failure must only be logged"),
    }
}

#[test]
fn no_overlay_under_an_overlay() {
    let mut current = dir("etc", Some("/m/system/etc"), vec![node("link", NodeFileType::Symlink, Some("/m/l"), Vec::new())]);
    current.replace = true;
    assert!(!should_create_overlay(&mut current, true, &vec![missing()]));
    assert!(!current.children[0].skip);
}

#[test]
fn replaced_module_directory_gets_an_overlay() {
    let mut current = dir("app", Some("/m/system/app"), Vec::new());
    current.replace = true;
    assert!(should_create_overlay(&mut current, false, &vec![]));
    let mut root = dir("app", None, Vec::new());
    root.replace = true;
    assert!(!should_create_overlay(&mut root, false, &vec![]));
}

#[test]
fn a_child_of_another_type_calls_for_an_overlay() {
    let mut current = dir(
        "etc",
        Some("/m/system/etc"),
        vec![file("a", Some("/m/a")), dir("b", Some("/m/b"), Vec::new())],
    );
    assert!(!should_create_overlay(&mut current, false, &vec![observed_as(true, false, false), observed_as(false, true, false)]));
    assert!(should_create_overlay(&mut current, false, &vec![observed_as(true, false, false), observed_as(true, false, false)]));
    assert!(current.children.iter().all(|c| !c.skip));
}

#[test]
fn a_root_directory_skips_children_that_need_an_overlay() {
    let mut current = dir(
        "",
        None,
        vec![
            node("bad", NodeFileType::Symlink, Some("/m/bad"), Vec::new()),
            dir("system", None, Vec::new()),
            file("worse", Some("/m/worse")),
        ],
    );
    let observed = vec![missing(), observed_as(false, true, false), observed_as(false, true, false)];
    assert!(!should_create_overlay(&mut current, false, &observed));
    assert!(current.children[0].skip);
    assert!(!current.children[1].skip);
    assert!(current.children[2].skip);
}

#[test]
fn listed_entries_come_first_then_the_rest() {
    let mut skipped = file("b", Some("/m/b"));
    skipped.skip = true;
    let mut children = vec![file("a", Some("/m/a")), skipped, file("c", Some("/m/c")), file("d", Some("/m/d"))];
    let tasks = process_existing_entries(&mut children, &strings(&["c", "x", "b"]), true);
    assert_eq!(visit_names(&tasks), vec!["visit c", "mirror x"]);
    assert_eq!(children.iter().map(|c| c.name.clone()).collect::<Vec<_>>(), vec!["a", "d"]);
    let rest = process_remaining_children(children);
    assert_eq!(visit_names(&rest), vec!["visit a", "visit d"]);
}

#[test]
fn nothing_is_mirrored_without_an_overlay() {
    let mut children = vec![file("a", Some("/m/a"))];
    let tasks = process_existing_entries(&mut children, &strings(&["x", "a", "y"]), false);
    assert_eq!(visit_names(&tasks), vec!["visit a"]);
    assert!(children.is_empty());
}

#[test]
fn each_unskipped_child_is_visited_once() {
    let mut skipped = file("s", Some("/m/s"));
    skipped.skip = true;
    let children = vec![file("a", Some("/m/a")), skipped, file("b", Some("/m/b")), file("c", Some("/m/c"))];
    let mut left = children;
    let mut tasks = process_existing_entries(&mut left, &strings(&["c", "s", "c", "q"]), true);
    tasks.extend(process_remaining_children(left));
    let mut visited: Vec<String> = tasks
        .iter()
        .filter_map(|t| match t {
            ChildTask::Visit(n) => Some(n.name.clone()),
            _ => None,
        })
        .collect();
    visited.sort();
    assert_eq!(visited, vec!["a", "b", "c"]);
}

#[test]
fn a_module_file_is_bind_mounted_into_the_upper_directory() {
    let mut visit = NodeVisit::new("/system/etc", "/tmp/u/system/etc", "/tmp/w/system/etc", file("hosts", Some("/m/system/etc/hosts")), false);
    assert!(visit.accepts(&Event::Begin));
    assert!(!visit.accepts(&Event::Done));
    match visit.step(Event::Begin) {
        Action::Run(Op::BindFile { source, target }) => {
            assert_eq!(source, "/m/system/etc/hosts");
            assert_eq!(target, "/tmp/u/system/etc/hosts");
        },
        other => panic!("unexpected {:?}", other),
    }
    assert!(finished(visit.step(Event::Done)).is_ok());
    assert!(visit.is_finished());
    assert!(!visit.accepts(&Event::Begin));
}

#[test]
fn a_failed_operation_ends_the_visit() {
    let mut visit = NodeVisit::new("/system", "/u/system", "/w/system", file("hosts", Some("/m/hosts")), false);
    visit.step(Event::Begin);
    let e = finished(visit.step(Event::Failed("Operation not permitted".to_string()))).unwrap_err();
    assert_eq!(e.message, "Operation not permitted");
    assert!(e.context.is_empty());
}

#[test]
fn files_and_symlinks_need_a_module() {
    let mut visit = NodeVisit::new("/system", "/u/system", "/w/system", file("hosts", None), false);
    let e = finished(visit.step(Event::Begin)).unwrap_err();
    assert_eq!(e.message, "cannot mount root file /system/hosts!");

    let link = node("lib", NodeFileType::Symlink, None, Vec::new());
    let mut visit = NodeVisit::new("/system", "/u/system", "/w/system", link, false);
    let e = finished(visit.step(Event::Begin)).unwrap_err();
    assert_eq!(e.message, "cannot mount root symlink /system/lib!");

    let link = node("lib", NodeFileType::Symlink, Some("/m/system/lib"), Vec::new());
    let mut visit = NodeVisit::new("/system", "/u/system", "/w/system", link, false);
    match visit.step(Event::Begin) {
        Action::Run(Op::CloneSymlink { source, target }) => {
            assert_eq!(source, "/m/system/lib");
            assert_eq!(target, "/u/system/lib");
        },
        other => panic!("unexpected {:?}", other),
    }
}

#[test]
fn a_whiteout_is_created_beside_its_name() {
    let gone = node("gone", NodeFileType::Whiteout, Some("/m/system/gone"), Vec::new());
    let mut visit = NodeVisit::new("/system", "/u/system", "/w/system", gone, false);
    match visit.step(Event::Begin) {
        Action::Run(Op::CreateWhiteout { upper, path, name }) => {
            assert_eq!(upper, "/u/system/gone");
            assert_eq!(path, "/system/gone");
            assert_eq!(name, "gone");
        },
        other => panic!("unexpected {:?}", other),
    }
}

#[test]
fn the_root_directory_visits_its_partitions() {
    let system = dir("system", None, vec![file("hosts", Some("/m/system/hosts"))]);
    let root = dir("", None, vec![system]);
    let mut visit = NodeVisit::new("/", "/tmp/ap/upper", "/tmp/ap/work", root, false);
    match visit.step(Event::Begin) {
        Action::Inspect { path } => assert_eq!(path, "/system"),
        other => panic!("unexpected {:?}", other),
    }
    assert!(visit.accepts(&Event::Inspected(missing())));
    assert!(!visit.accepts(&Event::Done));
    match visit.step(Event::Inspected(observed_as(false, true, false))) {
        Action::CheckExists { path } => assert_eq!(path, "/"),
        other => panic!("unexpected {:?}", other),
    }
    match visit.step(Event::Exists(true)) {
        Action::ReadDir { path } => assert_eq!(path, "/"),
        other => panic!("unexpected {:?}", other),
    }
    let child = match visit.step(Event::Listed(strings(&["proc", "system"]))) {
        Action::Visit { node, path, upper, work, has_overlay } => {
            assert_eq!(path, "/");
            assert_eq!(upper, "/tmp/ap/upper/");
            assert_eq!(work, "/tmp/ap/work/");
            assert!(!has_overlay);
            NodeVisit::new(&path, &upper, &work, node, has_overlay)
        },
        other => panic!("unexpected {:?}", other),
    };
    let mut child = child;
    match child.step(Event::Begin) {
        Action::Inspect { path } => assert_eq!(path, "/system/hosts"),
        other => panic!("unexpected {:?}", other),
    }
    assert!(finished(visit.step(Event::ChildDone(Ok(())))).is_ok());
}

#[test]
fn a_directory_with_a_new_symlink_gets_an_overlay() {
    let link = node("link", NodeFileType::Symlink, Some("/m/system/etc/link"), Vec::new());
    let etc = dir("etc", Some("/m/system/etc"), vec![link]);
    let mut visit = NodeVisit::new("/system", "/u/system", "/w/system", etc, false);
    visit.step(Event::Begin);
    match visit.step(Event::Inspected(missing())) {
        Action::Run(Op::PrepareOverlayDir { path, work, module_source }) => {
            assert_eq!(path, "/system/etc");
            assert_eq!(work, "/w/system/etc");
            assert_eq!(module_source.as_deref(), Some("/m/system/etc"));
        },
        other => panic!("unexpected {:?}", other),
    }
    match visit.step(Event::Done) {
        Action::Run(Op::MountOverlay { lowest, upper, work, dest }) => {
            assert_eq!(lowest, "/system/etc");
            assert_eq!(upper, "/u/system/etc");
            assert_eq!(work, "/w/system/etc");
            assert_eq!(dest, "/system/etc");
        },
        other => panic!("unexpected {:?}", other),
    }
    assert!(matches!(visit.step(Event::Done), Action::CheckExists { .. }));
    assert!(matches!(visit.step(Event::Exists(true)), Action::ReadDir { .. }));
    match visit.step(Event::Listed(strings(&["hosts", "link"]))) {
        Action::Run(Op::MountMirror { path, work, name }) => {
            assert_eq!(path, "/system/etc");
            assert_eq!(work, "/w/system/etc");
            assert_eq!(name, "hosts");
        },
        other => panic!("unexpected {:?}", other),
    }
    match visit.step(Event::Done) {
        Action::Visit { node, has_overlay, .. } => {
            assert_eq!(node.name, "link");
            assert!(has_overlay);
        },
        other => panic!("unexpected {:?}", other),
    }
    assert!(finished(visit.step(Event::ChildDone(Ok(())))).is_ok());
}

#[test]
fn a_failed_mirror_ends_an_overlaid_directory() {
    let link = node("link", NodeFileType::Symlink, Some("/m/system/etc/link"), Vec::new());
    let etc = dir("etc", Some("/m/system/etc"), vec![link]);
    let mut visit = NodeVisit::new("/system", "/u/system", "/w/system", etc, false);
    visit.step(Event::Begin);
    visit.step(Event::Inspected(missing()));
    visit.step(Event::Done);
    visit.step(Event::Done);
    visit.step(Event::Exists(true));
    visit.step(Event::Listed(strings(&["hosts", "link"])));
    let e = finished(visit.step(Event::Failed("No space left on device".to_string()))).unwrap_err();
    assert_eq!(e.message, "No space left on device");
    assert_eq!(e.context, vec!["mount mirror /system/etc/hosts"]);
}

#[test]
fn a_failed_child_under_an_overlay_ends_the_directory() {
    let link = node("link", NodeFileType::Symlink, Some("/m/system/etc/link"), Vec::new());
    let etc = dir("etc", Some("/m/system/etc"), vec![link]);
    let mut visit = NodeVisit::new("/system", "/u/system", "/w/system", etc, false);
    visit.step(Event::Begin);
    visit.step(Event::Inspected(missing()));
    visit.step(Event::Done);
    visit.step(Event::Done);
    assert!(matches!(visit.step(Event::Exists(false)), Action::Visit { .. }));
    let inner = MountError { message: "EIO".to_string(), context: vec!["inner".to_string()] };
    let e = finished(visit.step(Event::ChildDone(Err(inner)))).unwrap_err();
    assert_eq!(e.message, "EIO");
    assert_eq!(e.context, vec!["inner", "overlay mount /system/etc/link"]);
}

#[test]
fn a_failed_child_without_an_overlay_is_logged() {
    let root = dir("", None, vec![dir("a", None, Vec::new()), dir("b", None, Vec::new())]);
    let mut visit = NodeVisit::new("/", "/u", "/w", root, false);
    match visit.step(Event::Begin) {
        Action::Inspect { path } => assert_eq!(path, "/a"),
        other => panic!("unexpected {:?}", other),
    }
    match visit.step(Event::Inspected(observed_as(false, true, false))) {
        Action::Inspect { path } => assert_eq!(path, "/b"),
        other => panic!("unexpected {:?}", other),
    }
    visit.step(Event::Inspected(observed_as(false, true, false)));
    match visit.step(Event::Exists(false)) {
        Action::Visit { node, .. } => assert_eq!(node.name, "a"),
        other => panic!("unexpected {:?}", other),
    }
    match visit.step(Event::ChildDone(Err(error("EACCES")))) {
        Action::Log { path, name, error } => {
            assert_eq!(path, "/");
            assert_eq!(name, "a");
            assert_eq!(error.message, "EACCES");
            assert_eq!(error.context, vec!["overlay mount //a"]);
        },
        other => panic!("unexpected {:?}", other),
    }
    match visit.step(Event::Ack) {
        Action::Visit { node, .. } => assert_eq!(node.name, "b"),
        other => panic!("unexpected {:?}", other),
    }
    assert!(finished(visit.step(Event::ChildDone(Ok(())))).is_ok());
}

#[test]
fn a_replaced_directory_is_made_opaque_first() {
    let mut app = dir("app", Some("/m/system/app"), vec![file("base.apk", Some("/m/system/app/base.apk"))]);
    app.replace = true;
    let mut visit = NodeVisit::new("/system", "/u/system", "/w/system", app, false);
    assert!(matches!(visit.step(Event::Begin), Action::Run(Op::PrepareOverlayDir { .. })));
    assert!(matches!(visit.step(Event::Done), Action::Run(Op::MountOverlay { .. })));
    match visit.step(Event::Done) {
        Action::Run(Op::SetOpaque { dir }) => assert_eq!(dir, "/u/system/app"),
        other => panic!("unexpected {:?}", other),
    }
    match visit.step(Event::Done) {
        Action::Visit { node, .. } => assert_eq!(node.name, "base.apk"),
        other => panic!("unexpected {:?}", other),
    }
    assert!(finished(visit.step(Event::ChildDone(Ok(())))).is_ok());
}

#[test]
fn a_replaced_root_directory_is_an_error() {
    let mut x = dir("x", None, Vec::new());
    x.replace = true;
    let mut visit = NodeVisit::new("/", "/u", "/w", x, false);
    let e = finished(visit.step(Event::Begin)).unwrap_err();
    assert_eq!(e.message, "dir /x is declared as replaced but it is root!");
}

#[test]
fn a_skipped_child_is_never_visited() {
    let bad = node("bad", NodeFileType::Symlink, Some("/m/bad"), Vec::new());
    let root = dir("", None, vec![bad]);
    let mut visit = NodeVisit::new("/", "/u", "/w", root, false);
    visit.step(Event::Begin);
    assert!(matches!(visit.step(Event::Inspected(missing())), Action::CheckExists { .. }));
    assert!(matches!(visit.step(Event::Exists(true)), Action::ReadDir { .. }));
    assert!(finished(visit.step(Event::Listed(strings(&["bad"])))).is_ok());
}

#[test]
fn a_failed_listing_or_preparation_ends_the_visit() {
    let root = dir("", None, vec![dir("a", None, Vec::new())]);
    let mut visit = NodeVisit::new("/", "/u", "/w", root, false);
    visit.step(Event::Begin);
    visit.step(Event::Inspected(observed_as(false, true, false)));
    visit.step(Event::Exists(true));
    assert!(visit.accepts(&Event::Failed(String::new())));
    let e = finished(visit.step(Event::Failed("Permission denied".to_string()))).unwrap_err();
    assert_eq!(e.message, "Permission denied");

    let etc = dir("etc", Some("/m/etc"), vec![node("l", NodeFileType::Symlink, Some("/m/etc/l"), Vec::new())]);
    let mut visit = NodeVisit::new("/system", "/u", "/w", etc, false);
    visit.step(Event::Begin);
    visit.step(Event::Inspected(missing()));
    let e = finished(visit.step(Event::Failed("cannot mount root dir /system/etc!".to_string()))).unwrap_err();
    assert_eq!(e.message, "cannot mount root dir /system/etc!");
}

/// Answers every action of a visit as a system where every path exists as
/// the directory listing `names`, and every operation succeeds; counts the
/// steps of the visit and of the child visits it starts.
fn drive(mut visit: NodeVisit, names: &[&str], steps: &mut usize) -> Result<(), MountError> {
    let mut event = Event::Begin;
    loop {
        assert!(visit.accepts(&event));
        *steps += 1;
        event = match visit.step(event) {
            Action::Inspect { .. } => Event::Inspected(observed_as(false, true, false)),
            Action::Run(_) => Event::Done,
            Action::CheckExists { .. } => Event::Exists(true),
            Action::ReadDir { .. } => Event::Listed(strings(names)),
            Action::Visit { node, path, upper, work, has_overlay } => {
                Event::ChildDone(drive(NodeVisit::new(&path, &upper, &work, node, has_overlay), names, steps))
            },
            Action::Log { .. } => Event::Ack,
            Action::Finish(result) => return result,
        };
    }
}

#[test]
fn every_visit_comes_to_an_end() {
    let leaves: Vec<Node> = ["a", "b", "c", "d"].iter().map(|n| file(n, Some("/m/f"))).collect();
    let inner = dir("etc", Some("/m/etc"), leaves);
    let mut links: Vec<Node> = ["x", "y"].iter().map(|n| node(n, NodeFileType::Symlink, Some("/m/l"), Vec::new())).collect();
    links.push(inner);
    let root = dir("", None, vec![dir("system", Some("/m/system"), links)]);
    let mut steps = 0;
    let result = drive(NodeVisit::new("/", "/u", "/w", root, false), &["a", "x", "q", "etc"], &mut steps);
    assert!(result.is_ok());
    assert!(steps < 100, "{steps} steps");
}

#[test]
fn a_directory_under_an_overlay_looks_at_nothing() {
    let etc = dir("etc", Some("/m/system/etc"), vec![file("hosts", Some("/m/system/etc/hosts"))]);
    let mut visit = NodeVisit::new("/system", "/u/system", "/w/system", etc, true);
    match visit.step(Event::Begin) {
        Action::Run(Op::PrepareOverlayDir { path, .. }) => assert_eq!(path, "/system/etc"),
        other => panic!("unexpected {:?}", other),
    }
    assert!(matches!(visit.step(Event::Done), Action::CheckExists { .. }));
}

#[test]
fn a_module_directory_stops_looking_at_the_first_child_needing_an_overlay() {
    let children = vec![
        file("a", Some("/m/a")),
        node("b", NodeFileType::Symlink, Some("/m/b"), Vec::new()),
        file("c", Some("/m/c")),
    ];
    let mut visit = NodeVisit::new("/system", "/u/system", "/w/system", dir("etc", Some("/m/etc"), children), false);
    match visit.step(Event::Begin) {
        Action::Inspect { path } => assert_eq!(path, "/system/etc/a"),
        other => panic!("unexpected {:?}", other),
    }
    match visit.step(Event::Inspected(observed_as(true, false, false))) {
        Action::Inspect { path } => assert_eq!(path, "/system/etc/b"),
        other => panic!("unexpected {:?}", other),
    }
    assert!(matches!(visit.step(Event::Inspected(missing())), Action::Run(Op::PrepareOverlayDir { .. })));
}

#[test]
fn a_root_directory_looks_at_every_child() {
    let children = vec![
        node("a", NodeFileType::Symlink, Some("/m/a"), Vec::new()),
        file("b", Some("/m/b")),
    ];
    let mut visit = NodeVisit::new("/", "/u", "/w", dir("", None, children), false);
    assert!(matches!(visit.step(Event::Begin), Action::Inspect { .. }));
    match visit.step(Event::Inspected(missing())) {
        Action::Inspect { path } => assert_eq!(path, "/b"),
        other => panic!("unexpected {:?}", other),
    }
    assert!(matches!(visit.step(Event::Inspected(observed_as(true, false, false))), Action::CheckExists { .. }));
    match visit.step(Event::Exists(false)) {
        Action::Visit { node, .. } => assert_eq!(node.name, "b"),
        other => panic!("unexpected {:?}", other),
    }
    assert!(finished(visit.step(Event::ChildDone(Ok(())))).is_ok());
}
