use magic_mount::overlay::{
    mount_overlayfs, overlay_dir_source, overlay_fs_options, OverlayMount, OverlayPlan, MAX_LAYERS,
};

fn strings(items: &[&str]) -> Vec<String> {
    items.iter().map(|s| s.to_string()).collect()
}

fn pairs(items: &[(&str, &str)]) -> Vec<(String, String)> {
    items.iter().map(|(k, v)| (k.to_string(), v.to_string())).collect()
}

fn numbered(count: usize) -> Vec<String> {
    (0..count).map(|i| format!("/data/adb/modules/m{i}/system")).collect()
}

#[test]
fn options_with_upper_and_work_directories() {
    let options = overlay_fs_options(
        &strings(&["/m/system/etc", "/odd:dir", "/system/etc"]),
        &Some("/tmp/u/system/etc".to_string()),
        &Some("/tmp/w/system/etc".to_string()),
        "overlay",
    );
    assert_eq!(
        options,
        pairs(&[
            ("lowerdir", "/m/system/etc:/odd\\:dir:/system/etc"),
            ("upperdir", "/tmp/u/system/etc"),
            ("workdir", "/tmp/w/system/etc"),
            ("source", "overlay"),
        ])
    );
}

#[test]
fn upper_and_work_go_together_or_not_at_all() {
    let only_upper = overlay_fs_options(&strings(&["/system"]), &Some("/u".to_string()), &None, "KSU");
    assert_eq!(only_upper, pairs(&[("lowerdir", "/system"), ("source", "KSU")]));
    let only_work = overlay_fs_options(&strings(&["/system"]), &None, &Some("/w".to_string()), "KSU");
    assert_eq!(only_work, pairs(&[("lowerdir", "/system"), ("source", "KSU")]));
}

#[test]
fn work_directory_takes_the_real_directory_first() {
    let path = "/system/etc".to_string();
    let module = Some("/m/system/etc".to_string());
    assert_eq!(overlay_dir_source(&path, true, &module).unwrap(), "/system/etc");
    assert_eq!(overlay_dir_source(&path, true, &None).unwrap(), "/system/etc");
    assert_eq!(overlay_dir_source(&path, false, &module).unwrap(), "/m/system/etc");
    let e = overlay_dir_source(&path, false, &None).unwrap_err();
    assert_eq!(e.message, "cannot mount root dir /system/etc!");
    assert!(e.context.is_empty());
}

#[test]
fn few_layers_are_mounted_at_once() {
    let mut plan = OverlayPlan::new(&Vec::new(), "/system/etc", Some("/u/etc".to_string()), Some("/w/etc".to_string()), "overlay");
    match mount_overlayfs(&mut plan, 5) {
        OverlayMount::Final { layers, options } => {
            assert_eq!(layers, vec!["/system/etc"]);
            assert_eq!(
                options,
                pairs(&[("lowerdir", "/system/etc"), ("upperdir", "/u/etc"), ("workdir", "/w/etc"), ("source", "overlay")])
            );
        },
        other => panic!("unexpected {:?}", other),
    }
    let lower = numbered(MAX_LAYERS - 1);
    let mut plan = OverlayPlan::new(&lower, "/system", None, None, "overlay");
    match mount_overlayfs(&mut plan, 5) {
        OverlayMount::Final { layers, .. } => {
            assert_eq!(layers.len(), MAX_LAYERS);
            assert_eq!(layers[..MAX_LAYERS - 1], lower[..]);
            assert_eq!(layers[MAX_LAYERS - 1], "/system");
        },
        other => panic!("unexpected {:?}", other),
    }
}

#[test]
fn many_layers_are_staged_from_the_bottom() {
    let lower = numbered(129);
    let mut all = lower.clone();
    all.push("/system".to_string());
    let mut plan = OverlayPlan::new(&lower, "/system", Some("/u".to_string()), Some("/w".to_string()), "KSU");

    let first = mount_overlayfs(&mut plan, 777);
    let first_dir = match first {
        OverlayMount::Staging { layers, dir, options } => {
            assert_eq!(layers.len(), MAX_LAYERS - 1);
            assert_eq!(layers[..], all[67..]);
            assert_eq!(options.len(), 2);
            assert_eq!(options[1], ("source".to_string(), "KSU".to_string()));
            assert_eq!(dir, "/dev/ap_magic_mount/staging_777_67");
            dir
        },
        other => panic!("unexpected {:?}", other),
    };
    let second_dir = match mount_overlayfs(&mut plan, 778) {
        OverlayMount::Staging { layers, dir, .. } => {
            assert_eq!(layers.len(), MAX_LAYERS - 1);
            assert_eq!(layers[..62], all[5..67]);
            assert_eq!(layers[62], first_dir);
            assert_eq!(dir, "/dev/ap_magic_mount/staging_778_5");
            dir
        },
        other => panic!("unexpected {:?}", other),
    };
    match mount_overlayfs(&mut plan, 779) {
        OverlayMount::Final { layers, options } => {
            assert_eq!(options[1], ("upperdir".to_string(), "/u".to_string()));
            assert_eq!(options[3], ("source".to_string(), "KSU".to_string()));
            assert_eq!(layers.len(), 6);
            assert_eq!(layers[..5], all[..5]);
            assert_eq!(layers[5], second_dir);
        },
        other => panic!("unexpected {:?}", other),
    }
}

#[test]
fn staging_directories_of_one_plan_differ() {
    let mut plan = OverlayPlan::new(&numbered(400), "/system", None, None, "overlay");
    let mut dirs: Vec<String> = Vec::new();
    loop {
        match mount_overlayfs(&mut plan, 42) {
            OverlayMount::Staging { layers, dir, .. } => {
                assert!(layers.len() <= MAX_LAYERS);
                assert!(!dirs.contains(&dir));
                dirs.push(dir);
            },
            OverlayMount::Final { layers, .. } => {
                assert!(layers.len() <= MAX_LAYERS);
                break;
            },
        }
    }
    assert_eq!(dirs.len(), 6);
}

#[test]
fn a_whole_plan_stands_for_its_layers() {
    let lower = numbered(400);
    let mut all = lower.clone();
    all.push("/system".to_string());
    let mut plan = OverlayPlan::new(&lower, "/system", Some("/u".to_string()), Some("/w".to_string()), "overlay");
    let mut staged: Vec<(String, Vec<String>)> = Vec::new();
    let mut stamp = 1000;
    let final_layers = loop {
        stamp += 1;
        match mount_overlayfs(&mut plan, stamp) {
            OverlayMount::Staging { layers, dir, options } => {
                assert_eq!(layers.len(), MAX_LAYERS - 1);
                assert!(options.iter().all(|(k, _)| k != "upperdir" && k != "workdir"));
                staged.push((dir, layers));
            },
            OverlayMount::Final { layers, options } => {
                assert!(options.iter().any(|(k, v)| k == "upperdir" && v == "/u"));
                break layers;
            },
        }
    };
    let n = all.len();
    assert_eq!(staged.len(), (n - 3) / 62);
    assert_eq!(final_layers.len(), n - 62 * staged.len());
    let mut expanded = final_layers;
    for (dir, layers) in staged.iter().rev() {
        assert_eq!(expanded.last(), Some(dir));
        expanded.pop();
        expanded.extend(layers.iter().cloned());
    }
    assert_eq!(expanded, all);
}
