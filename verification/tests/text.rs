use magic_mount::text::{decimal_text, escape_mount_option_value, join_path, lowerdir_option, name_less};

/// Reads a `lowerdir` option back into its layers, as overlayfs does.
fn split_layers(option: &str) -> Vec<String> {
    let mut layers = vec![String::new()];
    let mut chars = option.chars();
    while let Some(c) = chars.next() {
        if c == '\\' {
            if let Some(next) = chars.next() {
                layers.last_mut().unwrap().push(next);
            } else {
                layers.last_mut().unwrap().push(c);
            }
        } else if c == ':' {
            layers.push(String::new());
        } else {
            layers.last_mut().unwrap().push(c);
        }
    }
    layers
}

#[test]
fn escape_leaves_plain_paths_alone() {
    assert_eq!(escape_mount_option_value(""), "");
    assert_eq!(
        escape_mount_option_value("/data/adb/modules/demo/system"),
        "/data/adb/modules/demo/system"
    );
}

#[test]
fn escape_puts_a_backslash_before_each_special_character() {
    assert_eq!(escape_mount_option_value("a,b:c\\d"), "a\\,b\\:c\\\\d");
    assert_eq!(escape_mount_option_value(",,"), "\\,\\,");
    assert_eq!(escape_mount_option_value("é:ü"), "é\\:ü");
}

#[test]
fn lowerdir_joins_escaped_layers_with_colons() {
    assert_eq!(lowerdir_option(&vec![]), "");
    assert_eq!(lowerdir_option(&vec!["/system".to_string()]), "/system");
    assert_eq!(
        lowerdir_option(&vec![
            "/data/adb/modules/a/system".to_string(),
            "/odd:dir,x".to_string(),
            "/system".to_string(),
        ]),
        "/data/adb/modules/a/system:/odd\\:dir\\,x:/system"
    );
}

#[test]
fn lowerdir_reads_back_to_its_layers() {
    let layers = vec![
        "/a:b".to_string(),
        "".to_string(),
        "c\\".to_string(),
        "d,e".to_string(),
        ":".to_string(),
    ];
    assert_eq!(split_layers(&lowerdir_option(&layers)), layers);
}

#[test]
fn join_path_puts_one_slash_between() {
    assert_eq!(join_path("/", "system"), "/system");
    assert_eq!(join_path("/system", "bin"), "/system/bin");
    assert_eq!(join_path("/tmp/upper/", "etc"), "/tmp/upper/etc");
    assert_eq!(join_path("", "etc"), "etc");
}

#[test]
fn join_path_edge_cases_follow_path_join() {
    assert_eq!(join_path("/system", "/vendor"), "/vendor");
    assert_eq!(join_path("/system", ""), "/system/");
    assert_eq!(join_path("/", ""), "/");
    let std_joined = std::path::Path::new("/tmp/work").join("").to_string_lossy().into_owned();
    assert_eq!(join_path("/tmp/work", ""), std_joined);
}

#[test]
fn decimal_text_writes_numbers() {
    assert_eq!(decimal_text(0), "0");
    assert_eq!(decimal_text(7), "7");
    assert_eq!(decimal_text(42), "42");
    assert_eq!(decimal_text(1_700_000_000_123_456_789), "1700000000123456789");
    assert_eq!(decimal_text(u128::MAX), u128::MAX.to_string());
}

#[test]
fn name_less_orders_like_sorted_strings() {
    assert!(name_less("a", "b"));
    assert!(!name_less("b", "a"));
    assert!(!name_less("a", "a"));
    assert!(name_less("ab", "abc"));
    assert!(name_less("", "a"));
    assert!(!name_less("a", ""));
    assert!(name_less("Z", "a"));
    assert!(name_less("z", "é"));
    let names = ["vendor", "system", "system_ext", "my_product", "apex", "é", "Z"];
    for a in names {
        for b in names {
            assert_eq!(name_less(a, b), a < b, "{a} {b}");
        }
    }
}
