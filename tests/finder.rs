use nmrs::paths::{is_candidate, is_inside_node_modules, select_candidates, split_components, WalkEntry};
use nmrs::scan::{finish_scan, path_precedes, sort_by_path, NodeModulesInfo};
use nmrs::size::{calculate_directory_size, parse_du_output, parse_u64, sum_file_sizes};

#[test]
fn test_is_inside_node_modules() {
    let root = "/project";

    // Not inside node_modules
    assert!(!is_inside_node_modules("/project/src/node_modules", root));
    assert!(!is_inside_node_modules("/project/node_modules", root));

    // Inside node_modules
    assert!(is_inside_node_modules("/project/node_modules/package/node_modules", root));
    assert!(is_inside_node_modules("/project/src/node_modules/dep/node_modules", root));
}

#[test]
fn nesting_rule_ignores_marker_in_root() {
    // the marker in the root's own path does not count
    assert!(!is_inside_node_modules("/w/node_modules/app/node_modules", "/w/node_modules/app"));
    assert!(is_inside_node_modules("/w/node_modules/app/node_modules", "/w"));
    assert!(!is_inside_node_modules("/project//a///node_modules/", "/project/"));
}

#[test]
fn split_drops_empty_components() {
    let parts = split_components(b"/a//bc/");
    assert_eq!(parts, vec![b"a".to_vec(), b"bc".to_vec()]);
    assert!(split_components(b"").is_empty());
}

#[test]
fn candidate_needs_directory_named_marker() {
    assert!(is_candidate("/r/a/node_modules", "/r", true));
    assert!(!is_candidate("/r/a/node_modules", "/r", false));
    assert!(!is_candidate("/r/a/node_modules_x", "/r", true));
    assert!(!is_candidate("/r/a/node_modules/dep/node_modules", "/r", true));
}

fn entry(path: &str, is_dir: bool) -> WalkEntry {
    WalkEntry { path: path.to_string(), is_dir }
}

#[test]
fn nested_marker_is_excluded_and_outer_sized() {
    let entries = vec![
        entry("/root/a", true),
        entry("/root/a/node_modules", true),
        entry("/root/a/node_modules/dep", true),
        entry("/root/a/node_modules/dep/node_modules", true),
        entry("/root/a/node_modules/dep/index.js", false),
    ];
    let found = select_candidates("/root", &entries);
    assert_eq!(found, vec!["/root/a/node_modules".to_string()]);

    // 20 files of 50 bytes each
    let sizes: Vec<u64> = vec![50; 20];
    let manual = sum_file_sizes(&sizes);
    assert_eq!(manual, Some(1000));
    let size = calculate_directory_size(None, manual);
    let results = finish_scan(found, vec![size]).unwrap();
    assert_eq!(results.len(), 1);
    assert_eq!(results[0].path, "/root/a/node_modules");
    assert_eq!(results[0].size, 1000);
}

#[test]
fn results_sorted_regardless_of_walk_order() {
    let entries = vec![entry("/root/y/node_modules", true), entry("/root/x/node_modules", true)];
    let found = select_candidates("/root", &entries);
    assert_eq!(found, vec!["/root/y/node_modules".to_string(), "/root/x/node_modules".to_string()]);
    let results = finish_scan(found, vec![Some(7), Some(9)]).unwrap();
    assert_eq!(results[0].path, "/root/x/node_modules");
    assert_eq!(results[0].size, 9);
    assert_eq!(results[1].path, "/root/y/node_modules");
    assert_eq!(results[1].size, 7);
}

#[test]
fn scan_fails_when_any_size_fails() {
    let paths = vec!["/r/a/node_modules".to_string(), "/r/b/node_modules".to_string()];
    assert!(finish_scan(paths, vec![Some(1), None]).is_none());
    assert_eq!(finish_scan(Vec::new(), Vec::new()).map(|v| v.len()), Some(0));
}

#[test]
fn sort_orders_by_bytes() {
    let items = vec![
        NodeModulesInfo::new("/b".to_string(), 1),
        NodeModulesInfo::new("/a/z".to_string(), 2),
        NodeModulesInfo::new("/a".to_string(), 3),
        NodeModulesInfo::new("/a".to_string(), 4),
    ];
    let sorted = sort_by_path(items);
    let paths: Vec<&str> = sorted.iter().map(|i| i.path.as_str()).collect();
    assert_eq!(paths, vec!["/a", "/a", "/a/z", "/b"]);
    assert!(path_precedes("/a", "/a/b"));
    assert!(!path_precedes("/b", "/a/b"));
    assert!(path_precedes("", ""));
}

#[test]
fn manual_sum_is_exact_or_none_on_overflow() {
    assert_eq!(sum_file_sizes(&vec![]), Some(0));
    assert_eq!(sum_file_sizes(&vec![3, 0, 1200, 17]), Some(1220));
    assert_eq!(sum_file_sizes(&vec![u64::MAX, 1]), None);
    assert_eq!(sum_file_sizes(&vec![u64::MAX]), Some(u64::MAX));
}

#[test]
fn du_output_in_bytes_and_blocks() {
    assert_eq!(parse_du_output("4096\t/x/node_modules\n", 1), Some(4096));
    assert_eq!(parse_du_output("12\t/x/node_modules\n", 1024), Some(12288));
    assert_eq!(parse_du_output("77", 1), Some(77));
    assert_eq!(parse_du_output("abc\t/x", 1), None);
    assert_eq!(parse_du_output("\t/x", 1), None);
    assert_eq!(parse_du_output("18446744073709551615\t/x", 2), None);
}

#[test]
fn parse_u64_follows_decimal_rules() {
    assert_eq!(parse_u64(b"0"), Some(0));
    assert_eq!(parse_u64(b"+42"), Some(42));
    assert_eq!(parse_u64(b"18446744073709551615"), Some(u64::MAX));
    assert_eq!(parse_u64(b"18446744073709551616"), None);
    assert_eq!(parse_u64(b"+"), None);
    assert_eq!(parse_u64(b""), None);
    assert_eq!(parse_u64(b"-1"), None);
    assert_eq!(parse_u64(b"12 "), None);
}

#[test]
fn external_size_preferred_over_manual() {
    assert_eq!(calculate_directory_size(Some(5), Some(9)), Some(5));
    assert_eq!(calculate_directory_size(None, Some(9)), Some(9));
    assert_eq!(calculate_directory_size(None, None), None);
}
