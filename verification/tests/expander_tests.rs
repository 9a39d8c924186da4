use graphite::cache::Cache;
use graphite::expander::{
    dots_to_full_path_glob, json_array, text_and_file_name, text_and_folder_name, QueryResultNode,
};
use graphite::xff::fraction_lt_xff;

#[test]
fn has_full_path() {
    let cache = Cache::new("/tmp");
    let input = "what.*.ever".to_string();
    let expected = "/tmp/what/*/ever";
    let full_glob = dots_to_full_path_glob(&input, &cache);
    assert_eq!(full_glob, expected);
}

// Not trying that hard but a simple sanity check
#[test]
fn wont_go_up_directory() {
    let cache = Cache::new("/tmp");
    let input = "what.*.ever/../".to_string();
    let expected = "/tmp/what/*/ever////";
    let full_glob = dots_to_full_path_glob(&input, &cache);
    assert_eq!(full_glob, expected);
}

#[test]
fn wsp_node_json() {
    let root = "/tmp/thing".to_string();
    let deep = "/tmp/thing/is/cool/bear.wsp".to_string();
    let wsp_node = QueryResultNode::WspNode(root, deep);
    let expected = "{\"leaf\": 0, \"context\": {}, \"text\": \"bear\", \"expandable\": 0, \"id\": \"is.cool.bear\", \"allowChildren\": 0}";
    assert_eq!(wsp_node.to_json(), expected.to_string());
}

#[test]
fn dir_node_json_marks_expandable() {
    let root = "/tmp/thing".to_string();
    let dir = "/tmp/thing/is/cool".to_string();
    let with_children = QueryResultNode::DirNode(root.clone(), dir.clone(), true);
    let expected = "{\"leaf\": 0, \"context\": {}, \"text\": \"cool\", \"expandable\": 1, \"id\": \"is.cool\", \"allowChildren\": 0}";
    assert_eq!(with_children.to_json(), expected.to_string());
    let childless = QueryResultNode::DirNode(root, dir, false);
    let expected2 = "{\"leaf\": 0, \"context\": {}, \"text\": \"cool\", \"expandable\": 2, \"id\": \"is.cool\", \"allowChildren\": 0}";
    assert_eq!(childless.to_json(), expected2.to_string());
}

#[test]
fn names_split_as_expected() {
    let (text, id) = text_and_file_name("/tmp", "/tmp/what/ever.wsp");
    assert_eq!(text, "ever");
    assert_eq!(id, "what.ever");
    let (text2, id2) = text_and_folder_name("/tmp", "/tmp/what/ever");
    assert_eq!(text2, "ever");
    assert_eq!(id2, "what.ever");
}

#[test]
fn json_array_joins_with_commas() {
    let items = vec!["{\"a\": 1}".to_string(), "{\"b\": 2}".to_string()];
    assert_eq!(json_array(&items), "[{\"a\": 1},{\"b\": 2}]");
    let empty: Vec<String> = vec![];
    assert_eq!(json_array(&empty), "[]");
}

#[test]
fn sufficiency_threshold_comparison_is_exact() {
    let half = 0.5f32.to_bits();
    // 1 of 60 surviving samples is below a 0.5 threshold...
    assert!(fraction_lt_xff(1, 60, half));
    assert!(fraction_lt_xff(29, 60, half));
    // ...and exactly half is not.
    assert!(!fraction_lt_xff(30, 60, half));
    assert!(!fraction_lt_xff(60, 60, half));
    // A zero threshold never gates anything.
    assert!(!fraction_lt_xff(0, 60, 0.0f32.to_bits()));
    // Everything finite is below positive infinity.
    assert!(fraction_lt_xff(60, 60, f32::INFINITY.to_bits()));
    // Comparisons with a NaN threshold are false.
    assert!(!fraction_lt_xff(0, 60, f32::NAN.to_bits()));
    // A negative threshold is below any count.
    assert!(!fraction_lt_xff(0, 60, (-0.5f32).to_bits()));
    // Tiny subnormal thresholds still gate an empty slot set.
    assert!(fraction_lt_xff(0, 60, 1u32));
}
