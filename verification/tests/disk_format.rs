use area_db::disk_format::{
    add_code_levels, code_tree_lookup, encode_code_tree, encode_index_data, file_version, index_data_lookup,
};
use area_db::store::{AreaCodeIndexDataHashMap, AreaCodeIndexInfo};

fn info(hide: bool, name: &str) -> AreaCodeIndexInfo {
    AreaCodeIndexInfo { hide, name: name.to_string() }
}

#[test]
fn index_file_read_after_write() {
    let rows = vec![("44".to_string(), info(false, "广东省")), ("4414".to_string(), info(true, "梅州市"))];
    let bytes = encode_index_data(&rows, "v1");
    let got = index_data_lookup(&bytes, "4414").unwrap();
    assert!(got.hide);
    assert_eq!(got.name, "梅州市");
    assert_eq!(index_data_lookup(&bytes, "44").unwrap().name, "广东省");
    assert!(index_data_lookup(&bytes, "45").is_none());
    assert_eq!(file_version(&bytes).unwrap(), "v1");
    assert!(index_data_lookup(&bytes[..bytes.len() - 1], "4414").is_none());
    assert!(index_data_lookup(&[1, 2, 3], "44").is_none());
}

#[test]
fn index_file_from_store_entries() {
    let mut s = AreaCodeIndexDataHashMap::default();
    s.set("11".to_string(), info(false, "北京市")).unwrap();
    s.set("11".to_string(), info(true, "北京")).unwrap();
    let bytes = encode_index_data(s.entries(), "");
    let got = index_data_lookup(&bytes, "11").unwrap();
    assert!(got.hide);
    assert_eq!(got.name, "北京");
    assert_eq!(file_version(&bytes).unwrap(), "");
}

#[test]
fn tree_file_lists_children_with_leaf_flags() {
    let rows = vec![
        ("".to_string(), vec!["44".to_string(), "11".to_string()]),
        ("44".to_string(), vec!["4414".to_string()]),
        ("11".to_string(), vec![]),
    ];
    let bytes = encode_code_tree(&rows, "v2");
    assert_eq!(
        code_tree_lookup(&bytes, "").unwrap(),
        vec![("44".to_string(), false), ("11".to_string(), true)]
    );
    assert_eq!(code_tree_lookup(&bytes, "44").unwrap(), vec![("4414".to_string(), true)]);
    assert_eq!(code_tree_lookup(&bytes, "11").unwrap(), vec![]);
    assert!(code_tree_lookup(&bytes, "4414").is_none());
    assert_eq!(file_version(&bytes).unwrap(), "v2");
}

#[test]
fn tree_levels_added_under_parents() {
    let mut rows: Vec<(String, Vec<String>)> = Vec::new();
    add_code_levels(&mut rows, vec!["44", "4414", "441403"]).unwrap();
    add_code_levels(&mut rows, vec!["44", "4415"]).unwrap();
    add_code_levels(&mut rows, vec!["11"]).unwrap();
    let want: Vec<(String, Vec<String>)> = vec![
        ("".to_string(), vec!["44".to_string(), "11".to_string()]),
        ("44".to_string(), vec!["4414".to_string(), "4415".to_string()]),
        ("4414".to_string(), vec!["441403".to_string()]),
    ];
    assert_eq!(rows, want);
    let bytes = encode_code_tree(&rows, "");
    assert_eq!(
        code_tree_lookup(&bytes, "44").unwrap(),
        vec![("4414".to_string(), false), ("4415".to_string(), true)]
    );
}
