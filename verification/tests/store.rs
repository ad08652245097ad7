use std::path::PathBuf;

use area_db::by_code::{sort_details_by_code, sort_items_by_code, text_less};
use area_db::area_code::{AreaCodeDetailItem, AreaCodeItem};
use area_db::error::AreaError;
use area_db::store::{
    mmap_check_index, AreaCodeIndexDataHashMap, AreaCodeIndexInfo, AreaCodeIndexTreeHashMap,
    AreaCodeTantivyDisk, AreaCodeTantivyMemory, AreaStoreDisk, AreaStoreMemory,
};

fn info(hide: bool, name: &str) -> AreaCodeIndexInfo {
    AreaCodeIndexInfo { hide, name: name.to_string() }
}

#[test]
fn index_store_read_after_write() {
    let mut s = AreaCodeIndexDataHashMap::default();
    assert!(s.get("44").is_none());
    s.set("44".to_string(), info(false, "广东省")).unwrap();
    s.set("11".to_string(), info(true, "北京市")).unwrap();
    assert_eq!(s.get("44").unwrap().name, "广东省");
    assert!(s.get("11").unwrap().hide);
    s.set("44".to_string(), info(true, "广东")).unwrap();
    let g = s.get("44").unwrap();
    assert!(g.hide);
    assert_eq!(g.name, "广东");
    assert_eq!(s.get("11").unwrap().name, "北京市");
    s.save("v1").unwrap();
    assert_eq!(s.version(), "v1");
    s.clear().unwrap();
    assert!(s.get("44").is_none());
    assert_eq!(s.version(), "v1");
}

#[test]
fn tree_store_add_then_childs() {
    let mut t = AreaCodeIndexTreeHashMap::default();
    assert_eq!(t.childs(&[]).unwrap(), vec![]);
    t.add(vec!["44", "4414", "441403"]).unwrap();
    t.add(vec!["44", "4415"]).unwrap();
    t.add(vec!["11"]).unwrap();
    assert_eq!(
        t.childs(&[]).unwrap(),
        vec![("44".to_string(), true), ("11".to_string(), false)]
    );
    assert_eq!(
        t.childs(&["44"]).unwrap(),
        vec![("4414".to_string(), true), ("4415".to_string(), false)]
    );
    assert_eq!(t.childs(&["44", "4414", "441403"]).unwrap(), vec![]);
    assert!(t.childs(&["45"]).is_none());
    assert!(t.childs(&["44", "4416"]).is_none());
    t.save("v2").unwrap();
    assert_eq!(t.version(), "v2");
    t.clear().unwrap();
    assert!(t.childs(&["44"]).is_none());
    assert_eq!(t.version(), "v2");
}

#[test]
fn store_settings() {
    assert_eq!(AreaCodeTantivyMemory::new(1024).index_size(), 1024);
    assert_eq!(AreaStoreMemory::new(7).index_size(), 7);
    assert_eq!(AreaStoreMemory::default().index_size(), 500_000_000);
    let d = AreaCodeTantivyDisk::new(PathBuf::from("/tmp/t"), 5);
    assert_eq!(d.path(), &PathBuf::from("/tmp/t"));
    assert_eq!(d.index_size(), 5);
    let s = AreaStoreDisk::new(PathBuf::from("/tmp/s"), None);
    assert_eq!(s.index_size(), 500_000_000);
    assert_eq!(s.dir(), &PathBuf::from("/tmp/s"));
    assert_eq!(AreaStoreDisk::new(PathBuf::from("/tmp/s"), Some(3)).index_size(), 3);
}

#[test]
fn check_index_messages() {
    match mmap_check_index(0, 0) {
        Err(AreaError::Store(m)) => assert_eq!(m, "data is empty"),
        other => panic!("unexpected {:?}", other),
    }
    match mmap_check_index(3, 5) {
        Err(AreaError::Store(m)) => assert_eq!(m, "max is :3,your submit index is:5"),
        other => panic!("unexpected {:?}", other),
    }
    match mmap_check_index(120, 120) {
        Err(AreaError::Store(m)) => assert_eq!(m, "max is :120,your submit index is:120"),
        other => panic!("unexpected {:?}", other),
    }
    assert!(mmap_check_index(3, 2).is_ok());
}

fn item(code: &str, name: &str) -> AreaCodeItem {
    AreaCodeItem { code: code.to_string(), name: name.to_string(), leaf: false }
}

#[test]
fn items_sorted_by_code_stably() {
    let mut v = vec![item("4414", "a"), item("44", "b"), item("11", "c"), item("4414", "d"), item("440", "e")];
    sort_items_by_code(&mut v);
    let got: Vec<(String, String)> = v.iter().map(|i| (i.code.clone(), i.name.clone())).collect();
    let want: Vec<(String, String)> = [("11", "c"), ("44", "b"), ("440", "e"), ("4414", "a"), ("4414", "d")]
        .iter()
        .map(|(a, b)| (a.to_string(), b.to_string()))
        .collect();
    assert_eq!(got, want);
}

#[test]
fn details_sorted_by_code() {
    let mut v = vec![
        AreaCodeDetailItem { selected: false, item: item("12", "x") },
        AreaCodeDetailItem { selected: true, item: item("11", "y") },
    ];
    sort_details_by_code(&mut v);
    assert_eq!(v[0].item.code, "11");
    assert!(v[0].selected);
    assert_eq!(v[1].item.code, "12");
}

#[test]
fn text_order() {
    let a: Vec<char> = "44".chars().collect();
    let b: Vec<char> = "4414".chars().collect();
    let c: Vec<char> = "45".chars().collect();
    assert!(text_less(&a, &b));
    assert!(!text_less(&b, &a));
    assert!(text_less(&b, &c));
    assert!(!text_less(&a, &a));
}
