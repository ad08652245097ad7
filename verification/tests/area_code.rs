use area_db::area_code::{codes_are_ok, AreaCode, AreaCodeData, AreaCodeItem};
use area_db::code_path::{code_is_ok, code_parse};
use area_db::error::AreaError;

fn rec(code: &str, name: &str, kw: &[&str], hide: bool) -> AreaCodeData {
    AreaCodeData {
        code: code.to_string(),
        hide,
        name: name.to_string(),
        key_word: kw.iter().map(|s| s.to_string()).collect(),
    }
}

fn sample() -> Vec<AreaCodeData> {
    vec![
        rec("44", "广东省", &["Guang Dong"], false),
        rec("4414", "梅州市", &["Mei Zhou"], false),
        rec("441403", "梅江区", &[], false),
        rec("441403131", "城北镇", &[], false),
        rec("441403131203", "南口村委会", &[], false),
        rec("11", "北京市", &["beijing"], false),
    ]
}

fn codes(items: &[AreaCodeItem]) -> Vec<String> {
    items.iter().map(|i| i.code.clone()).collect()
}

#[test]
fn code_parse_cuts_levels() {
    let code: Vec<char> = "441403131203".chars().collect();
    let lv: Vec<String> = code_parse(&code).iter().map(|l| l.iter().collect()).collect();
    assert_eq!(lv, vec!["44", "4414", "441403", "441403131", "441403131203"]);
    let short: Vec<char> = " 44 ".chars().collect();
    let lv: Vec<String> = code_parse(&short).iter().map(|l| l.iter().collect()).collect();
    assert_eq!(lv, vec!["44"]);
    let blank: Vec<char> = "  ".chars().collect();
    assert!(code_parse(&blank).is_empty());
    let seven: Vec<char> = "1234567".chars().collect();
    let lv: Vec<String> = code_parse(&seven).iter().map(|l| l.iter().collect()).collect();
    assert_eq!(lv, vec!["12", "1234", "123456", "1234567"]);
}

#[test]
fn childs_of_root_and_of_a_code() {
    let area = AreaCode::new(&sample());
    let top = area.childs("").unwrap();
    assert_eq!(codes(&top), vec!["44", "11"]);
    assert_eq!(top[0].name, "广东省");
    assert!(!top[0].leaf);
    assert!(top[1].leaf);
    let below = area.childs("441403131").unwrap();
    assert_eq!(codes(&below), vec!["441403131203"]);
    assert_eq!(below[0].name, "南口村");
    assert!(below[0].leaf);
}

#[test]
fn childs_of_unknown_code_is_not_find() {
    let area = AreaCode::new(&sample());
    match area.childs("4415") {
        Err(AreaError::NotFind(m)) => assert_eq!(m, "not find code:4415"),
        other => panic!("unexpected {:?}", other),
    }
    match area.childs("1101") {
        Err(AreaError::NotFind(m)) => assert_eq!(m, "not find code:1101 [empty]"),
        other => panic!("unexpected {:?}", other),
    }
}

#[test]
fn find_lists_areas_along_code() {
    let area = AreaCode::new(&sample());
    let res = area.find("441403131203").unwrap();
    assert_eq!(res.len(), 5);
    assert_eq!(res[1].code, "4414");
    assert_eq!(res[1].name, "梅州市");
    assert_eq!(res[4].name, "南口村");
    assert!(res[4].leaf);
    assert!(!res[0].leaf);
}

#[test]
fn hidden_area_is_left_out() {
    let mut data = sample();
    data[1].hide = true;
    let area = AreaCode::new(&data);
    let res = area.find("441403").unwrap();
    assert_eq!(codes(&res), vec!["44", "441403"]);
    assert!(area.childs("44").unwrap().is_empty());
}

#[test]
fn every_data_code_is_found() {
    let data = sample();
    let area = AreaCode::new(&data);
    for d in &data {
        assert!(area.find(&d.code).is_ok());
        assert!(area.childs(&d.code).is_ok());
    }
}

#[test]
fn detail_marks_levels() {
    let area = AreaCode::new(&sample());
    let rows = area.detail("441403").unwrap();
    assert_eq!(rows.len(), 4);
    assert_eq!(rows[0].len(), 2);
    assert!(rows[0][0].selected && rows[0][0].item.code == "44");
    assert!(!rows[0][1].selected);
    assert!(rows[1][0].selected && rows[1][0].item.code == "4414");
    assert!(rows[2][0].selected && rows[2][0].item.code == "441403");
    assert!(!rows[3][0].selected && rows[3][0].item.code == "441403131");
    assert!(area.detail("").unwrap().is_empty());
}

#[test]
fn detail_stops_at_a_leaf() {
    let area = AreaCode::new(&sample());
    let rows = area.detail("11").unwrap();
    assert_eq!(rows.len(), 1);
    assert!(rows[0][1].selected && rows[0][1].item.code == "11");
}

#[test]
fn search_by_keyword() {
    let area = AreaCode::new(&sample());
    let res = area.search_with_cpus("mei zhou", 10, 1).unwrap();
    assert_eq!(res.len(), 1);
    assert_eq!(codes(&res[0].item), vec!["44", "4414"]);
    assert_eq!(res[0].key_word, "meizhou");
}

#[test]
fn search_by_text() {
    let area = AreaCode::new(&sample());
    let res = area.search_with_cpus("广东 梅州 南口", 10, 1).unwrap();
    assert_eq!(res.len(), 1);
    assert_eq!(res[0].item[1].code, "4414");
    assert_eq!(res[0].item.len(), 5);
    assert_eq!(res[0].key_word, "广东梅州梅江城北南口");
    assert!(area.search_with_cpus("上海", 10, 1).unwrap().is_empty());
}

#[test]
fn search_keyword_results_come_first() {
    let data = vec![
        rec("44", "广东省", &["gd"], false),
        rec("4414", "梅州市", &["gd"], false),
        rec("441403", "梅江区", &[], false),
    ];
    let area = AreaCode::new(&data);
    let res = area.search_with_cpus("GD", 10, 1).unwrap();
    assert_eq!(res.len(), 2);
    assert_eq!(res[0].item.len(), 1);
    assert_eq!(res[1].item.len(), 2);
}

#[test]
fn search_blank_name_is_empty() {
    let area = AreaCode::new(&sample());
    assert!(area.search("   ", 10).unwrap().is_empty());
    assert!(area.search_fits("  ", 10, 1000));
}

#[test]
fn search_without_texts_uses_keywords_only() {
    let data = vec![rec("44", "广东省", &["gd"], false), rec("4414", "梅州市", &["mz"], false)];
    let area = AreaCode::new(&data);
    let res = area.search("mz", 10).unwrap();
    assert_eq!(res.len(), 1);
    assert_eq!(codes(&res[0].item), vec!["44", "4414"]);
}

#[test]
fn search_fits_needs_a_text_per_worker() {
    let area = AreaCode::new(&sample());
    assert!(area.search_fits("南口", 10, 1));
    assert!(!area.search_fits("南口", 10, 2));
    match area.search("南口", 10) {
        Ok(res) => assert_eq!(res.len(), 1),
        Err(AreaError::System(m)) => assert_eq!(m, "search texts are fewer than the worker threads"),
        Err(e) => panic!("unexpected {:?}", e),
    }
}

#[test]
fn code_is_ok_checks_cuts() {
    assert!(code_is_ok("441403131203"));
    assert!(code_is_ok(" 4 "));
    assert!(code_is_ok(""));
    assert!(!code_is_ok("广东"));
    assert!(!code_is_ok("4é12"));
    assert!(codes_are_ok(&sample()));
    assert!(!codes_are_ok(&[rec("44", "a", &[], false), rec("广东", "b", &[], false)]));
}

#[test]
fn search_results_closest_first() {
    let data = vec![
        rec("44", "广东省", &[], false),
        rec("4414", "梅州市", &[], false),
        rec("441403", "梅江区", &[], false),
        rec("441404", "梅县区", &[], false),
        rec("44140301", "梅江区江南", &[], false),
    ];
    let area = AreaCode::new(&data);
    let res = area.search_with_cpus("梅", 10, 1).unwrap();
    assert_eq!(res.len(), 2);
    assert_eq!(res[0].item.last().unwrap().code, "441404");
    assert_eq!(res[1].item.last().unwrap().code, "44140301");
}

#[test]
fn found_exactly_for_levels_of_records() {
    let area = AreaCode::new(&sample());
    assert!(area.find("4414").is_ok());
    assert!(area.find("441403131").is_ok());
    assert!(area.find("4416").is_err());
    assert!(area.childs("12").is_err());
    assert!(area.childs("441403131203").unwrap().is_empty());
}

#[test]
fn childs_are_distinct_direct_children() {
    let mut data = sample();
    data.push(rec("4414", "梅州", &[], true));
    data.push(rec("4415", "汕尾市", &[], true));
    let area = AreaCode::new(&data);
    let below = area.childs("44").unwrap();
    assert_eq!(codes(&below), vec!["4414"]);
    assert_eq!(below[0].name, "梅州市");
    assert!(!below[0].leaf);
}

#[test]
fn detail_has_one_row_per_level() {
    let area = AreaCode::new(&sample());
    let rows = area.detail("441403131203").unwrap();
    assert_eq!(rows.len(), 5);
    assert!(rows[4].iter().any(|d| d.selected && d.item.leaf));
}

#[test]
fn search_or_top_lists_top_for_blank() {
    let area = AreaCode::new(&sample());
    let res = area.search_or_top("  ", 10).unwrap();
    assert_eq!(res.len(), 1);
    assert_eq!(codes(&res[0].item), vec!["44", "11"]);
    assert_eq!(res[0].key_word, "");
    let res = area.search_or_top("mei zhou", 10);
    match res {
        Ok(r) => assert_eq!(r.len(), 1),
        Err(AreaError::System(_)) => {}
        Err(e) => panic!("unexpected {:?}", e),
    }
}
