use std::io::Write;
use std::path::PathBuf;

use area_db::data_source::{data_changed, de_gz_data, split_pieces, CsvAreaCodeData, CsvAreaGeoData};
use area_db::db_source::{
    code_row_data, geo_row_data, MysqlAreaCodeData, MysqlAreaData, MysqlAreaGeoData, SqliteAreaCodeData,
    SqliteAreaGeoData,
};
use area_db::error::AreaError;

#[test]
fn split_pieces_drops_empty_pieces() {
    assert_eq!(split_pieces("a||b|", '|'), vec!["a", "b"]);
    assert!(split_pieces("", '|').is_empty());
    assert_eq!(split_pieces("广东", ','), vec!["广东"]);
}

#[test]
fn csv_code_text_gives_records() {
    let layout = CsvAreaCodeData::create_inner_data(None);
    let text = "code,name,kw1,kw2,hide\n44,广东省,gd|guangdong,广东,0\n4414,梅州市,mz,,1\n,空,,,0\n4415,,,,0\n";
    let recs = layout.parse_code_text(text).unwrap();
    assert_eq!(recs.len(), 3);
    assert_eq!(recs[0].code, "44");
    assert_eq!(recs[0].name, "广东省");
    assert_eq!(recs[0].key_word, vec!["gd", "guangdong", "广东"]);
    assert!(!recs[0].hide);
    assert_eq!(recs[1].key_word, vec!["mz"]);
    assert!(recs[1].hide);
    assert_eq!(recs[2].code, "4415");
    assert!(recs[2].hide);
}

#[test]
fn csv_code_layout_from_path() {
    let layout = CsvAreaCodeData::from_path(PathBuf::from("x.csv"), 0, 1, 0, 2, vec![3]);
    assert_eq!(layout.csv_data(), &Some(PathBuf::from("x.csv")));
    let recs = layout.parse_code_text("11,北京市,1,beijing\n12,天津市,0,tj|tianjin\n").unwrap();
    assert_eq!(recs.len(), 2);
    assert!(recs[0].hide);
    assert_eq!(recs[1].key_word, vec!["tj", "tianjin"]);
    assert!(CsvAreaCodeData::from_inner_data().unwrap().csv_data().is_none());
}

#[test]
fn csv_reader_error_is_db_error() {
    let layout = CsvAreaCodeData::from_path(PathBuf::from("x.csv"), 0, 1, 0, 2, vec![]);
    match layout.parse_code_text("11,北京市,0\n12\n") {
        Err(AreaError::DB(_)) => {}
        other => panic!("unexpected {:?}", other.map(|v| v.len())),
    }
    let skipping = CsvAreaCodeData::from_path(PathBuf::from("x.csv"), 2, 1, 0, 2, vec![]);
    assert_eq!(skipping.parse_code_text("11,北京市,0\n12\n13,河北省,0\n").unwrap().len(), 1);
}

#[test]
fn csv_geo_text_keeps_code_lengths() {
    let layout = CsvAreaGeoData::create_inner_data(None);
    let text = "code,center,polygon\n0,1 2,p0\n44,3 4,p44\n441403,5 6,p441403\n";
    let recs = layout.parse_geo_text(text).unwrap();
    assert_eq!(recs.len(), 2);
    assert_eq!(recs[0].code, "0");
    assert_eq!(recs[1].code, "441403");
    assert_eq!(recs[1].item.len(), 1);
    assert_eq!(recs[1].item[0].center, "5 6");
    assert_eq!(recs[1].item[0].polygon, "p441403");
    let wide = CsvAreaGeoData::from_path(PathBuf::from("g.csv"), 0, 0, 5, 1, vec![2, 6]);
    let recs = wide.parse_geo_text("44,p\n广,q\n").unwrap();
    assert_eq!(recs.len(), 1);
    assert_eq!(recs[0].item[0].center, "");
    assert!(CsvAreaGeoData::from_inner_data().unwrap().csv_data().is_none());
}

#[test]
fn gz_data_round_trip() {
    let mut enc = flate2::write::GzEncoder::new(Vec::new(), flate2::Compression::default());
    enc.write_all("44,广东省\n".as_bytes()).unwrap();
    let zipped = enc.finish().unwrap();
    assert_ne!(zipped, "44,广东省\n".as_bytes().to_vec());
    assert_eq!(de_gz_data(zipped).unwrap(), "44,广东省\n".as_bytes().to_vec());
    assert!(matches!(de_gz_data(b"not gzip".to_vec()), Err(AreaError::System(_))));
}

#[test]
fn data_changed_needs_both_times() {
    assert!(data_changed(Some(5), Some(4)));
    assert!(!data_changed(Some(4), Some(4)));
    assert!(!data_changed(None, Some(4)));
    assert!(!data_changed(Some(4), None));
}

#[test]
fn db_code_rows() {
    let r = code_row_data(true, Some("44".to_string()), 0, Some("广东省".to_string()), "gd,,guangdong").unwrap();
    assert_eq!(r.code, "44");
    assert_eq!(r.name, "广东省");
    assert!(!r.hide);
    assert_eq!(r.key_word, vec!["gd", "guangdong", "广东省"]);
    let r = code_row_data(true, Some("11".to_string()), 0, None, "bj").unwrap();
    assert_eq!(r.name, "[_._]");
    assert!(r.hide);
    assert_eq!(r.key_word, vec!["bj"]);
    let r = code_row_data(false, Some("12".to_string()), 1, Some("天津市".to_string()), "").unwrap();
    assert!(r.hide);
    assert!(r.key_word.is_empty());
    let r = code_row_data(true, Some("13".to_string()), 0, Some(String::new()), "").unwrap();
    assert!(r.hide);
    assert_eq!(r.key_word, vec![""]);
    assert!(code_row_data(true, None, 0, Some("x".to_string()), "a").is_none());
}

#[test]
fn db_geo_rows() {
    let g = geo_row_data(Some("44".to_string()), "1 2".to_string(), Some("p".to_string())).unwrap();
    assert_eq!(g.code, "44");
    assert_eq!(g.item[0].center, "1 2");
    assert_eq!(g.item[0].polygon, "p");
    assert!(geo_row_data(Some("44".to_string()), String::new(), None).is_none());
    assert!(geo_row_data(None, String::new(), Some("p".to_string())).is_none());
}

#[test]
fn mysql_configs() {
    let c = MysqlAreaCodeData::from_uri("mysql://root:@127.0.0.1:3306/test");
    assert_eq!(c.uri, "mysql://root:@127.0.0.1:3306/test");
    assert_eq!(c.sql, "select name,code,hide,key_word from area_code");
    assert_eq!(c.column_key_word, "key_word");
    assert!(c.key_word_name);
    let g = MysqlAreaGeoData::from_uri("u");
    assert_eq!(g.sql, "select code,center,polygon from area_geo where code in ('0') or code like '______%'");
    assert_eq!(g.column_polygon, "polygon");
    let d = MysqlAreaData::new(c, Some(g));
    assert_eq!(d.code_data_config().column_code, "code");
    assert_eq!(d.geo_data_config().as_ref().unwrap().uri, "u");
    let r = d.code_data_config().row_data(Some("44".to_string()), 0, Some("广东省".to_string()), "gd");
    assert_eq!(r.unwrap().key_word, vec!["gd", "广东省"]);
}

#[test]
fn sqlite_configs() {
    let c = SqliteAreaCodeData::from_path(PathBuf::from("data/area-data.db"));
    assert_eq!(c.conn, PathBuf::from("data/area-data.db"));
    assert_eq!(c.sql, "select name,code,kw_name||','||kw_py as key_word,hide from area_code");
    assert_eq!(c.column_hide, "hide");
    let g = SqliteAreaGeoData::from_path(PathBuf::from("g.db"));
    assert_eq!(g.sql, "select code,center,polygon from area_geo where code ='0' or code like '______%'");
    assert_eq!(g.column_center, "center");
    let r = c.row_data(Some("4414".to_string()), 1, Some("梅州市".to_string()), "梅州,meizhou");
    let r = r.unwrap();
    assert!(r.hide);
    assert_eq!(r.key_word, vec!["梅州", "meizhou", "梅州市"]);
}
