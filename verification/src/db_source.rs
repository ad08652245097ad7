//! Database sources of area records: the MySQL and SQLite configurations,
//! and the turning of a fetched row into a record.
use std::path::PathBuf;
use vstd::prelude::*;
use crate::area_code::{AreaCodeData, AreaCodeDataView};
use crate::data_source::{pieces, split_pieces, AreaGeoData, AreaGeoDataItem, AreaGeoDataView, GeoItemView};

verus! {

/// An optional text as characters.
pub open spec fn opt_text(o: Option<String>) -> Option<Seq<char>> {
    match o {
        Some(s) => Some(s@),
        None => None,
    }
}

/// The name given to a record whose name column is missing.
pub open spec fn missing_name() -> Seq<char> {
    "[_._]"@
}

/// The record a fetched row gives: none without a code; the keywords are the
/// non-empty pieces of `keyword` between commas, followed by the name where
/// `key_word_name` asks for it and the row has one; a record is hidden where
/// `hide` is 1 or its name is missing or empty.
pub open spec fn db_code_row(
    key_word_name: bool,
    code: Option<Seq<char>>,
    hide: int,
    name: Option<Seq<char>>,
    keyword: Seq<char>,
) -> Option<AreaCodeDataView> {
    match code {
        None => None,
        Some(c) => Some(
            AreaCodeDataView {
                code: c,
                hide: hide == 1 || (match name {
                    Some(n) => n.len() == 0,
                    None => true,
                }),
                name: match name {
                    Some(n) => n,
                    None => missing_name(),
                },
                key_word: pieces(keyword, ',') + (match name {
                    Some(n) => if key_word_name {
                        seq![n]
                    } else {
                        seq![]
                    },
                    None => seq![],
                }),
            },
        ),
    }
}

/// The geometry record a fetched row gives: none without a code or without an
/// outline; otherwise the code with one item of its centre and outline.
pub open spec fn db_geo_row(code: Option<Seq<char>>, center: Seq<char>, polygon: Option<Seq<char>>) -> Option<
    AreaGeoDataView,
> {
    match (code, polygon) {
        (Some(c), Some(p)) => Some(
            AreaGeoDataView { code: c, item: seq![GeoItemView { center, polygon: p }] },
        ),
        _ => None,
    }
}

/// The view of an optional record.
pub open spec fn opt_code_data(r: Option<AreaCodeData>) -> Option<AreaCodeDataView> {
    match r {
        Some(d) => Some(d@),
        None => None,
    }
}

/// The view of an optional geometry record.
pub open spec fn opt_geo_data(r: Option<AreaGeoData>) -> Option<AreaGeoDataView> {
    match r {
        Some(d) => Some(d@),
        None => None,
    }
}

/// The record a fetched row gives (`db_code_row`).
pub fn code_row_data(
    key_word_name: bool,
    code: Option<String>,
    hide: i32,
    name: Option<String>,
    keyword: &str,
) -> (r: Option<AreaCodeData>)
    ensures
        opt_code_data(r) == db_code_row(key_word_name, opt_text(code), hide as int, opt_text(name), keyword@),
{
    let code = match code {
        Some(c) => c,
        None => {
            return None;
        },
    };
    let mut key_word = split_pieces(keyword, ',');
    let ghost split = Seq::new(key_word@.len(), |j: int| key_word@[j]@);
    let hidden = hide == 1 || match &name {
        Some(n) => n.as_str().is_empty(),
        None => true,
    };
    let name = match name {
        Some(n) => {
            if key_word_name {
                key_word.push(n.clone());
                assert(Seq::new(key_word@.len(), |j: int| key_word@[j]@) =~= split + seq![n@]);
            } else {
                assert(Seq::new(key_word@.len(), |j: int| key_word@[j]@) =~= split + Seq::<Seq<char>>::empty());
            }
            n
        },
        None => {
            assert(Seq::new(key_word@.len(), |j: int| key_word@[j]@) =~= split + Seq::<Seq<char>>::empty());
            let m = String::from_str("[_._]");
            m
        },
    };
    Some(AreaCodeData { code, hide: hidden, name, key_word })
}

/// The geometry record a fetched row gives (`db_geo_row`).
pub fn geo_row_data(code: Option<String>, center: String, polygon: Option<String>) -> (r: Option<
    AreaGeoData,
>)
    ensures
        opt_geo_data(r) == db_geo_row(opt_text(code), center@, opt_text(polygon)),
{
    match (code, polygon) {
        (Some(c), Some(p)) => {
            let mut item: Vec<AreaGeoDataItem> = Vec::new();
            item.push(AreaGeoDataItem { center, polygon: p });
            let d = AreaGeoData { code: c, item };
            assert(d@.item =~= seq![GeoItemView { center: d.item@[0].center@, polygon: d.item@[0].polygon@ }]);
            Some(d)
        },
        _ => None,
    }
}

/// Where and how the area records are read from a MySQL database.
pub struct MysqlAreaCodeData {
    pub uri: String,
    pub sql: String,
    pub column_name: String,
    pub column_code: String,
    pub column_hide: String,
    pub column_key_word: String,
    pub key_word_name: bool,
}

impl MysqlAreaCodeData {
    /// The configuration for the database at `uri`, reading the table
    /// `area_code` with its columns `name`, `code`, `hide` and `key_word`, the
    /// name counting as a keyword.
    pub fn from_uri(uri: &str) -> (r: Self)
        ensures
            r.uri@ == uri@,
            r.sql@ == "select name,code,hide,key_word from area_code"@,
            r.column_name@ == "name"@,
            r.column_code@ == "code"@,
            r.column_hide@ == "hide"@,
            r.column_key_word@ == "key_word"@,
            r.key_word_name,
    {
        MysqlAreaCodeData {
            uri: String::from_str(uri),
            sql: String::from_str("select name,code,hide,key_word from area_code"),
            column_name: String::from_str("name"),
            column_code: String::from_str("code"),
            column_hide: String::from_str("hide"),
            column_key_word: String::from_str("key_word"),
            key_word_name: true,
        }
    }

    /// The record a fetched row gives under this configuration.
    pub fn row_data(&self, code: Option<String>, hide: i32, name: Option<String>, keyword: &str) -> (r:
        Option<AreaCodeData>)
        ensures
            opt_code_data(r) == db_code_row(
                self.key_word_name,
                opt_text(code),
                hide as int,
                opt_text(name),
                keyword@,
            ),
    {
        code_row_data(self.key_word_name, code, hide, name, keyword)
    }
}

/// Where and how the geometry records are read from a MySQL database.
pub struct MysqlAreaGeoData {
    pub uri: String,
    pub sql: String,
    pub column_code: String,
    pub column_center: String,
    pub column_polygon: String,
}

impl MysqlAreaGeoData {
    /// The configuration for the database at `uri`, reading the table
    /// `area_geo` (the country and the codes of six or more characters) with
    /// its columns `code`, `center` and `polygon`.
    pub fn from_uri(uri: &str) -> (r: Self)
        ensures
            r.uri@ == uri@,
            r.sql@ == "select code,center,polygon from area_geo where code in ('0') or code like '______%'"@,
            r.column_code@ == "code"@,
            r.column_center@ == "center"@,
            r.column_polygon@ == "polygon"@,
    {
        MysqlAreaGeoData {
            uri: String::from_str(uri),
            sql: String::from_str(
                "select code,center,polygon from area_geo where code in ('0') or code like '______%'",
            ),
            column_code: String::from_str("code"),
            column_center: String::from_str("center"),
            column_polygon: String::from_str("polygon"),
        }
    }
}

/// A MySQL source: where its area records and, if any, its geometry come from.
pub struct MysqlAreaData {
    code_config: MysqlAreaCodeData,
    geo_config: Option<MysqlAreaGeoData>,
}

impl MysqlAreaData {
    /// The source of the two configurations.
    pub fn new(code_config: MysqlAreaCodeData, geo_config: Option<MysqlAreaGeoData>) -> (r: Self)
        ensures
            r.code_config() == code_config,
            r.geo_config() == geo_config,
    {
        MysqlAreaData { code_config, geo_config }
    }

    /// The configuration of the area records.
    pub closed spec fn code_config(&self) -> MysqlAreaCodeData {
        self.code_config
    }

    /// The configuration of the geometry records, if any.
    pub closed spec fn geo_config(&self) -> Option<MysqlAreaGeoData> {
        self.geo_config
    }

    /// The configuration of the area records.
    pub fn code_data_config(&self) -> (r: &MysqlAreaCodeData)
        ensures
            *r == self.code_config(),
    {
        &self.code_config
    }

    /// The configuration of the geometry records, if any.
    pub fn geo_data_config(&self) -> (r: &Option<MysqlAreaGeoData>)
        ensures
            *r == self.geo_config(),
    {
        &self.geo_config
    }
}

/// Where and how the area records are read from a SQLite file.
pub struct SqliteAreaCodeData {
    pub conn: PathBuf,
    pub sql: String,
    pub column_name: String,
    pub column_code: String,
    pub column_hide: String,
    pub column_key_word: String,
    pub key_word_name: bool,
}

impl SqliteAreaCodeData {
    /// The configuration for the file `conn`, reading the table `area_code`
    /// with its name and code, its name and pinyin keywords joined by a comma,
    /// and its hidden flag, the name counting as a keyword.
    pub fn from_path(conn: PathBuf) -> (r: Self)
        ensures
            r.conn == conn,
            r.sql@ == "select name,code,kw_name||','||kw_py as key_word,hide from area_code"@,
            r.column_name@ == "name"@,
            r.column_code@ == "code"@,
            r.column_hide@ == "hide"@,
            r.column_key_word@ == "key_word"@,
            r.key_word_name,
    {
        SqliteAreaCodeData {
            conn,
            sql: String::from_str("select name,code,kw_name||','||kw_py as key_word,hide from area_code"),
            column_name: String::from_str("name"),
            column_code: String::from_str("code"),
            column_hide: String::from_str("hide"),
            column_key_word: String::from_str("key_word"),
            key_word_name: true,
        }
    }

    /// The record a fetched row gives under this configuration.
    pub fn row_data(&self, code: Option<String>, hide: i32, name: Option<String>, keyword: &str) -> (r:
        Option<AreaCodeData>)
        ensures
            opt_code_data(r) == db_code_row(
                self.key_word_name,
                opt_text(code),
                hide as int,
                opt_text(name),
                keyword@,
            ),
    {
        code_row_data(self.key_word_name, code, hide, name, keyword)
    }
}

/// Where and how the geometry records are read from a SQLite file.
pub struct SqliteAreaGeoData {
    pub conn: PathBuf,
    pub sql: String,
    pub column_code: String,
    pub column_center: String,
    pub column_polygon: String,
}

impl SqliteAreaGeoData {
    /// The configuration for the file `conn`, reading the table `area_geo`
    /// (the country and the codes of six or more characters) with its columns
    /// `code`, `center` and `polygon`.
    pub fn from_path(conn: PathBuf) -> (r: Self)
        ensures
            r.conn == conn,
            r.sql@ == "select code,center,polygon from area_geo where code ='0' or code like '______%'"@,
            r.column_code@ == "code"@,
            r.column_center@ == "center"@,
            r.column_polygon@ == "polygon"@,
    {
        SqliteAreaGeoData {
            conn,
            sql: String::from_str(
                "select code,center,polygon from area_geo where code ='0' or code like '______%'",
            ),
            column_code: String::from_str("code"),
            column_center: String::from_str("center"),
            column_polygon: String::from_str("polygon"),
        }
    }
}

} // verus!
