//! Where area records come from: the configurations of CSV, MySQL and SQLite
//! sources, and the turning of their rows into records.
use std::io::Read;
use std::path::PathBuf;
use vstd::prelude::*;
use crate::area_code::{AreaCodeData, AreaCodeDataView};
use crate::error::{AreaError, AreaErrorView, AreaResult};
use crate::search_model::concat_all;
use crate::text::{chars_of, string_of, utf8_len, utf8_len_wide};

verus! {

/// A file-system path, carried through unchanged.
#[verifier::external_type_specification]
#[verifier::external_body]
pub struct ExPathBuf(PathBuf);

/// The geometry of an area as text: its centre and its outline.
pub struct AreaGeoDataItem {
    pub center: String,
    pub polygon: String,
}

/// The geometry records of one area code.
pub struct AreaGeoData {
    pub code: String,
    pub item: Vec<AreaGeoDataItem>,
}

/// An `AreaGeoDataItem` with its text as characters.
pub struct GeoItemView {
    pub center: Seq<char>,
    pub polygon: Seq<char>,
}

/// An `AreaGeoData` with its text as characters.
pub struct AreaGeoDataView {
    pub code: Seq<char>,
    pub item: Seq<GeoItemView>,
}

impl View for AreaGeoDataItem {
    type V = GeoItemView;

    open spec fn view(&self) -> GeoItemView {
        GeoItemView { center: self.center@, polygon: self.polygon@ }
    }
}

impl View for AreaGeoData {
    type V = AreaGeoDataView;

    open spec fn view(&self) -> AreaGeoDataView {
        AreaGeoDataView { code: self.code@, item: Seq::new(self.item@.len(), |i: int| self.item@[i]@) }
    }
}

/// The maximal runs of characters other than `sep` in `s`, after the run `cur`
/// (`str::split(sep)` without the empty pieces).
pub open spec fn runs_from(s: Seq<char>, sep: char, cur: Seq<char>) -> Seq<Seq<char>>
    decreases s.len(),
{
    if s.len() == 0 {
        if cur.len() > 0 {
            seq![cur]
        } else {
            seq![]
        }
    } else if s[0] == sep {
        (if cur.len() > 0 {
            seq![cur]
        } else {
            seq![]
        }) + runs_from(s.drop_first(), sep, seq![])
    } else {
        runs_from(s.drop_first(), sep, cur.push(s[0]))
    }
}

/// The non-empty pieces of `s` between the separators `sep`.
pub open spec fn pieces(s: Seq<char>, sep: char) -> Seq<Seq<char>> {
    runs_from(s, sep, seq![])
}

/// The non-empty pieces of `s` between the separators `sep`, as strings.
pub fn split_pieces(s: &str, sep: char) -> (r: Vec<String>)
    ensures
        Seq::new(r@.len(), |i: int| r@[i]@) == pieces(s@, sep),
{
    let cs = chars_of(s);
    let mut out: Vec<String> = Vec::new();
    let mut cur: Vec<char> = Vec::new();
    let mut i: usize = 0;
    assert(cs@.skip(0) =~= cs@);
    assert(Seq::new(out@.len(), |k: int| out@[k]@) + runs_from(cs@.skip(0), sep, cur@) =~= pieces(
        s@,
        sep,
    ));
    while i < cs.len()
        invariant
            i <= cs.len(),
            cs@ == s@,
            pieces(s@, sep) == Seq::new(out@.len(), |k: int| out@[k]@) + runs_from(
                cs@.skip(i as int),
                sep,
                cur@,
            ),
        decreases cs.len() - i,
    {
        let c = cs[i];
        assert(cs@.skip(i as int).drop_first() =~= cs@.skip(i + 1));
        assert(cs@.skip(i as int)[0] == c);
        let ghost before = Seq::new(out@.len(), |k: int| out@[k]@);
        if c == sep {
            if cur.len() > 0 {
                let piece = string_of(cur.as_slice());
                out.push(piece);
                assert(Seq::new(out@.len(), |k: int| out@[k]@) =~= before.push(cur@));
                assert(before.push(cur@) + runs_from(cs@.skip(i + 1), sep, seq![]) =~= before + (
                seq![cur@] + runs_from(cs@.skip(i + 1), sep, seq![])));
            } else {
                assert(before + runs_from(cs@.skip(i + 1), sep, seq![]) =~= before + (Seq::<
                    Seq<char>,
                >::empty() + runs_from(cs@.skip(i + 1), sep, seq![])));
            }
            cur = Vec::new();
            assert(cur@ =~= Seq::<char>::empty());
        } else {
            cur.push(c);
        }
        i = i + 1;
    }
    assert(cs@.skip(i as int) =~= Seq::<char>::empty());
    let ghost before = Seq::new(out@.len(), |k: int| out@[k]@);
    if cur.len() > 0 {
        let piece = string_of(cur.as_slice());
        out.push(piece);
        assert(Seq::new(out@.len(), |k: int| out@[k]@) =~= before + seq![cur@]);
    } else {
        assert(before + Seq::<Seq<char>>::empty() =~= before);
    }
    out
}

/// Field `i` of a record, where it has one.
pub open spec fn field(rec: Seq<Seq<char>>, i: int) -> Option<Seq<char>> {
    if 0 <= i < rec.len() {
        Some(rec[i])
    } else {
        None
    }
}

/// Field `i` of a record, or the empty text where it has none.
pub open spec fn field_or_empty(rec: Seq<Seq<char>>, i: int) -> Seq<char> {
    match field(rec, i) {
        Some(f) => f,
        None => seq![],
    }
}

/// How the records of area codes are laid out in a CSV text.
pub struct CsvAreaCodeData {
    csv_data: Option<PathBuf>,
    skip: usize,
    column_name: u8,
    column_code: u8,
    column_hide: u8,
    column_key_word: Vec<u8>,
}

/// The layout of a CSV text of area codes.
pub struct CsvCodeLayout {
    pub csv_data: Option<PathBuf>,
    pub skip: nat,
    pub column_name: nat,
    pub column_code: nat,
    pub column_hide: nat,
    pub column_key_word: Seq<nat>,
}

impl View for CsvAreaCodeData {
    type V = CsvCodeLayout;

    closed spec fn view(&self) -> CsvCodeLayout {
        CsvCodeLayout {
            csv_data: self.csv_data,
            skip: self.skip as nat,
            column_name: self.column_name as nat,
            column_code: self.column_code as nat,
            column_hide: self.column_hide as nat,
            column_key_word: Seq::new(
                self.column_key_word@.len(),
                |i: int| self.column_key_word@[i] as nat,
            ),
        }
    }
}

impl CsvAreaCodeData {
    /// A layout with the file `csv_data`, `skip` leading rows to pass over,
    /// and the columns (from 0) of the name, the code, the hidden flag and the
    /// keywords.
    pub fn from_path(
        csv_data: PathBuf,
        skip: usize,
        column_name: u8,
        column_code: u8,
        column_hide: u8,
        column_key_word: Vec<u8>,
    ) -> (r: Self)
        ensures
            r@.csv_data == Some(csv_data),
            r@.skip == skip,
            r@.column_name == column_name,
            r@.column_code == column_code,
            r@.column_hide == column_hide,
            r@.column_key_word == Seq::new(
                column_key_word@.len(),
                |i: int| column_key_word@[i] as nat,
            ),
    {
        CsvAreaCodeData { csv_data: Some(csv_data), skip, column_name, column_code, column_hide, column_key_word }
    }

    /// The layout of the bundled data: one header row, then code, name, two
    /// keyword columns and the hidden flag.
    pub fn create_inner_data(csv_data: Option<PathBuf>) -> (r: Self)
        ensures
            r@.csv_data == csv_data,
            r@.skip == 1,
            r@.column_code == 0,
            r@.column_name == 1,
            r@.column_hide == 4,
            r@.column_key_word == seq![2nat, 3nat],
    {
        let mut kw: Vec<u8> = Vec::new();
        kw.push(2);
        kw.push(3);
        let r = CsvAreaCodeData {
            csv_data,
            skip: 1,
            column_code: 0,
            column_name: 1,
            column_hide: 4,
            column_key_word: kw,
        };
        assert(r@.column_key_word =~= seq![2nat, 3nat]);
        r
    }

    /// The layout of the bundled data, with no file: the text comes from the
    /// data built into the program.
    pub fn from_inner_data() -> (r: AreaResult<Self>)
        ensures
            r matches Ok(c) && c@ == Self::create_inner_data_spec(None),
    {
        Ok(Self::create_inner_data(None))
    }

    /// The layout `create_inner_data` gives.
    pub open spec fn create_inner_data_spec(csv_data: Option<PathBuf>) -> CsvCodeLayout {
        CsvCodeLayout {
            csv_data,
            skip: 1,
            column_name: 1,
            column_code: 0,
            column_hide: 4,
            column_key_word: seq![2nat, 3nat],
        }
    }

    /// The file of the layout, if it names one.
    pub fn csv_data(&self) -> (r: &Option<PathBuf>)
        ensures
            *r == self@.csv_data,
    {
        &self.csv_data
    }
}

/// The record a row of a CSV text gives under layout `cfg`: none where the
/// code column is missing or empty; the keywords are the non-empty pieces
/// between `|` of each keyword column; a record is hidden where its hidden
/// column is `1` or its name is empty.
pub open spec fn csv_code_row(cfg: CsvCodeLayout, rec: Seq<Seq<char>>) -> Option<AreaCodeDataView> {
    match field(rec, cfg.column_code as int) {
        None => None,
        Some(code) => if code.len() == 0 {
            None
        } else {
            let hide = field_or_empty(rec, cfg.column_hide as int);
            let name = field_or_empty(rec, cfg.column_name as int);
            let kw = concat_all(
                Seq::new(
                    cfg.column_key_word.len(),
                    |i: int| pieces(field_or_empty(rec, cfg.column_key_word[i] as int), '|'),
                ),
            );
            Some(
                AreaCodeDataView {
                    code,
                    hide: hide == "1"@ || name.len() == 0,
                    name,
                    key_word: kw,
                },
            )
        },
    }
}

/// What the CSV reader gives for `text` read without a header: each record
/// as its fields, or the message of the error met in its place.
pub uninterp spec fn csv_records(text: Seq<char>) -> Seq<Result<Seq<Seq<char>>, Seq<char>>>;

/// The view of read CSV records.
pub open spec fn records_view(r: Seq<Result<Vec<String>, String>>) -> Seq<
    Result<Seq<Seq<char>>, Seq<char>>,
> {
    Seq::new(
        r.len(),
        |i: int|
            match r[i] {
                Ok(v) => Ok(Seq::new(v@.len(), |j: int| v@[j]@)),
                Err(e) => Err(e@),
            },
    )
}

/// The records of the CSV text `text`, read by `csv::ReaderBuilder` without a
/// header row (`Reader::records`); each one its fields, or the message
/// of its error. How the reader splits the text (quotes, escapes, records of
/// unequal length) is named, not stated: `csv_records`.
#[verifier::external_body]
fn read_csv_records(text: &str) -> (r: Vec<Result<Vec<String>, String>>)
    ensures
        records_view(r@) == csv_records(text@),
{
    let mut rdr = csv::ReaderBuilder::new().has_headers(false).from_reader(text.as_bytes());
    let mut out = Vec::new();
    for rec in rdr.records() {
        out.push(match rec {
            Ok(fields) => Ok(fields.iter().map(|f| f.to_string()).collect()),
            Err(e) => Err(e.to_string()),
        });
    }
    out
}

/// The records that the rows of `rs`, from `i` on, give through `f`, rows
/// before `skip` passed over; the message of the first error among the rest.
pub open spec fn rows_from<T>(
    rs: Seq<Result<Seq<Seq<char>>, Seq<char>>>,
    i: int,
    skip: nat,
    f: spec_fn(Seq<Seq<char>>) -> Option<T>,
) -> Result<Seq<T>, Seq<char>>
    decreases rs.len() - i,
{
    if i < 0 || i >= rs.len() {
        Ok(seq![])
    } else if i < skip {
        rows_from(rs, i + 1, skip, f)
    } else {
        match rs[i] {
            Err(m) => Err(m),
            Ok(rec) => match rows_from(rs, i + 1, skip, f) {
                Err(m) => Err(m),
                Ok(rest) => match f(rec) {
                    Some(x) => Ok(seq![x] + rest),
                    None => Ok(rest),
                },
            },
        }
    }
}

/// The records `done` followed by those of `rest`, or the error of `rest`.
pub open spec fn then_rows<T>(done: Seq<T>, rest: Result<Seq<T>, Seq<char>>) -> Result<
    Seq<T>,
    Seq<char>,
> {
    match rest {
        Ok(r) => Ok(done + r),
        Err(m) => Err(m),
    }
}

/// The view of a result that lists area records.
pub open spec fn code_data_result(r: AreaResult<Vec<AreaCodeData>>) -> Result<
    Seq<AreaCodeDataView>,
    AreaErrorView,
> {
    match r {
        Ok(v) => Ok(Seq::new(v@.len(), |i: int| v@[i]@)),
        Err(e) => Err(e@),
    }
}

/// The view of a result that lists geometry records.
pub open spec fn geo_data_result(r: AreaResult<Vec<AreaGeoData>>) -> Result<
    Seq<AreaGeoDataView>,
    AreaErrorView,
> {
    match r {
        Ok(v) => Ok(Seq::new(v@.len(), |i: int| v@[i]@)),
        Err(e) => Err(e@),
    }
}

/// A rows-result as a records-result, a reader error becoming `AreaError::DB`.
pub open spec fn db_result<T>(r: Result<Seq<T>, Seq<char>>) -> Result<Seq<T>, AreaErrorView> {
    match r {
        Ok(v) => Ok(v),
        Err(m) => Err(AreaErrorView::DB(m)),
    }
}

/// The content of field `i` of `rec`, or the empty string.
fn field_string(rec: &Vec<String>, i: usize) -> (r: String)
    ensures
        r@ == field_or_empty(Seq::new(rec@.len(), |j: int| rec@[j]@), i as int),
{
    if i < rec.len() {
        rec[i].clone()
    } else {
        String::new()
    }
}

impl CsvAreaCodeData {
    /// The record that a CSV row gives under this layout (`csv_code_row`).
    fn code_row(&self, rec: &Vec<String>) -> (r: Option<AreaCodeData>)
        ensures
            match r {
                Some(d) => csv_code_row(self@, Seq::new(rec@.len(), |j: int| rec@[j]@)) == Some(d@),
                None => csv_code_row(self@, Seq::new(rec@.len(), |j: int| rec@[j]@)) is None,
            },
    {
        let ghost rv = Seq::new(rec@.len(), |j: int| rec@[j]@);
        let ci = self.column_code as usize;
        if ci >= rec.len() {
            return None;
        }
        let code = rec[ci].clone();
        if code.as_str().is_empty() {
            return None;
        }
        let hide = field_string(rec, self.column_hide as usize);
        let name = field_string(rec, self.column_name as usize);
        let ghost parts = Seq::new(
            self@.column_key_word.len(),
            |i: int| pieces(field_or_empty(rv, self@.column_key_word[i] as int), '|'),
        );
        let mut key_word: Vec<String> = Vec::new();
        let mut k: usize = 0;
        assert(Seq::new(key_word@.len(), |j: int| key_word@[j]@) =~= concat_all(parts.take(0)));
        while k < self.column_key_word.len()
            invariant
                rv == Seq::new(rec@.len(), |j: int| rec@[j]@),
                parts == Seq::new(
                    self@.column_key_word.len(),
                    |i: int| pieces(field_or_empty(rv, self@.column_key_word[i] as int), '|'),
                ),
                self@.column_key_word.len() == self.column_key_word.len(),
                k <= self.column_key_word.len(),
                Seq::new(key_word@.len(), |j: int| key_word@[j]@) == concat_all(parts.take(k as int)),
            decreases self.column_key_word.len() - k,
        {
            let cell = field_string(rec, self.column_key_word[k] as usize);
            let ps = split_pieces(cell.as_str(), '|');
            assert(parts[k as int] == Seq::new(ps@.len(), |j: int| ps@[j]@));
            let ghost before = key_word@;
            let mut j: usize = 0;
            while j < ps.len()
                invariant
                    j <= ps.len(),
                    Seq::new(key_word@.len(), |m: int| key_word@[m]@) == Seq::new(
                        before.len(),
                        |m: int| before[m]@,
                    ) + Seq::new(ps@.len(), |m: int| ps@[m]@).take(j as int),
                decreases ps.len() - j,
            {
                let ghost kb = key_word@;
                key_word.push(ps[j].clone());
                assert(Seq::new(key_word@.len(), |m: int| key_word@[m]@) =~= Seq::new(
                    kb.len(),
                    |m: int| kb[m]@,
                ).push(ps@[j as int]@));
                assert(Seq::new(ps@.len(), |m: int| ps@[m]@).take(j + 1) =~= Seq::new(
                    ps@.len(),
                    |m: int| ps@[m]@,
                ).take(j as int).push(ps@[j as int]@));
                j = j + 1;
            }
            assert(Seq::new(ps@.len(), |m: int| ps@[m]@).take(ps.len() as int) =~= Seq::new(
                ps@.len(),
                |m: int| ps@[m]@,
            ));
            assert(parts.take(k + 1).drop_last() =~= parts.take(k as int));
            k = k + 1;
        }
        assert(parts.take(self.column_key_word.len() as int) =~= parts);
        let one = String::from_str("1");
        proof {
            reveal_strlit("1");
        }
        let hidden = hide == one || name.as_str().is_empty();
        let d = AreaCodeData { code, hide: hidden, name, key_word };
        assert(d@.key_word =~= concat_all(parts));
        Some(d)
    }

    /// The records of the CSV text `csv_text` under this layout: the rows after
    /// the first `skip`, each through `csv_code_row`; a reader error of one of
    /// those rows makes the whole an `AreaError::DB` with its message.
    pub fn parse_code_text(&self, csv_text: &str) -> (r: AreaResult<Vec<AreaCodeData>>)
        ensures
            code_data_result(r) == db_result(
                rows_from(
                    csv_records(csv_text@),
                    0,
                    self@.skip,
                    |rec: Seq<Seq<char>>| csv_code_row(self@, rec),
                ),
            ),
    {
        let rs = read_csv_records(csv_text);
        let ghost rv = records_view(rs@);
        let ghost f = |rec: Seq<Seq<char>>| csv_code_row(self@, rec);
        let mut out: Vec<AreaCodeData> = Vec::new();
        let mut i: usize = 0;
        assert(Seq::new(out@.len(), |k: int| out@[k]@) + Seq::<AreaCodeDataView>::empty() =~= Seq::<AreaCodeDataView>::empty());
        assert(then_rows(Seq::new(out@.len(), |k: int| out@[k]@), rows_from(rv, 0, self@.skip, f))
            == rows_from(rv, 0, self@.skip, f)) by {
            match rows_from(rv, 0, self@.skip, f) {
                Ok(x) => {
                    assert(Seq::new(out@.len(), |k: int| out@[k]@) + x =~= x);
                },
                Err(_) => {},
            }
        }
        while i < rs.len()
            invariant
                rv == records_view(rs@),
                rv == csv_records(csv_text@),
                f == (|rec: Seq<Seq<char>>| csv_code_row(self@, rec)),
                i <= rs.len(),
                rows_from(rv, 0, self@.skip, f) == then_rows(
                    Seq::new(out@.len(), |k: int| out@[k]@),
                    rows_from(rv, i as int, self@.skip, f),
                ),
            decreases rs.len() - i,
        {
            if i >= self.skip {
                match &rs[i] {
                    Err(m) => {
                        return Err(AreaError::DB(m.clone()));
                    },
                    Ok(rec) => {
                        let ghost before = Seq::new(out@.len(), |k: int| out@[k]@);
                        match self.code_row(rec) {
                            Some(d) => {
                                out.push(d);
                                assert(Seq::new(out@.len(), |k: int| out@[k]@) =~= before.push(
                                    out@.last()@,
                                ));
                                proof {
                                    match rows_from(rv, i + 1, self@.skip, f) {
                                        Ok(rest) => {
                                            assert(before + (seq![out@.last()@] + rest) =~= Seq::new(
                                                out@.len(),
                                                |k: int| out@[k]@,
                                            ) + rest);
                                        },
                                        Err(_) => {},
                                    }
                                }
                            },
                            None => {},
                        }
                    },
                }
            }
            i = i + 1;
        }
        assert(then_rows(Seq::new(out@.len(), |k: int| out@[k]@), rows_from(rv, i as int, self@.skip, f))
            == Ok::<Seq<AreaCodeDataView>, Seq<char>>(Seq::new(out@.len(), |k: int| out@[k]@))) by {
            assert(Seq::new(out@.len(), |k: int| out@[k]@) + Seq::<AreaCodeDataView>::empty() =~= Seq::new(out@.len(), |k: int| out@[k]@));
        }
        Ok(out)
    }
}


/// How the geometry records of areas are laid out in a CSV text.
pub struct CsvAreaGeoData {
    csv_data: Option<PathBuf>,
    skip: usize,
    column_code: u8,
    column_center: u8,
    column_polygon: u8,
    code_len: Vec<usize>,
}

/// The layout of a CSV text of geometry records.
pub struct CsvGeoLayout {
    pub csv_data: Option<PathBuf>,
    pub skip: nat,
    pub column_code: nat,
    pub column_center: nat,
    pub column_polygon: nat,
    pub code_len: Seq<nat>,
}

impl View for CsvAreaGeoData {
    type V = CsvGeoLayout;

    closed spec fn view(&self) -> CsvGeoLayout {
        CsvGeoLayout {
            csv_data: self.csv_data,
            skip: self.skip as nat,
            column_code: self.column_code as nat,
            column_center: self.column_center as nat,
            column_polygon: self.column_polygon as nat,
            code_len: Seq::new(self.code_len@.len(), |i: int| self.code_len@[i] as nat),
        }
    }
}

impl CsvAreaGeoData {
    /// A layout with the file `csv_data`, `skip` leading rows to pass over,
    /// the columns (from 0) of the code, the centre and the outline, and the
    /// byte lengths a code must have for its row to count.
    pub fn from_path(
        csv_data: PathBuf,
        skip: usize,
        column_code: u8,
        column_center: u8,
        column_polygon: u8,
        code_len: Vec<usize>,
    ) -> (r: Self)
        ensures
            r@.csv_data == Some(csv_data),
            r@.skip == skip,
            r@.column_code == column_code,
            r@.column_center == column_center,
            r@.column_polygon == column_polygon,
            r@.code_len == Seq::new(code_len@.len(), |i: int| code_len@[i] as nat),
    {
        CsvAreaGeoData { csv_data: Some(csv_data), skip, column_code, column_center, column_polygon, code_len }
    }

    /// The layout of the bundled data: one header row, then code, centre and
    /// outline; only codes of 1 or 6 bytes count.
    pub fn create_inner_data(csv_data: Option<PathBuf>) -> (r: Self)
        ensures
            r@ == Self::create_inner_data_spec(csv_data),
    {
        let mut lens: Vec<usize> = Vec::new();
        lens.push(1);
        lens.push(6);
        let r = CsvAreaGeoData {
            csv_data,
            skip: 1,
            column_code: 0,
            column_center: 1,
            column_polygon: 2,
            code_len: lens,
        };
        assert(r@.code_len =~= seq![1nat, 6nat]);
        r
    }

    /// The layout `create_inner_data` gives.
    pub open spec fn create_inner_data_spec(csv_data: Option<PathBuf>) -> CsvGeoLayout {
        CsvGeoLayout {
            csv_data,
            skip: 1,
            column_code: 0,
            column_center: 1,
            column_polygon: 2,
            code_len: seq![1nat, 6nat],
        }
    }

    /// The layout of the bundled data, with no file: the text comes from the
    /// data built into the program.
    pub fn from_inner_data() -> (r: AreaResult<Self>)
        ensures
            r matches Ok(c) && c@ == Self::create_inner_data_spec(None),
    {
        Ok(Self::create_inner_data(None))
    }

    /// The file of the layout, if it names one.
    pub fn csv_data(&self) -> (r: &Option<PathBuf>)
        ensures
            *r == self@.csv_data,
    {
        &self.csv_data
    }

    /// Whether a code of `n` bytes counts under this layout.
    fn counts_len(&self, n: u128) -> (r: bool)
        ensures
            r == self@.code_len.contains(n as nat),
    {
        let mut i: usize = 0;
        while i < self.code_len.len()
            invariant
                i <= self.code_len.len(),
                self@.code_len.len() == self.code_len.len(),
                forall|j: int| 0 <= j < i ==> self@.code_len[j] != n as nat,
            decreases self.code_len.len() - i,
        {
            if self.code_len[i] as u128 == n {
                assert(self@.code_len[i as int] == n as nat);
                return true;
            }
            i = i + 1;
        }
        false
    }

    /// The record that a CSV row gives under this layout (`csv_geo_row`).
    fn geo_row(&self, rec: &Vec<String>) -> (r: Option<AreaGeoData>)
        ensures
            match r {
                Some(d) => csv_geo_row(self@, Seq::new(rec@.len(), |j: int| rec@[j]@)) == Some(d@),
                None => csv_geo_row(self@, Seq::new(rec@.len(), |j: int| rec@[j]@)) is None,
            },
    {
        let ci = self.column_code as usize;
        if ci >= rec.len() {
            return None;
        }
        let code = rec[ci].clone();
        let n = utf8_len_wide(&chars_of(code.as_str()));
        if !self.counts_len(n) {
            return None;
        }
        let center = field_string(rec, self.column_center as usize);
        let polygon = field_string(rec, self.column_polygon as usize);
        let mut item: Vec<AreaGeoDataItem> = Vec::new();
        item.push(AreaGeoDataItem { center, polygon });
        let d = AreaGeoData { code, item };
        assert(d@.item =~= seq![GeoItemView { center: d.item@[0].center@, polygon: d.item@[0].polygon@ }]);
        Some(d)
    }

    /// The records of the CSV text `csv_text` under this layout: the rows after
    /// the first `skip`, each through `csv_geo_row`; a reader error of one of
    /// those rows makes the whole an `AreaError::DB` with its message.
    pub fn parse_geo_text(&self, csv_text: &str) -> (r: AreaResult<Vec<AreaGeoData>>)
        ensures
            geo_data_result(r) == db_result(
                rows_from(
                    csv_records(csv_text@),
                    0,
                    self@.skip,
                    |rec: Seq<Seq<char>>| csv_geo_row(self@, rec),
                ),
            ),
    {
        let rs = read_csv_records(csv_text);
        let ghost rv = records_view(rs@);
        let ghost f = |rec: Seq<Seq<char>>| csv_geo_row(self@, rec);
        let mut out: Vec<AreaGeoData> = Vec::new();
        let mut i: usize = 0;
        assert(then_rows(Seq::new(out@.len(), |k: int| out@[k]@), rows_from(rv, 0, self@.skip, f))
            == rows_from(rv, 0, self@.skip, f)) by {
            match rows_from(rv, 0, self@.skip, f) {
                Ok(x) => {
                    assert(Seq::new(out@.len(), |k: int| out@[k]@) + x =~= x);
                },
                Err(_) => {},
            }
        }
        while i < rs.len()
            invariant
                rv == records_view(rs@),
                rv == csv_records(csv_text@),
                f == (|rec: Seq<Seq<char>>| csv_geo_row(self@, rec)),
                i <= rs.len(),
                rows_from(rv, 0, self@.skip, f) == then_rows(
                    Seq::new(out@.len(), |k: int| out@[k]@),
                    rows_from(rv, i as int, self@.skip, f),
                ),
            decreases rs.len() - i,
        {
            if i >= self.skip {
                match &rs[i] {
                    Err(m) => {
                        return Err(AreaError::DB(m.clone()));
                    },
                    Ok(rec) => {
                        let ghost before = Seq::new(out@.len(), |k: int| out@[k]@);
                        match self.geo_row(rec) {
                            Some(d) => {
                                out.push(d);
                                assert(Seq::new(out@.len(), |k: int| out@[k]@) =~= before.push(
                                    out@.last()@,
                                ));
                                proof {
                                    match rows_from(rv, i + 1, self@.skip, f) {
                                        Ok(rest) => {
                                            assert(before + (seq![out@.last()@] + rest) =~= Seq::new(
                                                out@.len(),
                                                |k: int| out@[k]@,
                                            ) + rest);
                                        },
                                        Err(_) => {},
                                    }
                                }
                            },
                            None => {},
                        }
                    },
                }
            }
            i = i + 1;
        }
        assert(then_rows(Seq::new(out@.len(), |k: int| out@[k]@), rows_from(rv, i as int, self@.skip, f))
            == Ok::<Seq<AreaGeoDataView>, Seq<char>>(Seq::new(out@.len(), |k: int| out@[k]@))) by {
            assert(Seq::new(out@.len(), |k: int| out@[k]@) + Seq::<AreaGeoDataView>::empty() =~= Seq::new(out@.len(), |k: int| out@[k]@));
        }
        Ok(out)
    }
}

/// The geometry record a row of a CSV text gives under layout `cfg`: none
/// where the code column is missing or the code's length in bytes is not one
/// of the layout's; otherwise the code with one item of its centre and outline
/// (empty where the row lacks them).
pub open spec fn csv_geo_row(cfg: CsvGeoLayout, rec: Seq<Seq<char>>) -> Option<AreaGeoDataView> {
    match field(rec, cfg.column_code as int) {
        None => None,
        Some(code) => if !cfg.code_len.contains(utf8_len(code)) {
            None
        } else {
            Some(
                AreaGeoDataView {
                    code,
                    item: seq![
                        GeoItemView {
                            center: field_or_empty(rec, cfg.column_center as int),
                            polygon: field_or_empty(rec, cfg.column_polygon as int),
                        },
                    ],
                },
            )
        },
    }
}

/// Whether a data file changed since it was loaded: both times known and the
/// file's modification time later than the time recorded at loading.
pub fn data_changed(modified: Option<u64>, loaded: Option<u64>) -> (r: bool)
    ensures
        r == (modified matches Some(lt) && loaded matches Some(st) && lt > st),
{
    match (modified, loaded) {
        (Some(lt), Some(st)) => lt > st,
        _ => false,
    }
}


/// What gzip decoding gives for the bytes `data`: the decoded bytes, or the
/// message of the error that stopped it.
pub uninterp spec fn gz_decode(data: Seq<u8>) -> Result<Seq<u8>, Seq<char>>;

/// The bytes that `flate2::read::GzDecoder` reads out of the gzip data `data`
/// up to its end, or the message of the I/O error that stopped it. The
/// decoding itself is named, not stated: `gz_decode`.
#[verifier::external_body]
fn gz_read(data: &[u8]) -> (r: Result<Vec<u8>, String>)
    ensures
        match r {
            Ok(v) => gz_decode(data@) == Ok::<Seq<u8>, Seq<char>>(v@),
            Err(e) => gz_decode(data@) == Err::<Seq<u8>, Seq<char>>(e@),
        },
{
    let mut out = Vec::new();
    match flate2::read::GzDecoder::new(data).read_to_end(&mut out) {
        Ok(_) => Ok(out),
        Err(e) => Err(e.to_string()),
    }
}

/// The gzip data `zip_data` decoded; an error of the decoder becomes
/// `AreaError::System` with its message.
pub fn de_gz_data(zip_data: Vec<u8>) -> (r: AreaResult<Vec<u8>>)
    ensures
        match r {
            Ok(v) => gz_decode(zip_data@) == Ok::<Seq<u8>, Seq<char>>(v@),
            Err(e) => gz_decode(zip_data@) matches Err(m) && e@ == AreaErrorView::System(m),
        },
{
    match gz_read(zip_data.as_slice()) {
        Ok(v) => Ok(v),
        Err(m) => Err(AreaError::System(m)),
    }
}

} // verus!
