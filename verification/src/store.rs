//! In-memory stores of the area index: the information kept per code, and
//! the tree of code levels with the children of each node.
use vstd::prelude::*;
use crate::area_code::{add_levels, contains_path, has_children, has_children_exec, is_child, is_child_exec, path_views, TreePath};
use crate::error::{AreaError, AreaErrorView, AreaResult};
use std::path::PathBuf;
use crate::text::{append_chars, chars_of, copy_chars, string_of, take_views, views};

verus! {

/// What the index keeps for one code: whether it is hidden, and its name.
#[derive(Clone)]
pub struct AreaCodeIndexInfo {
    pub hide: bool,
    pub name: String,
}

/// An `AreaCodeIndexInfo` with its name as characters.
pub struct IndexInfoView {
    pub hide: bool,
    pub name: Seq<char>,
}

impl View for AreaCodeIndexInfo {
    type V = IndexInfoView;

    open spec fn view(&self) -> IndexInfoView {
        IndexInfoView { hide: self.hide, name: self.name@ }
    }
}

/// A copy of an index entry.
fn copy_info(x: &AreaCodeIndexInfo) -> (r: AreaCodeIndexInfo)
    ensures
        r@ == x@,
{
    AreaCodeIndexInfo { hide: x.hide, name: x.name.clone() }
}

/// The map that a list of (code, entry) rows gives, a later row of a code
/// taking the place of an earlier one.
pub open spec fn rows_map(rows: Seq<(Seq<char>, IndexInfoView)>) -> Map<Seq<char>, IndexInfoView>
    decreases rows.len(),
{
    if rows.len() == 0 {
        Map::empty()
    } else {
        rows_map(rows.drop_last()).insert(rows.last().0, rows.last().1)
    }
}

/// Whether no code occurs twice among the rows.
pub open spec fn keys_distinct(rows: Seq<(Seq<char>, IndexInfoView)>) -> bool {
    forall|i: int, j: int| 0 <= i < j < rows.len() ==> #[trigger] rows[i].0 != #[trigger] rows[j].0
}

/// The entry of row `i` is what the map gives for its code.
pub(crate) proof fn lemma_rows_map_has(rows: Seq<(Seq<char>, IndexInfoView)>, i: int)
    requires
        keys_distinct(rows),
        0 <= i < rows.len(),
    ensures
        rows_map(rows).contains_key(rows[i].0),
        rows_map(rows)[rows[i].0] == rows[i].1,
    decreases rows.len(),
{
    if i < rows.len() - 1 {
        let d = rows.drop_last();
        assert(d[i] == rows[i]);
        assert(keys_distinct(d)) by {
            assert forall|a: int, b: int| 0 <= a < b < d.len() implies #[trigger] d[a].0 != #[trigger] d[b].0 by {
                assert(d[a] == rows[a] && d[b] == rows[b]);
            }
        }
        lemma_rows_map_has(d, i);
        assert(rows[i].0 != rows[rows.len() - 1].0);
    }
}

/// A code that no row has is not in the map.
pub(crate) proof fn lemma_rows_map_missing(rows: Seq<(Seq<char>, IndexInfoView)>, k: Seq<char>)
    requires
        forall|i: int| 0 <= i < rows.len() ==> #[trigger] rows[i].0 != k,
    ensures
        !rows_map(rows).contains_key(k),
    decreases rows.len(),
{
    if rows.len() > 0 {
        let d = rows.drop_last();
        assert forall|i: int| 0 <= i < d.len() implies #[trigger] d[i].0 != k by {
            assert(d[i] == rows[i]);
        }
        lemma_rows_map_missing(d, k);
        assert(rows[rows.len() - 1].0 != k);
    }
}

/// Replacing the entry of the row of code `k` sets `k` in the map.
proof fn lemma_rows_map_update(rows: Seq<(Seq<char>, IndexInfoView)>, i: int, v: IndexInfoView)
    requires
        keys_distinct(rows),
        0 <= i < rows.len(),
    ensures
        rows_map(rows.update(i, (rows[i].0, v))) == rows_map(rows).insert(rows[i].0, v),
    decreases rows.len(),
{
    let k = rows[i].0;
    let u = rows.update(i, (k, v));
    if i == rows.len() - 1 {
        assert(u.drop_last() =~= rows.drop_last());
        assert(rows_map(u) =~= rows_map(rows).insert(k, v));
    } else {
        let d = rows.drop_last();
        assert(keys_distinct(d)) by {
            assert forall|a: int, b: int| 0 <= a < b < d.len() implies #[trigger] d[a].0 != #[trigger] d[b].0 by {
                assert(d[a] == rows[a] && d[b] == rows[b]);
            }
        }
        assert(d[i] == rows[i]);
        lemma_rows_map_update(d, i, v);
        assert(u.drop_last() =~= d.update(i, (k, v)));
        assert(u.last() == rows.last());
        assert(rows.last().0 != k);
        assert(rows_map(u) =~= rows_map(rows).insert(k, v));
    }
}

/// The index of the row of `key` among `hash`, if there is one.
fn find_row(hash: &Vec<(String, AreaCodeIndexInfo)>, key: &String) -> (r: Option<usize>)
    ensures
        match r {
            Some(i) => i < hash.len() && hash@[i as int].0@ == key@,
            None => forall|i: int| 0 <= i < hash.len() ==> #[trigger] hash@[i].0@ != key@,
        },
{
    let mut i: usize = 0;
    while i < hash.len()
        invariant
            i <= hash.len(),
            forall|j: int| 0 <= j < i ==> #[trigger] hash@[j].0@ != key@,
        decreases hash.len() - i,
    {
        if hash[i].0 == *key {
            return Some(i);
        }
        i = i + 1;
    }
    None
}

/// The codes and entries of an index store, and the version it was saved as.
pub struct IndexDataView {
    pub map: Map<Seq<char>, IndexInfoView>,
    pub version: Seq<char>,
}

/// An index store that keeps its entries in memory, one per code.
pub struct AreaCodeIndexDataHashMap {
    hash: Vec<(String, AreaCodeIndexInfo)>,
    version: String,
}

impl AreaCodeIndexDataHashMap {
    /// The rows of the store, as views.
    closed spec fn rows(&self) -> Seq<(Seq<char>, IndexInfoView)> {
        Seq::new(self.hash@.len(), |i: int| (self.hash@[i].0@, self.hash@[i].1@))
    }

    /// No code is kept twice.
    #[verifier::type_invariant]
    closed spec fn rows_distinct(&self) -> bool {
        keys_distinct(self.rows())
    }
}

impl View for AreaCodeIndexDataHashMap {
    type V = IndexDataView;

    closed spec fn view(&self) -> IndexDataView {
        IndexDataView { map: rows_map(self.rows()), version: self.version@ }
    }
}

impl Default for AreaCodeIndexDataHashMap {
    /// An empty store with an empty version.
    fn default() -> (r: Self)
        ensures
            r@.map == Map::<Seq<char>, IndexInfoView>::empty(),
            r@.version == Seq::<char>::empty(),
    {
        let r = AreaCodeIndexDataHashMap { hash: Vec::new(), version: String::new() };
        assert(r.rows() =~= Seq::<(Seq<char>, IndexInfoView)>::empty());
        r
    }
}

impl AreaCodeIndexDataHashMap {
    /// Keeps `val` for the code `key`, in place of what was kept for it.
    pub fn set(&mut self, key: String, val: AreaCodeIndexInfo) -> (r: AreaResult<()>)
        ensures
            r is Ok,
            final(self)@.map == old(self)@.map.insert(key@, val@),
            final(self)@.version == old(self)@.version,
    {
        proof {
            use_type_invariant(&*self);
        }
        let ghost old_rows = self.rows();
        let mut hash: Vec<(String, AreaCodeIndexInfo)> = Vec::new();
        std::mem::swap(&mut hash, &mut self.hash);
        let ghost kv = key@;
        let ghost vv = val@;
        match find_row(&hash, &key) {
            Some(i) => {
                assert(old_rows[i as int].0 == kv);
                proof {
                    lemma_rows_map_update(old_rows, i as int, vv);
                }
                hash.set(i, (key, val));
                let ghost nr = Seq::new(hash@.len(), |j: int| (hash@[j].0@, hash@[j].1@));
                assert(nr =~= old_rows.update(i as int, (kv, vv)));
                assert(keys_distinct(nr)) by {
                    assert forall|a: int, b: int| 0 <= a < b < nr.len() implies #[trigger] nr[a].0 != #[trigger] nr[b].0 by {
                        assert(nr[a].0 == old_rows[a].0 && nr[b].0 == old_rows[b].0);
                    }
                }
            },
            None => {
                hash.push((key, val));
                let ghost nr = Seq::new(hash@.len(), |j: int| (hash@[j].0@, hash@[j].1@));
                assert(nr =~= old_rows.push((kv, vv)));
                assert(nr.drop_last() =~= old_rows);
                assert(keys_distinct(nr)) by {
                    assert forall|a: int, b: int| 0 <= a < b < nr.len() implies #[trigger] nr[a].0 != #[trigger] nr[b].0 by {
                        assert(nr[a] == old_rows[a]);
                        assert(old_rows[a].0 == hash@[a].0@);
                        if b < nr.len() - 1 {
                            assert(nr[b] == old_rows[b]);
                        }
                    }
                }
            },
        }
        self.hash = hash;
        Ok(())
    }

    /// Forgets every entry; the version stays.
    pub fn clear(&mut self) -> (r: AreaResult<()>)
        ensures
            r is Ok,
            final(self)@.map == Map::<Seq<char>, IndexInfoView>::empty(),
            final(self)@.version == old(self)@.version,
    {
        self.hash = Vec::new();
        assert(self.rows() =~= Seq::<(Seq<char>, IndexInfoView)>::empty());
        Ok(())
    }

    /// A copy of what is kept for the code `key`, if anything.
    pub fn get(&self, key: &str) -> (r: Option<AreaCodeIndexInfo>)
        ensures
            match r {
                Some(x) => self@.map.contains_key(key@) && self@.map[key@] == x@,
                None => !self@.map.contains_key(key@),
            },
    {
        proof {
            use_type_invariant(self);
        }
        let k = String::from_str(key);
        match find_row(&self.hash, &k) {
            Some(i) => {
                proof {
                    assert(self.rows()[i as int].0 == key@);
                    lemma_rows_map_has(self.rows(), i as int);
                }
                Some(copy_info(&self.hash[i].1))
            },
            None => {
                proof {
                    assert forall|i: int| 0 <= i < self.rows().len() implies #[trigger] self.rows()[i].0 != key@ by {
                        assert(self.rows()[i].0 == self.hash@[i].0@);
                    }
                    lemma_rows_map_missing(self.rows(), key@);
                }
                None
            },
        }
    }

    /// Records `version` as the version of the kept entries.
    pub fn save(&mut self, version: &str) -> (r: AreaResult<()>)
        ensures
            r is Ok,
            final(self)@.map == old(self)@.map,
            final(self)@.version == version@,
    {
        proof {
            use_type_invariant(&*self);
        }
        self.version = String::from_str(version);
        Ok(())
    }

    /// The version last saved.
    pub fn version(&self) -> (r: String)
        ensures
            r@ == self@.version,
    {
        self.version.clone()
    }

    /// The kept entries, one per code, in the order in which their codes
    /// were first kept.
    pub fn entries(&self) -> (r: &Vec<(String, AreaCodeIndexInfo)>)
        ensures
            keys_distinct(crate::disk_format::index_rows_view(r@)),
            rows_map(crate::disk_format::index_rows_view(r@)) == self@.map,
    {
        proof {
            use_type_invariant(self);
            assert(crate::disk_format::index_rows_view(self.hash@) =~= self.rows());
        }
        &self.hash
    }
}


/// The texts of a list of string slices.
pub open spec fn strs_view(v: Seq<&str>) -> Seq<Seq<char>> {
    Seq::new(v.len(), |i: int| v[i]@)
}

/// Whether node `p` is in the tree of nodes `ps`: the root always is.
pub open spec fn node_present(ps: Seq<TreePath>, p: TreePath) -> bool {
    p.len() == 0 || ps.contains(p)
}

/// For the nodes of `qs` that lie directly below `p`, in order, the code of
/// the node and whether it has nodes below it in `ps`.
pub open spec fn tree_children(ps: Seq<TreePath>, qs: Seq<TreePath>, p: TreePath) -> Seq<(Seq<char>, bool)>
    decreases qs.len(),
{
    if qs.len() == 0 {
        seq![]
    } else {
        let rest = tree_children(ps, qs.drop_last(), p);
        if is_child(p, qs.last()) {
            rest.push((qs.last().last(), has_children(ps, qs.last())))
        } else {
            rest
        }
    }
}

/// The view of a list of (code, flag) pairs.
pub open spec fn pairs_view(v: Seq<(String, bool)>) -> Seq<(Seq<char>, bool)> {
    Seq::new(v.len(), |i: int| (v[i].0@, v[i].1))
}

/// A code tree: its nodes, each by the codes of its levels from the top, in
/// the order in which they were added.
pub struct AreaCodeIndexTreeItemHashMap {
    data: Vec<Vec<Vec<char>>>,
}

impl View for AreaCodeIndexTreeItemHashMap {
    type V = Seq<TreePath>;

    closed spec fn view(&self) -> Seq<TreePath> {
        path_views(self.data@)
    }
}

/// The nodes of a tree store, and the version it was saved as.
pub struct TreeStoreView {
    pub paths: Seq<TreePath>,
    pub version: Seq<char>,
}

/// A tree store of code levels kept in memory.
pub struct AreaCodeIndexTreeHashMap {
    data: AreaCodeIndexTreeItemHashMap,
    version: String,
}

impl View for AreaCodeIndexTreeHashMap {
    type V = TreeStoreView;

    closed spec fn view(&self) -> TreeStoreView {
        TreeStoreView { paths: self.data@, version: self.version@ }
    }
}

impl Default for AreaCodeIndexTreeHashMap {
    /// An empty tree with an empty version.
    fn default() -> (r: Self)
        ensures
            r@.paths == Seq::<TreePath>::empty(),
            r@.version == Seq::<char>::empty(),
    {
        let r = AreaCodeIndexTreeHashMap {
            data: AreaCodeIndexTreeItemHashMap { data: Vec::new() },
            version: String::new(),
        };
        assert(r@.paths =~= Seq::<TreePath>::empty());
        r
    }
}

/// The levels named by a list of string slices, as character vectors.
fn levels_of(code_data: &[&str]) -> (r: Vec<Vec<char>>)
    ensures
        views(r@) == strs_view(code_data@),
{
    let mut out: Vec<Vec<char>> = Vec::new();
    let mut i: usize = 0;
    while i < code_data.len()
        invariant
            i <= code_data.len(),
            views(out@) == strs_view(code_data@).take(i as int),
        decreases code_data.len() - i,
    {
        let c = chars_of(code_data[i]);
        let ghost before = out@;
        out.push(c);
        assert(views(out@) =~= views(before).push(c@));
        assert(strs_view(code_data@).take(i + 1) =~= strs_view(code_data@).take(i as int).push(
            code_data@[i as int]@,
        ));
        i = i + 1;
    }
    assert(strs_view(code_data@).take(code_data.len() as int) =~= strs_view(code_data@));
    out
}

impl AreaCodeIndexTreeHashMap {
    /// Forgets every node; the version stays.
    pub fn clear(&mut self) -> (r: AreaResult<()>)
        ensures
            r is Ok,
            final(self)@.paths == Seq::<TreePath>::empty(),
            final(self)@.version == old(self)@.version,
    {
        self.data = AreaCodeIndexTreeItemHashMap { data: Vec::new() };
        assert(self@.paths =~= Seq::<TreePath>::empty());
        Ok(())
    }

    /// Adds the node of the levels `code_data` and every node above it that
    /// the tree does not hold yet.
    pub fn add(&mut self, code_data: Vec<&str>) -> (r: AreaResult<()>)
        ensures
            r is Ok,
            final(self)@.paths == add_levels(
                old(self)@.paths,
                strs_view(code_data@),
                code_data@.len() as int,
            ),
            final(self)@.version == old(self)@.version,
    {
        let lv = levels_of(code_data.as_slice());
        let ghost lvv = views(lv@);
        let ghost start = self@.paths;
        let mut k: usize = 0;
        while k < lv.len()
            invariant
                k <= lv.len(),
                lvv == views(lv@),
                lvv.len() == lv.len(),
                self@.paths == add_levels(start, lvv, k as int),
                self@.version == old(self)@.version,
            decreases lv.len() - k,
        {
            let p = take_views(&lv, k + 1);
            if !contains_path(&self.data.data, &p) {
                let ghost before = self.data.data@;
                self.data.data.push(p);
                assert(path_views(self.data.data@) =~= path_views(before).push(views(p@)));
            }
            k = k + 1;
        }
        Ok(())
    }

    /// The children of the node of the levels `code_data`, each with whether
    /// it has children itself, in the order in which they were added; none
    /// where the tree does not hold that node.
    pub fn childs(&self, code_data: &[&str]) -> (r: Option<Vec<(String, bool)>>)
        ensures
            match r {
                None => !node_present(self@.paths, strs_view(code_data@)),
                Some(v) => node_present(self@.paths, strs_view(code_data@)) && pairs_view(v@)
                    == tree_children(self@.paths, self@.paths, strs_view(code_data@)),
            },
    {
        let p = levels_of(code_data);
        if p.len() > 0 && !contains_path(&self.data.data, &p) {
            return None;
        }
        let ghost ps = self@.paths;
        let mut out: Vec<(String, bool)> = Vec::new();
        let mut i: usize = 0;
        while i < self.data.data.len()
            invariant
                i <= self.data.data.len(),
                ps == path_views(self.data.data@),
                pairs_view(out@) == tree_children(ps, ps.take(i as int), views(p@)),
            decreases self.data.data.len() - i,
        {
            let q = &self.data.data[i];
            assert(ps.take(i + 1).drop_last() =~= ps.take(i as int));
            assert(ps.take(i + 1).last() == views(q@));
            if is_child_exec(&p, q) {
                let last = copy_chars(&q[q.len() - 1]);
                let code = string_of(last.as_slice());
                let below = has_children_exec(&self.data.data, q);
                let ghost before = out@;
                out.push((code, below));
                assert(pairs_view(out@) =~= pairs_view(before).push((views(q@).last(), below)));
            }
            i = i + 1;
        }
        assert(ps.take(self.data.data.len() as int) =~= ps);
        Some(out)
    }

    /// Records `version` as the version of the kept tree.
    pub fn save(&mut self, version: &str) -> (r: AreaResult<()>)
        ensures
            r is Ok,
            final(self)@.paths == old(self)@.paths,
            final(self)@.version == version@,
    {
        self.version = String::from_str(version);
        Ok(())
    }

    /// The version last saved.
    pub fn version(&self) -> (r: String)
        ensures
            r@ == self@.version,
    {
        self.version.clone()
    }
}


/// The index size a store gets where none is given.
pub const DEFAULT_INDEX_SIZE: usize = 500_000_000;

/// The full-text index settings of a store kept in memory: the memory, in
/// bytes, that its writer may use.
pub struct AreaCodeTantivyMemory {
    index_size: usize,
}

impl View for AreaCodeTantivyMemory {
    type V = usize;

    closed spec fn view(&self) -> usize {
        self.index_size
    }
}

impl AreaCodeTantivyMemory {
    /// The settings with a writer memory of `index_size` bytes.
    pub fn new(index_size: usize) -> (r: Self)
        ensures
            r@ == index_size,
    {
        AreaCodeTantivyMemory { index_size }
    }

    /// The writer memory, in bytes.
    pub fn index_size(&self) -> (r: usize)
        ensures
            r == self@,
    {
        self.index_size
    }
}

/// The stores of a code index kept in memory.
#[derive(Default)]
pub struct MemoryAreaCodeProvider {}

/// The settings of the stores kept in memory: the writer memory of the
/// full-text index, in bytes.
pub struct AreaStoreMemory {
    index_size: usize,
}

impl View for AreaStoreMemory {
    type V = usize;

    closed spec fn view(&self) -> usize {
        self.index_size
    }
}

impl AreaStoreMemory {
    /// The settings with a writer memory of `index_size` bytes.
    pub fn new(index_size: usize) -> (r: Self)
        ensures
            r@ == index_size,
    {
        AreaStoreMemory { index_size }
    }

    /// The writer memory, in bytes.
    pub fn index_size(&self) -> (r: usize)
        ensures
            r == self@,
    {
        self.index_size
    }
}

impl Default for AreaStoreMemory {
    /// The settings with a writer memory of 500 000 000 bytes.
    fn default() -> (r: Self)
        ensures
            r@ == DEFAULT_INDEX_SIZE,
    {
        AreaStoreMemory { index_size: DEFAULT_INDEX_SIZE }
    }
}

/// A directory and a writer memory, in bytes.
pub struct DiskSettingsView {
    pub path: PathBuf,
    pub index_size: usize,
}

/// The full-text index settings of a store kept on disk: its directory and
/// the memory, in bytes, that its writer may use.
pub struct AreaCodeTantivyDisk {
    path: PathBuf,
    index_size: usize,
}

impl View for AreaCodeTantivyDisk {
    type V = DiskSettingsView;

    closed spec fn view(&self) -> DiskSettingsView {
        DiskSettingsView { path: self.path, index_size: self.index_size }
    }
}

impl AreaCodeTantivyDisk {
    /// The settings with the directory `path` and a writer memory of
    /// `index_size` bytes.
    pub fn new(path: PathBuf, index_size: usize) -> (r: Self)
        ensures
            r@.path == path,
            r@.index_size == index_size,
    {
        AreaCodeTantivyDisk { path, index_size }
    }

    /// The directory of the index.
    pub fn path(&self) -> (r: &PathBuf)
        ensures
            *r == self@.path,
    {
        &self.path
    }

    /// The writer memory, in bytes.
    pub fn index_size(&self) -> (r: usize)
        ensures
            r == self@.index_size,
    {
        self.index_size
    }
}

/// The stores of a code index kept on disk.
pub struct DiskAreaCodeProvider {}

/// The settings of the stores kept on disk: the directory of their files and
/// the writer memory of the full-text index, in bytes.
pub struct AreaStoreDisk {
    dir: PathBuf,
    index_size: usize,
}

impl View for AreaStoreDisk {
    type V = DiskSettingsView;

    closed spec fn view(&self) -> DiskSettingsView {
        DiskSettingsView { path: self.dir, index_size: self.index_size }
    }
}

impl AreaStoreDisk {
    /// The settings with the directory `dir` and the writer memory
    /// `index_size`, 500 000 000 bytes where none is given.
    pub fn new(dir: PathBuf, index_size: Option<usize>) -> (r: Self)
        ensures
            r@.path == dir,
            r@.index_size == match index_size {
                Some(n) => n,
                None => DEFAULT_INDEX_SIZE,
            },
    {
        let size = match index_size {
            Some(n) => n,
            None => DEFAULT_INDEX_SIZE,
        };
        AreaStoreDisk { dir, index_size: size }
    }

    /// The directory of the store files.
    pub fn dir(&self) -> (r: &PathBuf)
        ensures
            *r == self@.path,
    {
        &self.dir
    }

    /// The writer memory, in bytes.
    pub fn index_size(&self) -> (r: usize)
        ensures
            r == self@.index_size,
    {
        self.index_size
    }
}

/// The decimal digit `d`.
pub open spec fn digit_char(d: nat) -> char {
    (d + 48) as char
}

/// The decimal notation of `n`, without leading zeros.
pub open spec fn decimal(n: nat) -> Seq<char>
    decreases n,
{
    if n < 10 {
        seq![digit_char(n)]
    } else {
        decimal(n / 10).push(digit_char(n % 10))
    }
}

/// Appends the decimal notation of `n` to `out`.
fn push_decimal(n: usize, out: &mut Vec<char>)
    ensures
        final(out)@ == old(out)@ + decimal(n as nat),
    decreases n,
{
    if n >= 10 {
        push_decimal(n / 10, out);
    }
    let d: u8 = (n % 10) as u8;
    out.push((d + 48u8) as char);
    proof {
        assert(decimal(n as nat) == if n < 10 {
            seq![digit_char(n as nat)]
        } else {
            decimal((n / 10) as nat).push(digit_char((n % 10) as nat))
        });
    }
}

/// The message of an index past the end of a stored table of `max_len` rows.
pub open spec fn index_message(max_len: nat, index: nat) -> Seq<char> {
    "max is :"@ + decimal(max_len) + ",your submit index is:"@ + decimal(index)
}

/// Whether row `index` of a stored table of `max_len` rows can be read: an
/// empty table and an index past its end are `AreaError::Store` errors.
pub fn mmap_check_index(max_len: usize, index: usize) -> (r: AreaResult<()>)
    ensures
        max_len == 0 ==> (r matches Err(e) && e@ == AreaErrorView::Store("data is empty"@)),
        max_len > 0 && index >= max_len ==> (r matches Err(e) && e@ == AreaErrorView::Store(
            index_message(max_len as nat, index as nat),
        )),
        max_len > 0 && index < max_len ==> r is Ok,
{
    if max_len == 0 {
        return Err(AreaError::Store(String::from_str("data is empty")));
    }
    if index > max_len - 1 {
        let mut msg = chars_of("max is :");
        push_decimal(max_len, &mut msg);
        let mid = chars_of(",your submit index is:");
        append_chars(&mut msg, &mid);
        push_decimal(index, &mut msg);
        return Err(AreaError::Store(string_of(msg.as_slice())));
    }
    Ok(())
}

} // verus!
