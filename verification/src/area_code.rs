//! The area-code index: names by code, the tree of code levels, and the
//! lookups over them (children of a code, the areas along a code, the
//! choices at every level of a code).
use vstd::prelude::*;
use crate::code_path::{code_levels, code_ok, code_parse, lemma_level_code_ok};
use crate::error::{AreaError, AreaErrorView};
use crate::search_index::{
    append_cands, build_groups, cand_views, cands_ok, cpu_count, detail_entry_rows, details_ok, find_kw,
    fuzzy_cands_exec, group_rows, groups_ok, kw_rows, lemma_kw_first, lemma_kw_none, remove_words_exec,
    sort_cands_exec, split_ws_exec, tokens_exec, Candidate, DetailEntry, SearchGroup,
};
use crate::search_model::{
    check_name, detail_of, detail_walk, details_of, exact_cands, first_n, fix_pass, groups_of, level_sim,
    n_take, search_cands, search_items, search_ok, sort_cands, spec_search, DetailRow, GroupRow,
};
use crate::text::{
    append_chars, chars_of, copy_chars, ends_with, ends_with_chars, string_of, take_views, trim_end_matches,
    trim_end_matches_chars, views,
};

verus! {

/// One area as the caller sees it.
#[derive(Debug)]
pub struct AreaCodeItem {
    pub code: String,
    pub name: String,
    pub leaf: bool,
}

/// An area at one level of a code, marked when it lies on that code.
#[derive(Debug)]
pub struct AreaCodeDetailItem {
    pub selected: bool,
    pub item: AreaCodeItem,
}

/// The areas along one code that a search found, with the text it matched.
#[derive(Debug)]
pub struct AreaSearchItem {
    pub item: Vec<AreaCodeItem>,
    pub key_word: String,
}

/// One record of area data, as a data source delivers it.
#[derive(Debug)]
pub struct AreaCodeData {
    pub code: String,
    pub hide: bool,
    pub name: String,
    pub key_word: Vec<String>,
}

/// An `AreaCodeItem` with its text as characters.
pub struct ItemView {
    pub code: Seq<char>,
    pub name: Seq<char>,
    pub leaf: bool,
}

/// An `AreaCodeDetailItem` with its text as characters.
pub struct DetailItemView {
    pub selected: bool,
    pub item: ItemView,
}

/// An `AreaSearchItem` with its text as characters.
pub struct SearchItemView {
    pub item: Seq<ItemView>,
    pub key_word: Seq<char>,
}

/// An `AreaCodeData` with its text as characters.
pub struct AreaCodeDataView {
    pub code: Seq<char>,
    pub hide: bool,
    pub name: Seq<char>,
    pub key_word: Seq<Seq<char>>,
}

/// The character sequences held by a sequence of strings.
pub open spec fn string_views(s: Seq<String>) -> Seq<Seq<char>> {
    Seq::new(s.len(), |i: int| s[i]@)
}

impl View for AreaCodeItem {
    type V = ItemView;

    open spec fn view(&self) -> ItemView {
        ItemView { code: self.code@, name: self.name@, leaf: self.leaf }
    }
}

impl View for AreaCodeDetailItem {
    type V = DetailItemView;

    open spec fn view(&self) -> DetailItemView {
        DetailItemView { selected: self.selected, item: self.item@ }
    }
}

impl View for AreaSearchItem {
    type V = SearchItemView;

    open spec fn view(&self) -> SearchItemView {
        SearchItemView { item: item_views(self.item@), key_word: self.key_word@ }
    }
}

impl View for AreaCodeData {
    type V = AreaCodeDataView;

    open spec fn view(&self) -> AreaCodeDataView {
        AreaCodeDataView {
            code: self.code@,
            hide: self.hide,
            name: self.name@,
            key_word: string_views(self.key_word@),
        }
    }
}

/// The views of a sequence of items.
pub open spec fn item_views(s: Seq<AreaCodeItem>) -> Seq<ItemView> {
    Seq::new(s.len(), |i: int| s[i]@)
}

/// The views of a sequence of detail items.
pub open spec fn detail_views(s: Seq<AreaCodeDetailItem>) -> Seq<DetailItemView> {
    Seq::new(s.len(), |i: int| s[i]@)
}

/// The views of a sequence of area records.
pub open spec fn data_views(s: Seq<AreaCodeData>) -> Seq<AreaCodeDataView> {
    Seq::new(s.len(), |i: int| s[i]@)
}

/// The endings that are cut off an area's name when the index is built.
pub open spec fn area_clear_word() -> Seq<Seq<char>> {
    seq!["-"@, "社区居委会"@, "居委会"@, "片区街道"@, "街道办"@, "委会"@]
}

/// The endings cut off a name before it joins a search text.
pub open spec fn area_bad_word() -> Seq<Seq<char>> {
    seq![
        "-"@,
        "开发区"@,
        "自治县"@,
        "自治州"@,
        "自治区"@,
        "特别行政区"@,
        "自治区"@,
        "直辖县级行政区划"@,
        "村委会"@,
        "居委会"@,
        "省"@,
        "市"@,
        "县"@,
        "区"@,
        "镇"@,
        "乡"@,
        "村"@,
        "片区街道"@,
        "街道办"@,
    ]
}

/// `name` after each word of `words`, from index `i` on, that it ends with
/// is trimmed off its end.
pub open spec fn strip_endings(name: Seq<char>, words: Seq<Seq<char>>, i: int) -> Seq<char>
    decreases words.len() - i,
{
    if i < 0 || i >= words.len() {
        name
    } else {
        let next = if ends_with(name, words[i]) {
            trim_end_matches(name, words[i])
        } else {
            name
        };
        strip_endings(next, words, i + 1)
    }
}

/// The name an area is listed under: its name with the endings of
/// `area_clear_word` trimmed off in turn.
pub open spec fn listed_name(name: Seq<char>) -> Seq<char> {
    strip_endings(name, area_clear_word(), 0)
}

/// A name-table row: code, hidden flag, listed name.
pub type NameRow = (Seq<char>, bool, Seq<char>);

/// The hidden flag and name of the first row of `rows` with code `c`.
pub open spec fn lookup_name(rows: Seq<NameRow>, c: Seq<char>) -> Option<(bool, Seq<char>)>
    decreases rows.len(),
{
    if rows.len() == 0 {
        None
    } else {
        match lookup_name(rows.drop_last(), c) {
            Some(x) => Some(x),
            None => if rows.last().0 == c {
                Some((rows.last().1, rows.last().2))
            } else {
                None
            },
        }
    }
}

/// The name-table rows that the records of `data` give, in order.
pub open spec fn name_rows(data: Seq<AreaCodeDataView>) -> Seq<NameRow> {
    Seq::new(data.len(), |i: int| (data[i].code, data[i].hide, listed_name(data[i].name)))
}

/// A node of the code tree: the codes of the levels from the top down.
pub type TreePath = Seq<Seq<char>>;

/// `ps` with `p` added at the end unless it is there already.
pub open spec fn add_path(ps: Seq<TreePath>, p: TreePath) -> Seq<TreePath> {
    if ps.contains(p) {
        ps
    } else {
        ps.push(p)
    }
}

/// `ps` with the first `k` level-prefixes of `lv` added in turn.
pub open spec fn add_levels(ps: Seq<TreePath>, lv: Seq<Seq<char>>, k: int) -> Seq<TreePath>
    decreases k,
{
    if k <= 0 {
        ps
    } else {
        add_path(add_levels(ps, lv, k - 1), lv.take(k))
    }
}

/// The nodes of the code tree built from the codes `codes`, in the order in
/// which they first appear.
pub open spec fn tree_paths(codes: Seq<Seq<char>>) -> Seq<TreePath>
    decreases codes.len(),
{
    if codes.len() == 0 {
        seq![]
    } else {
        let lv = code_levels(codes.last());
        add_levels(tree_paths(codes.drop_last()), lv, lv.len() as int)
    }
}

/// The codes of the records of `data`.
pub open spec fn data_codes(data: Seq<AreaCodeDataView>) -> Seq<Seq<char>> {
    Seq::new(data.len(), |i: int| data[i].code)
}

/// Whether node `q` lies directly below node `p`.
pub open spec fn is_child(p: TreePath, q: TreePath) -> bool {
    q.len() == p.len() + 1 && q.take(p.len() as int) == p
}

/// Whether node `p` has a node directly below it in `ps`.
pub open spec fn has_children(ps: Seq<TreePath>, p: TreePath) -> bool {
    exists|i: int| 0 <= i < ps.len() && is_child(p, #[trigger] ps[i])
}

/// The item listed for node `q` among the children of a node: none where its
/// code has no name or is hidden.
pub open spec fn child_item(names: Seq<NameRow>, ps: Seq<TreePath>, q: TreePath) -> Option<
    ItemView,
> {
    match lookup_name(names, q.last()) {
        Some((hide, name)) => if hide {
            None
        } else {
            Some(ItemView { code: q.last(), name, leaf: !has_children(ps, q) })
        },
        None => None,
    }
}

/// The items listed for the nodes of `qs` that lie directly below `p`.
pub open spec fn child_items(
    names: Seq<NameRow>,
    ps: Seq<TreePath>,
    qs: Seq<TreePath>,
    p: TreePath,
) -> Seq<ItemView>
    decreases qs.len(),
{
    if qs.len() == 0 {
        seq![]
    } else {
        let rest = child_items(names, ps, qs.drop_last(), p);
        if is_child(p, qs.last()) {
            match child_item(names, ps, qs.last()) {
                Some(it) => rest.push(it),
                None => rest,
            }
        } else {
            rest
        }
    }
}

/// The message for a level `c` that is missing from the tree; `empty` when
/// the node above it has no children at all.
pub open spec fn not_find_message(c: Seq<char>, empty: bool) -> Seq<char> {
    if empty {
        "not find code:"@ + c + " [empty]"@
    } else {
        "not find code:"@ + c
    }
}

/// The error for the first level of `lv`, from `d` on, whose node is not in
/// the tree, if there is one.
pub open spec fn path_error(ps: Seq<TreePath>, lv: Seq<Seq<char>>, d: int) -> Option<Seq<char>>
    decreases lv.len() - d,
{
    if d < 0 || d >= lv.len() {
        None
    } else if !ps.contains(lv.take(d + 1)) {
        Some(not_find_message(lv[d], !has_children(ps, lv.take(d))))
    } else {
        path_error(ps, lv, d + 1)
    }
}

/// The item listed for node `q` along a code: a code without a name is listed
/// with an empty name, a hidden one not at all.
pub open spec fn find_item(names: Seq<NameRow>, ps: Seq<TreePath>, q: TreePath) -> Option<
    ItemView,
> {
    match lookup_name(names, q.last()) {
        Some((hide, name)) => if hide {
            None
        } else {
            Some(ItemView { code: q.last(), name, leaf: !has_children(ps, q) })
        },
        None => Some(ItemView { code: q.last(), name: seq![], leaf: !has_children(ps, q) }),
    }
}

/// The items listed along the first `k` levels of `lv`.
pub open spec fn find_items(names: Seq<NameRow>, ps: Seq<TreePath>, lv: Seq<Seq<char>>, k: int) -> Seq<
    ItemView,
>
    decreases k,
{
    if k <= 0 {
        seq![]
    } else {
        let rest = find_items(names, ps, lv, k - 1);
        match find_item(names, ps, lv.take(k)) {
            Some(it) => rest.push(it),
            None => rest,
        }
    }
}

/// The model of an `AreaCode`: its name table and the nodes of its tree.
pub struct AreaCodeModel {
    pub names: Seq<NameRow>,
    pub paths: Seq<TreePath>,
    pub groups: Seq<GroupRow>,
    pub details: Seq<DetailRow>,
}

/// What `AreaCode::childs` answers for `code`.
pub open spec fn spec_childs(m: AreaCodeModel, code: Seq<char>) -> Result<
    Seq<ItemView>,
    AreaErrorView,
> {
    let lv = code_levels(code);
    match path_error(m.paths, lv, 0) {
        Some(msg) => Err(AreaErrorView::NotFind(msg)),
        None => Ok(child_items(m.names, m.paths, m.paths, lv)),
    }
}

/// What `AreaCode::find` answers for `code`.
pub open spec fn spec_find(m: AreaCodeModel, code: Seq<char>) -> Result<
    Seq<ItemView>,
    AreaErrorView,
> {
    let lv = code_levels(code);
    match path_error(m.paths, lv, 0) {
        Some(msg) => Err(AreaErrorView::NotFind(msg)),
        None => Ok(find_items(m.names, m.paths, lv, lv.len() as int)),
    }
}

/// A row of `items` marked as lying on level code `c` where its code is `c`.
pub open spec fn mark_row(items: Seq<ItemView>, c: Option<Seq<char>>) -> Seq<DetailItemView> {
    Seq::new(
        items.len(),
        |i: int|
            DetailItemView {
                selected: match c {
                    Some(c) => items[i].code == c,
                    None => false,
                },
                item: items[i],
            },
    )
}

/// Whether the last item of `items` with code `c` is a leaf (false where
/// there is none).
pub open spec fn selected_leaf(items: Seq<ItemView>, c: Seq<char>) -> bool
    decreases items.len(),
{
    if items.len() == 0 {
        false
    } else if items.last().code == c {
        items.last().leaf
    } else {
        selected_leaf(items.drop_last(), c)
    }
}

/// The rows of `AreaCode::detail` from level `d` of `lv` on, where `now`
/// lists the choices at level `d`.
pub open spec fn detail_rows(m: AreaCodeModel, lv: Seq<Seq<char>>, d: int, now: Seq<ItemView>) -> Result<
    Seq<Seq<DetailItemView>>,
    AreaErrorView,
>
    decreases lv.len() - d,
{
    if d < 0 || d >= lv.len() {
        Ok(seq![mark_row(now, None)])
    } else {
        let row = mark_row(now, Some(lv[d]));
        if selected_leaf(now, lv[d]) {
            Ok(seq![row])
        } else {
            match spec_childs(m, lv[d]) {
                Err(e) => Err(e),
                Ok(next) => match detail_rows(m, lv, d + 1, next) {
                    Err(e) => Err(e),
                    Ok(rest) => Ok(seq![row] + rest),
                },
            }
        }
    }
}

/// What `AreaCode::detail` answers for `code`.
pub open spec fn spec_detail(m: AreaCodeModel, code: Seq<char>) -> Result<
    Seq<Seq<DetailItemView>>,
    AreaErrorView,
> {
    let lv = code_levels(code);
    if lv.len() == 0 {
        Ok(seq![])
    } else {
        match spec_childs(m, seq![]) {
            Err(e) => Err(e),
            Ok(top) => detail_rows(m, lv, 0, top),
        }
    }
}

/// A row of the name table.
struct NameEntry {
    code: Vec<char>,
    hide: bool,
    name: Vec<char>,
}

/// The rows held by a sequence of name-table entries.
closed spec fn entry_rows(s: Seq<NameEntry>) -> Seq<NameRow> {
    Seq::new(s.len(), |i: int| (s[i].code@, s[i].hide, s[i].name@))
}

/// The tree nodes held by a sequence of nested character vectors.
pub open spec fn path_views(s: Seq<Vec<Vec<char>>>) -> Seq<TreePath> {
    Seq::new(s.len(), |i: int| views(s[i]@))
}

/// The area-code index built from a list of area records.
pub struct AreaCode {
    names: Vec<NameEntry>,
    paths: Vec<Vec<Vec<char>>>,
    groups: Vec<SearchGroup>,
    details: Vec<DetailEntry>,
}

impl View for AreaCode {
    type V = AreaCodeModel;

    closed spec fn view(&self) -> AreaCodeModel {
        AreaCodeModel {
            names: entry_rows(self.names@),
            paths: path_views(self.paths@),
            groups: group_rows(self.groups@),
            details: detail_entry_rows(self.details@),
        }
    }
}

impl AreaCode {
    /// Every code held by the keyword index and the search texts can be split
    /// into levels.
    #[verifier::type_invariant]
    closed spec fn codes_held_ok(&self) -> bool {
        groups_ok(self.groups@) && details_ok(self.details@)
    }
}

/// A lookup finds the first row with the code.
proof fn lemma_lookup_first(rows: Seq<NameRow>, c: Seq<char>, i: int)
    requires
        0 <= i < rows.len(),
        rows[i].0 == c,
        forall|k: int| 0 <= k < i ==> rows[k].0 != c,
    ensures
        lookup_name(rows, c) == Some((rows[i].1, rows[i].2)),
    decreases rows.len(),
{
    if i < rows.len() - 1 {
        lemma_lookup_first(rows.drop_last(), c, i);
    } else {
        lemma_lookup_none(rows.drop_last(), c);
    }
}

/// A lookup of a code that no row holds finds nothing.
proof fn lemma_lookup_none(rows: Seq<NameRow>, c: Seq<char>)
    requires
        forall|k: int| 0 <= k < rows.len() ==> rows[k].0 != c,
    ensures
        lookup_name(rows, c) is None,
    decreases rows.len(),
{
    if rows.len() > 0 {
        lemma_lookup_none(rows.drop_last(), c);
    }
}

/// Whether two character vectors hold the same characters.
pub fn chars_eq(a: &Vec<char>, b: &Vec<char>) -> (r: bool)
    ensures
        r == (a@ == b@),
{
    if a.len() != b.len() {
        return false;
    }
    let mut i: usize = 0;
    while i < a.len()
        invariant
            a.len() == b.len(),
            i <= a.len(),
            forall|k: int| 0 <= k < i ==> a@[k] == b@[k],
        decreases a.len() - i,
    {
        if a[i] != b[i] {
            return false;
        }
        i = i + 1;
    }
    assert(a@ =~= b@);
    true
}

/// Whether the first `n` levels of `a` and `b` agree.
pub(crate) fn levels_agree(a: &Vec<Vec<char>>, b: &Vec<Vec<char>>, n: usize) -> (r: bool)
    requires
        n <= a.len(),
        n <= b.len(),
    ensures
        r == (views(a@).take(n as int) == views(b@).take(n as int)),
{
    let mut i: usize = 0;
    while i < n
        invariant
            n <= a.len(),
            n <= b.len(),
            i <= n,
            forall|k: int| 0 <= k < i ==> a@[k]@ == b@[k]@,
        decreases n - i,
    {
        if !chars_eq(&a[i], &b[i]) {
            assert(views(a@).take(n as int)[i as int] != views(b@).take(n as int)[i as int]);
            return false;
        }
        i = i + 1;
    }
    assert(views(a@).take(n as int) =~= views(b@).take(n as int));
    true
}

/// Whether node `q` lies directly below node `p`.
pub(crate) fn is_child_exec(p: &Vec<Vec<char>>, q: &Vec<Vec<char>>) -> (r: bool)
    ensures
        r == is_child(views(p@), views(q@)),
{
    if p.len() >= q.len() || q.len() - p.len() != 1 {
        return false;
    }
    let r = levels_agree(p, q, p.len());
    assert(views(p@).take(p.len() as int) =~= views(p@));
    r
}

/// Whether two nodes are the same.
pub(crate) fn path_eq(p: &Vec<Vec<char>>, q: &Vec<Vec<char>>) -> (r: bool)
    ensures
        r == (views(p@) == views(q@)),
{
    if p.len() != q.len() {
        return false;
    }
    let r = levels_agree(p, q, p.len());
    assert(views(p@).take(p.len() as int) =~= views(p@));
    assert(views(q@).take(q.len() as int) =~= views(q@));
    r
}

/// Whether `paths` holds node `p`.
pub(crate) fn contains_path(paths: &Vec<Vec<Vec<char>>>, p: &Vec<Vec<char>>) -> (r: bool)
    ensures
        r == path_views(paths@).contains(views(p@)),
{
    let mut i: usize = 0;
    while i < paths.len()
        invariant
            i <= paths.len(),
            forall|k: int| 0 <= k < i ==> path_views(paths@)[k] != views(p@),
        decreases paths.len() - i,
    {
        if path_eq(&paths[i], p) {
            assert(path_views(paths@)[i as int] == views(p@));
            return true;
        }
        i = i + 1;
    }
    false
}

/// Whether node `p` has a node directly below it in `paths`.
pub(crate) fn has_children_exec(paths: &Vec<Vec<Vec<char>>>, p: &Vec<Vec<char>>) -> (r: bool)
    ensures
        r == has_children(path_views(paths@), views(p@)),
{
    let mut i: usize = 0;
    while i < paths.len()
        invariant
            i <= paths.len(),
            forall|k: int| 0 <= k < i ==> !is_child(views(p@), #[trigger] path_views(paths@)[k]),
        decreases paths.len() - i,
    {
        if is_child_exec(p, &paths[i]) {
            assert(is_child(views(p@), path_views(paths@)[i as int]));
            return true;
        }
        i = i + 1;
    }
    false
}

/// The index of the first name-table entry with code `c`.
fn lookup_entry(names: &Vec<NameEntry>, c: &Vec<char>) -> (r: Option<usize>)
    ensures
        match r {
            Some(i) => i < names.len() && lookup_name(entry_rows(names@), c@) == Some(
                (names@[i as int].hide, names@[i as int].name@),
            ),
            None => lookup_name(entry_rows(names@), c@) is None,
        },
{
    let mut i: usize = 0;
    while i < names.len()
        invariant
            i <= names.len(),
            forall|k: int| 0 <= k < i ==> entry_rows(names@)[k].0 != c@,
        decreases names.len() - i,
    {
        if chars_eq(&names[i].code, c) {
            proof {
                lemma_lookup_first(entry_rows(names@), c@, i as int);
            }
            return Some(i);
        }
        i = i + 1;
    }
    proof {
        lemma_lookup_none(entry_rows(names@), c@);
    }
    None
}

/// The endings of `area_clear_word`.
fn area_clear_words() -> (r: Vec<Vec<char>>)
    ensures
        views(r@) == area_clear_word(),
        forall|i: int| 0 <= i < r.len() ==> r@[i].len() > 0,
{
    let mut v: Vec<Vec<char>> = Vec::new();
    v.push(chars_of("-"));
    v.push(chars_of("社区居委会"));
    v.push(chars_of("居委会"));
    v.push(chars_of("片区街道"));
    v.push(chars_of("街道办"));
    v.push(chars_of("委会"));
    proof {
        reveal_strlit("-");
        reveal_strlit("社区居委会");
        reveal_strlit("居委会");
        reveal_strlit("片区街道");
        reveal_strlit("街道办");
        reveal_strlit("委会");
    }
    assert(views(v@) =~= area_clear_word());
    v
}

/// The endings of `area_bad_word`.
fn area_bad_words() -> (r: Vec<Vec<char>>)
    ensures
        views(r@) == area_bad_word(),
        forall|i: int| 0 <= i < r.len() ==> r@[i].len() > 0,
{
    let mut v: Vec<Vec<char>> = Vec::new();
    v.push(chars_of("-"));
    v.push(chars_of("开发区"));
    v.push(chars_of("自治县"));
    v.push(chars_of("自治州"));
    v.push(chars_of("自治区"));
    v.push(chars_of("特别行政区"));
    v.push(chars_of("自治区"));
    v.push(chars_of("直辖县级行政区划"));
    v.push(chars_of("村委会"));
    v.push(chars_of("居委会"));
    v.push(chars_of("省"));
    v.push(chars_of("市"));
    v.push(chars_of("县"));
    v.push(chars_of("区"));
    v.push(chars_of("镇"));
    v.push(chars_of("乡"));
    v.push(chars_of("村"));
    v.push(chars_of("片区街道"));
    v.push(chars_of("街道办"));
    proof {
        reveal_strlit("-");
        reveal_strlit("开发区");
        reveal_strlit("自治县");
        reveal_strlit("自治州");
        reveal_strlit("自治区");
        reveal_strlit("特别行政区");
        reveal_strlit("直辖县级行政区划");
        reveal_strlit("村委会");
        reveal_strlit("居委会");
        reveal_strlit("省");
        reveal_strlit("市");
        reveal_strlit("县");
        reveal_strlit("区");
        reveal_strlit("镇");
        reveal_strlit("乡");
        reveal_strlit("村");
        reveal_strlit("片区街道");
        reveal_strlit("街道办");
    }
    assert(views(v@) =~= area_bad_word());
    v
}

/// `name` with each ending of `words` that it ends with trimmed off in turn.
pub fn strip_endings_exec(name: &Vec<char>, words: &Vec<Vec<char>>) -> (r: Vec<char>)
    requires
        forall|i: int| 0 <= i < words.len() ==> words@[i].len() > 0,
    ensures
        r@ == strip_endings(name@, views(words@), 0),
{
    let mut cur = copy_chars(name);
    let mut i: usize = 0;
    while i < words.len()
        invariant
            i <= words.len(),
            forall|k: int| 0 <= k < words.len() ==> words@[k].len() > 0,
            strip_endings(name@, views(words@), 0) == strip_endings(cur@, views(words@), i as int),
        decreases words.len() - i,
    {
        if ends_with_chars(&cur, &words[i]) {
            cur = trim_end_matches_chars(&cur, &words[i]);
        }
        i = i + 1;
    }
    cur
}

/// An `AreaCodeItem` for code `code`, name `name` and leaf flag `leaf`.
fn make_item(code: &Vec<char>, name: &Vec<char>, leaf: bool) -> (r: AreaCodeItem)
    ensures
        r@ == (ItemView { code: code@, name: name@, leaf }),
{
    AreaCodeItem { code: string_of(code.as_slice()), name: string_of(name.as_slice()), leaf }
}

/// The view of a result that lists items.
pub open spec fn items_result(r: Result<Vec<AreaCodeItem>, AreaError>) -> Result<
    Seq<ItemView>,
    AreaErrorView,
> {
    match r {
        Ok(v) => Ok(item_views(v@)),
        Err(e) => Err(e@),
    }
}

/// The view of a result that lists rows of detail items.
pub open spec fn detail_result(r: Result<Vec<Vec<AreaCodeDetailItem>>, AreaError>) -> Result<
    Seq<Seq<DetailItemView>>,
    AreaErrorView,
> {
    match r {
        Ok(v) => Ok(detail_views_all(v@)),
        Err(e) => Err(e@),
    }
}

/// Every record of `data` has a code that can be split into levels.
pub open spec fn codes_ok(data: Seq<AreaCodeData>) -> bool {
    forall|i: int| 0 <= i < data.len() ==> code_ok(#[trigger] data[i].code@)
}

/// Whether every record of `data` has a code that can be split into levels
/// (`codes_ok`).
pub fn codes_are_ok(data: &[AreaCodeData]) -> (r: bool)
    ensures
        r == codes_ok(data@),
{
    let mut i: usize = 0;
    while i < data.len()
        invariant
            i <= data.len(),
            forall|k: int| 0 <= k < i ==> code_ok(#[trigger] data@[k].code@),
        decreases data.len() - i,
    {
        if !crate::code_path::code_is_ok(data[i].code.as_str()) {
            return false;
        }
        i = i + 1;
    }
    true
}

impl AreaCode {
    /// The index of the records `area_code_data`: the first record of each
    /// code gives its hidden flag and its listed name; every level of every
    /// code becomes a node of the tree; the keywords of each record lead to its
    /// code, grouped by code length; each area of 6 bytes or more without areas
    /// below it, and with no hidden level, gets a search text.
    pub fn new(area_code_data: &[AreaCodeData]) -> (r: Self)
        requires
            codes_ok(area_code_data@),
        ensures
            forall|c: Seq<char>|
                lookup_name(r@.names, c) == lookup_name(name_rows(data_views(area_code_data@)), c),
            r@.paths == tree_paths(data_codes(data_views(area_code_data@))),
            groups_of(r@.groups, data_views(area_code_data@)),
            r@.details == details_of(r@.names, r@.paths, data_codes(data_views(area_code_data@))),
    {
        let names = Self::build_names(area_code_data);
        let paths = Self::build_paths(area_code_data);
        let groups = build_groups(area_code_data);
        let details = build_details(area_code_data, &names, &paths);
        AreaCode { names, paths, groups, details }
    }

    /// The name table of `data`.
    fn build_names(data: &[AreaCodeData]) -> (r: Vec<NameEntry>)
        ensures
            forall|c: Seq<char>|
                lookup_name(entry_rows(r@), c) == lookup_name(name_rows(data_views(data@)), c),
    {
        let ghost rows = name_rows(data_views(data@));
        let clear = area_clear_words();
        let mut names: Vec<NameEntry> = Vec::new();
        let mut i: usize = 0;
        while i < data.len()
            invariant
                i <= data.len(),
                rows == name_rows(data_views(data@)),
                views(clear@) == area_clear_word(),
                forall|k: int| 0 <= k < clear.len() ==> clear@[k].len() > 0,
                forall|c: Seq<char>|
                    lookup_name(entry_rows(names@), c) == lookup_name(rows.take(i as int), c),
            decreases data.len() - i,
        {
            let code = chars_of(data[i].code.as_str());
            assert(rows.take(i + 1).drop_last() =~= rows.take(i as int));
            assert(rows.take(i + 1).last() == rows[i as int]);
            match lookup_entry(&names, &code) {
                Some(_) => {
                    assert forall|c: Seq<char>|
                        lookup_name(entry_rows(names@), c) == lookup_name(
                            rows.take(i + 1),
                            c,
                        ) by {}
                },
                None => {
                    let name = chars_of(data[i].name.as_str());
                    let listed = strip_endings_exec(&name, &clear);
                    let ghost before = names@;
                    names.push(NameEntry { code, hide: data[i].hide, name: listed });
                    assert(entry_rows(names@).drop_last() =~= entry_rows(before));
                    assert(entry_rows(names@).last() == rows[i as int]);
                    assert forall|c: Seq<char>|
                        lookup_name(entry_rows(names@), c) == lookup_name(
                            rows.take(i + 1),
                            c,
                        ) by {
                        assert(lookup_name(entry_rows(before), c) == lookup_name(
                            rows.take(i as int),
                            c,
                        ));
                    }
                },
            }
            i = i + 1;
        }
        assert(rows.take(data.len() as int) =~= rows);
        names
    }

    /// The nodes of the code tree of `data`.
    fn build_paths(data: &[AreaCodeData]) -> (r: Vec<Vec<Vec<char>>>)
        requires
            codes_ok(data@),
        ensures
            path_views(r@) == tree_paths(data_codes(data_views(data@))),
    {
        let ghost codes = data_codes(data_views(data@));
        let mut paths: Vec<Vec<Vec<char>>> = Vec::new();
        let mut i: usize = 0;
        while i < data.len()
            invariant
                i <= data.len(),
                codes == data_codes(data_views(data@)),
                codes_ok(data@),
                path_views(paths@) == tree_paths(codes.take(i as int)),
            decreases data.len() - i,
        {
            let code = chars_of(data[i].code.as_str());
            assert(code_ok(data@[i as int].code@));
            let lv = code_parse(&code);
            assert(views(lv@).len() == lv.len());
            assert(lv.len() <= 5);
            let mut k: usize = 1;
            assert(path_views(paths@) == add_levels(tree_paths(codes.take(i as int)), views(lv@), 0));
            while k <= lv.len()
                invariant
                    1 <= k <= lv.len() + 1,
                    lv.len() <= 5,
                    path_views(paths@) == add_levels(
                        tree_paths(codes.take(i as int)),
                        views(lv@),
                        k - 1,
                    ),
                decreases lv.len() + 1 - k,
            {
                let p = take_views(&lv, k);
                if !contains_path(&paths, &p) {
                    let ghost before = paths@;
                    paths.push(p);
                    assert(path_views(paths@) =~= path_views(before).push(views(p@)));
                }
                k = k + 1;
            }
            assert(codes.take(i + 1).drop_last() =~= codes.take(i as int));
            assert(codes.take(i + 1).last() == data@[i as int].code@);
            i = i + 1;
        }
        assert(codes.take(data.len() as int) =~= codes);
        paths
    }
}

/// The message `not_find_message(c, empty)`.
fn not_find_message_exec(c: &Vec<char>, empty: bool) -> (r: String)
    ensures
        r@ == not_find_message(c@, empty),
{
    let mut m = chars_of("not find code:");
    append_chars(&mut m, c);
    if empty {
        let tail = chars_of(" [empty]");
        append_chars(&mut m, &tail);
    }
    string_of(m.as_slice())
}

/// The view of an optional item.
pub open spec fn opt_item(r: Option<AreaCodeItem>) -> Option<ItemView> {
    match r {
        Some(it) => Some(it@),
        None => None,
    }
}

impl AreaCode {
    /// Checks that every level of `lv` is a node of the tree; the error
    /// names the first level that is not.
    fn code_find(&self, lv: &Vec<Vec<char>>) -> (r: Result<(), AreaError>)
        ensures
            match path_error(self@.paths, views(lv@), 0) {
                None => r is Ok,
                Some(msg) => r matches Err(e) && e@ == AreaErrorView::NotFind(msg),
            },
    {
        let ghost ps = self@.paths;
        let ghost l = views(lv@);
        let mut d: usize = 0;
        while d < lv.len()
            invariant
                ps == self@.paths,
                l == views(lv@),
                d <= lv.len(),
                path_error(ps, l, 0) == path_error(ps, l, d as int),
            decreases lv.len() - d,
        {
            let p = take_views(lv, d + 1);
            if !contains_path(&self.paths, &p) {
                let q = take_views(lv, d);
                let empty = !has_children_exec(&self.paths, &q);
                let msg = not_find_message_exec(&lv[d], empty);
                return Err(AreaError::NotFind(msg));
            }
            d = d + 1;
        }
        Ok(())
    }

    /// The item listed for node `q` among the children of a node.
    fn child_item_exec(&self, q: &Vec<Vec<char>>) -> (r: Option<AreaCodeItem>)
        requires
            q.len() > 0,
        ensures
            opt_item(r) == child_item(self@.names, self@.paths, views(q@)),
    {
        let c = &q[q.len() - 1];
        assert(views(q@).last() == c@);
        match lookup_entry(&self.names, c) {
            Some(i) => {
                if self.names[i].hide {
                    None
                } else {
                    let leaf = !has_children_exec(&self.paths, q);
                    Some(make_item(c, &self.names[i].name, leaf))
                }
            },
            None => None,
        }
    }

    /// The item listed for node `q` along a code.
    fn find_item_exec(&self, q: &Vec<Vec<char>>) -> (r: Option<AreaCodeItem>)
        requires
            q.len() > 0,
        ensures
            opt_item(r) == find_item(self@.names, self@.paths, views(q@)),
    {
        let c = &q[q.len() - 1];
        assert(views(q@).last() == c@);
        let leaf = !has_children_exec(&self.paths, q);
        match lookup_entry(&self.names, c) {
            Some(i) => {
                if self.names[i].hide {
                    None
                } else {
                    Some(make_item(c, &self.names[i].name, leaf))
                }
            },
            None => {
                let empty: Vec<char> = Vec::new();
                assert(empty@ =~= Seq::<char>::empty());
                Some(make_item(c, &empty, leaf))
            },
        }
    }

    /// The children of the node `lv`, or the error for its first missing level.
    fn childs_levels(&self, lv: &Vec<Vec<char>>) -> (r: Result<Vec<AreaCodeItem>, AreaError>)
        ensures
            items_result(r) == match path_error(self@.paths, views(lv@), 0) {
                Some(msg) => Err(AreaErrorView::NotFind(msg)),
                None => Ok(child_items(self@.names, self@.paths, self@.paths, views(lv@))),
            },
    {
        match self.code_find(lv) {
            Err(e) => {
                return Err(e);
            },
            Ok(()) => {},
        }
        let ghost ps = self@.paths;
        let mut out: Vec<AreaCodeItem> = Vec::new();
        let mut i: usize = 0;
        while i < self.paths.len()
            invariant
                ps == self@.paths,
                ps.len() == self.paths.len(),
                i <= self.paths.len(),
                item_views(out@) == child_items(self@.names, ps, ps.take(i as int), views(lv@)),
            decreases self.paths.len() - i,
        {
            assert(ps.take(i + 1).drop_last() =~= ps.take(i as int));
            assert(ps.take(i + 1).last() == views(self.paths@[i as int]@));
            if is_child_exec(lv, &self.paths[i]) {
                let ghost before = out@;
                match self.child_item_exec(&self.paths[i]) {
                    Some(it) => {
                        out.push(it);
                        assert(item_views(out@) =~= item_views(before).push(out@.last()@));
                    },
                    None => {},
                }
            }
            i = i + 1;
        }
        assert(ps.take(self.paths.len() as int) =~= ps);
        Ok(out)
    }

    /// The areas directly below `code` that are neither hidden nor without a
    /// name; the areas at the top where `code` is blank.
    pub fn childs(&self, code: &str) -> (r: Result<Vec<AreaCodeItem>, AreaError>)
        requires
            code_ok(code@),
        ensures
            items_result(r) == spec_childs(self@, code@),
    {
        let chars = chars_of(code);
        let lv = code_parse(&chars);
        self.childs_levels(&lv)
    }

    /// The areas along `code`, from the top level down; a level without a
    /// name is listed with an empty name, a hidden one is left out.
    pub fn find(&self, code: &str) -> (r: Result<Vec<AreaCodeItem>, AreaError>)
        requires
            code_ok(code@),
        ensures
            items_result(r) == spec_find(self@, code@),
    {
        let chars = chars_of(code);
        let lv = code_parse(&chars);
        assert(views(lv@).len() == lv.len());
        assert(lv.len() <= 5);
        self.find_levels(&lv)
    }

    /// The areas along the levels `lv`.
    fn find_levels(&self, lv: &Vec<Vec<char>>) -> (r: Result<Vec<AreaCodeItem>, AreaError>)
        requires
            lv.len() <= 5,
        ensures
            items_result(r) == match path_error(self@.paths, views(lv@), 0) {
                Some(msg) => Err(AreaErrorView::NotFind(msg)),
                None => Ok(find_items(self@.names, self@.paths, views(lv@), lv.len() as int)),
            },
    {
        match self.code_find(lv) {
            Err(e) => {
                return Err(e);
            },
            Ok(()) => {},
        }
        let mut out: Vec<AreaCodeItem> = Vec::new();
        let mut k: usize = 1;
        while k <= lv.len()
            invariant
                1 <= k <= lv.len() + 1,
                lv.len() <= 5,
                item_views(out@) == find_items(self@.names, self@.paths, views(lv@), k - 1),
            decreases lv.len() + 1 - k,
        {
            let q = take_views(lv, k);
            let ghost before = out@;
            match self.find_item_exec(&q) {
                Some(it) => {
                    out.push(it);
                    assert(item_views(out@) =~= item_views(before).push(out@.last()@));
                },
                None => {},
            }
            k = k + 1;
        }
        Ok(out)
    }
}

/// The rows `done` followed by the rows of `rest`, or the error of `rest`.
pub open spec fn rows_then(
    done: Seq<Seq<DetailItemView>>,
    rest: Result<Seq<Seq<DetailItemView>>, AreaErrorView>,
) -> Result<Seq<Seq<DetailItemView>>, AreaErrorView> {
    match rest {
        Ok(r) => Ok(done + r),
        Err(e) => Err(e),
    }
}

/// A copy of `it`.
pub(crate) fn copy_item(it: &AreaCodeItem) -> (r: AreaCodeItem)
    ensures
        r@ == it@,
{
    AreaCodeItem { code: it.code.clone(), name: it.name.clone(), leaf: it.leaf }
}

/// `items` marked as lying on level code `c`, and whether the last item
/// with that code is a leaf.
fn mark_items(items: &Vec<AreaCodeItem>, c: Option<&Vec<char>>) -> (r: (
    Vec<AreaCodeDetailItem>,
    bool,
))
    ensures
        detail_views(r.0@) == mark_row(
            item_views(items@),
            match c {
                Some(c) => Some(c@),
                None => None,
            },
        ),
        r.1 == match c {
            Some(c) => selected_leaf(item_views(items@), c@),
            None => false,
        },
{
    let ghost cv: Option<Seq<char>> = match c {
        Some(c) => Some(c@),
        None => None,
    };
    let ghost iv = item_views(items@);
    let mut row: Vec<AreaCodeDetailItem> = Vec::new();
    let mut end = false;
    let mut i: usize = 0;
    while i < items.len()
        invariant
            i <= items.len(),
            iv == item_views(items@),
            cv == match c {
                Some(c) => Some(c@),
                None => None,
            },
            row.len() == i,
            forall|k: int| 0 <= k < i ==> #[trigger] row@[k]@ == mark_row(iv, cv)[k],
            end == match c {
                Some(c) => selected_leaf(iv.take(i as int), c@),
                None => false,
            },
        decreases items.len() - i,
    {
        let selected = match c {
            Some(cc) => {
                let code = chars_of(items[i].code.as_str());
                chars_eq(&code, cc)
            },
            None => false,
        };
        assert(iv.take(i + 1).drop_last() =~= iv.take(i as int));
        assert(iv.take(i + 1).last() == items@[i as int]@);
        if selected {
            end = items[i].leaf;
        }
        row.push(AreaCodeDetailItem { selected, item: copy_item(&items[i]) });
        i = i + 1;
    }
    assert(iv.take(items.len() as int) =~= iv);
    assert(detail_views(row@) =~= mark_row(iv, cv));
    (row, end)
}

impl AreaCode {
    /// The choices at every level of `code`: the top areas, then the areas
    /// below each level, each marked where it lies on `code`; it stops after
    /// a marked area without areas below it.
    pub fn detail(&self, code: &str) -> (r: Result<Vec<Vec<AreaCodeDetailItem>>, AreaError>)
        requires
            code_ok(code@),
        ensures
            detail_result(r) == spec_detail(self@, code@),
    {
        let chars = chars_of(code);
        let lv = code_parse(&chars);
        let ghost l = views(lv@);
        let mut out: Vec<Vec<AreaCodeDetailItem>> = Vec::new();
        if lv.len() == 0 {
            assert(detail_views_all(out@) =~= Seq::<Seq<DetailItemView>>::empty());
            return Ok(out);
        }
        let top: Vec<Vec<char>> = Vec::new();
        assert(views(top@) =~= Seq::<Seq<char>>::empty());
        assert(code_levels(Seq::<char>::empty()) =~= Seq::<Seq<char>>::empty());
        let mut now = match self.childs_levels(&top) {
            Ok(v) => v,
            Err(e) => {
                return Err(e);
            },
        };
        let mut d: usize = 0;
        assert(detail_views_all(out@) =~= Seq::<Seq<DetailItemView>>::empty());
        assert(spec_detail(self@, code@) == rows_then(
            detail_views_all(out@),
            detail_rows(self@, l, 0, item_views(now@)),
        ));
        while d < lv.len()
            invariant
                l == views(lv@),
                l == code_levels(code@),
                code_ok(code@),
                d <= lv.len(),
                spec_detail(self@, code@) == rows_then(
                    detail_views_all(out@),
                    detail_rows(self@, l, d as int, item_views(now@)),
                ),
            decreases lv.len() - d,
        {
            let (row, end) = mark_items(&now, Some(&lv[d]));
            let ghost before = out@;
            out.push(row);
            assert(detail_views_all(out@) =~= detail_views_all(before).push(detail_views(row@)));
            if end {
                assert(detail_views_all(out@) =~= detail_views_all(before) + seq![
                    detail_views(row@),
                ]);
                return Ok(out);
            }
            proof {
                lemma_level_code_ok(code@, d as int);
            }
            let sub = code_parse(&lv[d]);
            now = match self.childs_levels(&sub) {
                Ok(v) => v,
                Err(e) => {
                    return Err(e);
                },
            };
            assert(detail_views_all(before) + (seq![detail_views(row@)] + Seq::empty())
                =~= detail_views_all(out@) + Seq::empty());
            proof {
                assert forall|rest: Seq<Seq<DetailItemView>>|
                    #![trigger detail_views_all(out@) + rest]
                    detail_views_all(before) + (seq![detail_views(row@)] + rest)
                        =~= detail_views_all(out@) + rest by {}
            }
            d = d + 1;
        }
        let (row, _) = mark_items(&now, None);
        let ghost before = out@;
        out.push(row);
        assert(detail_views_all(out@) =~= detail_views_all(before) + seq![detail_views(row@)]);
        Ok(out)
    }
}

/// The views of rows of detail items.
pub open spec fn detail_views_all(v: Seq<Vec<AreaCodeDetailItem>>) -> Seq<Seq<DetailItemView>> {
    Seq::new(v.len(), |i: int| detail_views(v[i]@))
}

/// Whether `used` holds `i`.
fn used_contains(used: &Vec<usize>, i: usize) -> (r: bool)
    ensures
        r == used@.contains(i),
{
    let mut j: usize = 0;
    while j < used.len()
        invariant
            j <= used.len(),
            forall|k: int| 0 <= k < j ==> used@[k] != i,
        decreases used.len() - j,
    {
        if used[j] == i {
            return true;
        }
        j = j + 1;
    }
    false
}

/// The set of indexes held by `used`.
pub open spec fn used_set(used: Seq<usize>) -> Set<int> {
    Set::new(|i: int| exists|j: int| 0 <= j < used.len() && used[j] as int == i)
}

/// One pass of `fix_pass` over `words`, with the indexes used so far in `used`.
fn fix_pass_exec(name: Vec<char>, used: &mut Vec<usize>, words: &Vec<Vec<char>>) -> (r: Vec<char>)
    requires
        forall|i: int| 0 <= i < words.len() ==> words@[i].len() > 0,
    ensures
        (r@, used_set(final(used)@)) == fix_pass(name@, used_set(old(used)@), views(words@), 0),
{
    let mut cur = name;
    let mut i: usize = 0;
    while i < words.len()
        invariant
            i <= words.len(),
            forall|k: int| 0 <= k < words.len() ==> words@[k].len() > 0,
            fix_pass(name@, used_set(old(used)@), views(words@), 0) == fix_pass(
                cur@,
                used_set(used@),
                views(words@),
                i as int,
            ),
        decreases words.len() - i,
    {
        if used_contains(used, i) {
            assert(used_set(used@).contains(i as int));
        } else {
            assert(!used_set(used@).contains(i as int));
            if ends_with_chars(&cur, &words[i]) {
                cur = trim_end_matches_chars(&cur, &words[i]);
                let ghost before = used@;
                used.push(i);
                assert(used_set(used@) =~= used_set(before).insert(i as int)) by {
                    assert forall|x: int| used_set(used@).contains(x) <==> used_set(before).insert(
                        i as int,
                    ).contains(x) by {
                        if used_set(used@).contains(x) {
                            let j = choose|j: int| 0 <= j < used@.len() && used@[j] as int == x;
                            if j < before.len() {
                                assert(before[j] == used@[j]);
                            }
                        }
                        if used_set(before).contains(x) {
                            let j = choose|j: int| 0 <= j < before.len() && before[j] as int == x;
                            assert(used@[j] == before[j]);
                        }
                        if x == i {
                            assert(used@[before.len() as int] == i);
                        }
                    }
                }
            }
        }
        i = i + 1;
    }
    cur
}

/// A listed name as it joins a search text (`fix_name`).
fn fix_name_exec(name: &Vec<char>) -> (r: Vec<char>)
    ensures
        r@ == crate::search_model::fix_name(name@),
{
    let bad = area_bad_words();
    let clear = area_clear_words();
    let mut used: Vec<usize> = Vec::new();
    assert(used_set(used@) =~= Set::<int>::empty());
    let t = crate::text::trim_chars(name);
    let first = fix_pass_exec(t, &mut used, &bad);
    fix_pass_exec(first, &mut used, &clear)
}

/// The search text of the area with code `code` (`detail_of`).
fn detail_of_exec(names: &Vec<NameEntry>, paths: &Vec<Vec<Vec<char>>>, code: &Vec<char>) -> (r:
    Option<Vec<char>>)
    requires
        code_ok(code@),
    ensures
        match r {
            Some(v) => detail_of(entry_rows(names@), path_views(paths@), code@) == Some(v@),
            None => detail_of(entry_rows(names@), path_views(paths@), code@) is None,
        },
{
    let ghost nr = entry_rows(names@);
    let ghost ps = path_views(paths@);
    if crate::text::utf8_len_upto(code, 6) < 6 {
        return None;
    }
    let lv = code_parse(code);
    let ghost l = views(lv@);
    assert(l.len() == lv.len());
    let mut acc: Vec<char> = Vec::new();
    let mut d: usize = 0;
    assert(acc@ =~= Seq::<char>::empty());
    while d < lv.len()
        invariant
            nr == entry_rows(names@),
            ps == path_views(paths@),
            l == views(lv@),
            l == code_levels(code@),
            d <= lv.len(),
            detail_of(nr, ps, code@) == detail_walk(nr, ps, l, d as int, acc@),
        decreases lv.len() - d,
    {
        let q = take_views(&lv, d + 1);
        if !contains_path(paths, &q) {
            return None;
        }
        if d == lv.len() - 1 && has_children_exec(paths, &q) {
            return None;
        }
        match lookup_entry(names, &lv[d]) {
            Some(i) => {
                if names[i].hide {
                    return None;
                }
                let f = fix_name_exec(&names[i].name);
                append_chars(&mut acc, &f);
            },
            None => {},
        }
        d = d + 1;
    }
    Some(acc)
}

/// The search texts of the records of `data`.
fn build_details(data: &[AreaCodeData], names: &Vec<NameEntry>, paths: &Vec<Vec<Vec<char>>>) -> (r:
    Vec<DetailEntry>)
    requires
        codes_ok(data@),
    ensures
        details_ok(r@),
        detail_entry_rows(r@) == details_of(
            entry_rows(names@),
            path_views(paths@),
            data_codes(data_views(data@)),
        ),
{
    let ghost codes = data_codes(data_views(data@));
    let ghost nr = entry_rows(names@);
    let ghost ps = path_views(paths@);
    let mut out: Vec<DetailEntry> = Vec::new();
    let mut i: usize = 0;
    while i < data.len()
        invariant
            codes == data_codes(data_views(data@)),
            nr == entry_rows(names@),
            ps == path_views(paths@),
            codes_ok(data@),
            i <= data.len(),
            details_ok(out@),
            detail_entry_rows(out@) == details_of(nr, ps, codes.take(i as int)),
        decreases data.len() - i,
    {
        let code = chars_of(data[i].code.as_str());
        assert(code_ok(data@[i as int].code@));
        assert(codes.take(i + 1).drop_last() =~= codes.take(i as int));
        assert(codes.take(i + 1).last() == code@);
        match detail_of_exec(names, paths, &code) {
            Some(det) => {
                let ghost before = out@;
                let ghost e = DetailEntry { code: code, detail: det };
                out.push(DetailEntry { code, detail: det });
                assert(out@ == before.push(e));
                assert(detail_entry_rows(out@) =~= detail_entry_rows(before).push((e.code@, e.detail@)));
                assert forall|a: int| 0 <= a < out@.len() implies code_ok(#[trigger] out@[a].code@) by {
                    if a < before.len() {
                        assert(out@[a] == before[a]);
                    }
                }
            },
            None => {},
        }
        i = i + 1;
    }
    assert(codes.take(data.len() as int) =~= codes);
    out
}

/// The view of a search result.
pub open spec fn search_result(r: Result<Vec<AreaSearchItem>, AreaError>) -> Result<
    Seq<SearchItemView>,
    AreaErrorView,
> {
    match r {
        Ok(v) => Ok(Seq::new(v@.len(), |i: int| v@[i]@)),
        Err(e) => Err(e@),
    }
}

/// The distance of a code found by keyword (`level_sim`).
fn level_sim_exec(code: &Vec<char>) -> (r: u128)
    ensures
        r == level_sim(code@),
{
    let n = crate::text::utf8_len_upto(code, 10);
    if n == 2 {
        0
    } else if n == 4 {
        1
    } else if n == 6 {
        2
    } else if n == 9 {
        3
    } else {
        4
    }
}

impl AreaCode {
    /// The candidates that keyword `ename` finds (`exact_cands`).
    fn exact_cands_exec(&self, ename: &Vec<char>, limit: usize) -> (r: Vec<Candidate>)
        requires
            groups_ok(self.groups@),
        ensures
            cands_ok(r@),
            cand_views(r@) == exact_cands(self@.groups, ename@, limit as nat),
    {
        let ghost g = self@.groups;
        let mut out: Vec<Candidate> = Vec::new();
        let mut gi: usize = 0;
        assert(cand_views(out@) =~= exact_cands(g.take(0), ename@, limit as nat));
        while gi < self.groups.len()
            invariant
                g == self@.groups,
                g.len() == self.groups.len(),
                groups_ok(self.groups@),
                gi <= self.groups.len(),
                cands_ok(out@),
                cand_views(out@) == exact_cands(g.take(gi as int), ename@, limit as nat),
            decreases self.groups.len() - gi,
        {
            assert(g.take(gi + 1).drop_last() =~= g.take(gi as int));
            assert(g.take(gi + 1).last() == g[gi as int]);
            let words = &self.groups[gi].words;
            assert(g[gi as int].1 == kw_rows(words@));
            assert(crate::search_index::words_ok(words@));
            let ghost prev = cand_views(out@);
            match find_kw(words, ename) {
                Some(p) => {
                    proof {
                        lemma_kw_first(kw_rows(words@), ename@, p as int);
                    }
                    let codes = &words[p].codes;
                    let ghost cs = views(codes@);
                    let ghost all = Seq::new(cs.len(), |j: int| (level_sim(cs[j]), cs[j], ename@));
                    let mut j: usize = 0;
                    assert(prev + all.take(0) =~= prev);
                    let mut stop = false;
                    while j < codes.len() && !stop
                        invariant
                            cs == views(codes@),
                            all == Seq::new(cs.len(), |j: int| (level_sim(cs[j]), cs[j], ename@)),
                            out.len() == prev.len() + j,
                            j <= codes.len(),
                            forall|b: int| 0 <= b < codes.len() ==> code_ok(#[trigger] codes@[b]@),
                            cands_ok(out@),
                            cand_views(out@) == prev + all.take(j as int),
                            !stop ==> (j == 0 || prev.len() + j <= limit),
                            stop ==> j >= 1 && prev.len() + j > limit && (j == 1 || prev.len() + j - 1
                                <= limit),
                        decreases codes.len() - j,
                    {
                        let sim = level_sim_exec(&codes[j]);
                        let c = Candidate {
                            sim,
                            code: copy_chars(&codes[j]),
                            key_word: copy_chars(ename),
                        };
                        let ghost before = out@;
                        let ghost cg = c;
                        assert(code_ok(codes@[j as int]@));
                        out.push(c);
                        assert(out@ == before.push(cg));
                        assert(cand_views(out@) =~= cand_views(before).push(
                            (sim as nat, codes@[j as int]@, ename@),
                        ));
                        assert(all[j as int] == (sim as nat, codes@[j as int]@, ename@));
                        assert(all.take(j + 1) =~= all.take(j as int).push(all[j as int]));
                        assert(cand_views(out@) =~= prev + all.take(j + 1));
                        assert forall|a: int| 0 <= a < out@.len() implies code_ok(
                            #[trigger] out@[a].code@,
                        ) by {
                            if a < before.len() {
                                assert(out@[a] == before[a]);
                            }
                        }
                        if out.len() > limit {
                            stop = true;
                        }
                        j = j + 1;
                    }
                    assert(j == n_take(prev.len(), cs.len(), limit as nat));
                },
                None => {
                    proof {
                        lemma_kw_none(kw_rows(words@), ename@);
                    }
                },
            }
            gi = gi + 1;
        }
        assert(g.take(self.groups.len() as int) =~= g);
        out
    }

    /// The areas whose keyword is `name` (spaces removed, in lowercase), or
    /// failing `limit` such, whose search text holds every token of `name`;
    /// nearest first (see `spec_search`), the search texts being split into
    /// chunks for `cpus` workers.
    pub fn search_with_cpus(&self, name: &str, limit: usize, cpus: usize) -> (r: Result<
        Vec<AreaSearchItem>,
        AreaError,
    >)
        requires
            search_ok(self@, name@, limit as nat, cpus as nat),
        ensures
            search_result(r) == spec_search(self@, name@, limit as nat, cpus as nat),
            r is Ok,
    {
        proof {
            use_type_invariant(self);
        }
        let nc = chars_of(name);
        let t = crate::text::trim_chars(&nc);
        let mut out: Vec<AreaSearchItem> = Vec::new();
        if t.len() == 0 {
            assert(search_result(Ok(out)) == spec_search(self@, name@, limit as nat, cpus as nat)) by {
                assert(Seq::new(out@.len(), |i: int| out@[i]@) =~= Seq::<SearchItemView>::empty());
            }
            return Ok(out);
        }
        let sp = chars_of(" ");
        proof {
            reveal_strlit(" ");
        }
        let nospace = crate::text::remove_all_chars(&t, &sp);
        let nospace_s = string_of(nospace.as_slice());
        let lower = crate::text::str_to_lowercase(nospace_s.as_str());
        let ename = chars_of(lower.as_str());
        let mut cands = self.exact_cands_exec(&ename, limit);
        let ghost ex = cand_views(cands@);
        let ghost want = search_cands(self@, name@, limit as nat, cpus as nat);
        let chosen: Vec<Candidate>;
        if cands.len() < limit && self.details.len() > 0 {
            let size: usize = if cpus == 0 {
                0
            } else {
                self.details.len() / cpus
            };
            if size == 0 {
                let msg = chars_of("search texts are fewer than the worker threads");
                return Err(AreaError::System(string_of(msg.as_slice())));
            }
            let bad = area_bad_words();
            let clear = area_clear_words();
            let c1 = remove_words_exec(&t, &bad);
            let check = remove_words_exec(&c1, &clear);
            assert(check@ == check_name(t@));
            let words = split_ws_exec(&check);
            let toks = tokens_exec(&words);
            let check_nospace = crate::text::remove_all_chars(&check, &sp);
            let match_len = crate::text::utf8_len_wide(&check_nospace);
            let fz = fuzzy_cands_exec(&self.details, size, &check, &toks, match_len, limit - cands.len());
            append_cands(&mut cands, &fz);
            let mut sorted = sort_cands_exec(&cands);
            sorted.truncate(limit);
            assert(cand_views(sorted@) =~= first_n(sort_cands(cand_views(cands@)), limit as nat));
            chosen = sorted;
        } else {
            chosen = sort_cands_exec(&cands);
        }
        assert(want == Some(cand_views(chosen@)));
        let ghost cs = cand_views(chosen@);
        let mut i: usize = 0;
        while i < chosen.len()
            invariant
                cs == cand_views(chosen@),
                cands_ok(chosen@),
                i <= chosen.len(),
                Seq::new(out@.len(), |k: int| out@[k]@) == search_items(self@, cs.take(i as int)),
            decreases chosen.len() - i,
        {
            assert(cs.take(i + 1).drop_last() =~= cs.take(i as int));
            assert(cs.take(i + 1).last() == cs[i as int]);
            assert(code_ok(chosen@[i as int].code@));
            let lv = code_parse(&chosen[i].code);
            assert(views(lv@).len() == lv.len());
            assert(lv.len() <= 5);
            let ghost before = out@;
            match self.find_levels(&lv) {
                Ok(items) => {
                    if items.len() > 0 {
                        let kw = string_of(chosen[i].key_word.as_slice());
                        let it = AreaSearchItem { item: items, key_word: kw };
                        let ghost itg = it;
                        out.push(it);
                        assert(out@ == before.push(itg));
                        assert(Seq::new(out@.len(), |k: int| out@[k]@) =~= Seq::new(
                            before.len(),
                            |k: int| before[k]@,
                        ).push(itg@));
                    }
                },
                Err(_) => {},
            }
            i = i + 1;
        }
        assert(cs.take(chosen.len() as int) =~= cs);
        Ok(out)
    }

    /// The areas whose keyword is `name`, or failing `limit` such, whose
    /// search text holds every token of `name`, nearest first, the search texts
    /// being split into chunks for the CPUs of this machine (`search_with_cpus`
    /// with the number of CPUs).
    pub fn search(&self, name: &str, limit: usize) -> (r: Result<Vec<AreaSearchItem>, AreaError>)
        ensures
            exists|cpus: nat|
                cpus >= 1 && search_result(r) == spec_search(self@, name@, limit as nat, cpus),
    {
        let cpus = cpu_count();
        let r = if self.search_fits(name, limit, cpus) {
            self.search_with_cpus(name, limit, cpus)
        } else {
            let msg = chars_of("search texts are fewer than the worker threads");
            Err(AreaError::System(string_of(msg.as_slice())))
        };
        assert(search_result(r) == spec_search(self@, name@, limit as nat, cpus as nat));
        r
    }

    /// A search as the access layer answers it: for a blank `name`, one
    /// result listing the areas at the top with an empty matched text;
    /// otherwise `search`.
    pub fn search_or_top(&self, name: &str, limit: usize) -> (r: Result<Vec<AreaSearchItem>, AreaError>)
        ensures
            crate::text::trim(name@).len() == 0 ==> (spec_childs(self@, seq![]) matches Ok(top) && search_result(r)
                == Ok::<Seq<SearchItemView>, AreaErrorView>(seq![SearchItemView { item: top, key_word: seq![] }])),
            crate::text::trim(name@).len() > 0 ==> exists|cpus: nat|
                cpus >= 1 && search_result(r) == spec_search(self@, name@, limit as nat, cpus),
    {
        let nc = chars_of(name);
        let t = crate::text::trim_chars(&nc);
        if t.len() == 0 {
            let blank = String::new();
            proof {
                let e = crate::text::trim(blank@);
                assert(e.len() == 0);
                assert(crate::code_path::prefix_bytes(e, 0) == 0);
                assert(crate::code_path::level_ends(0) == seq![0nat]);
                assert(code_ok(blank@));
                assert(code_levels(blank@) == Seq::<Seq<char>>::empty());
                assert(path_error(self@.paths, Seq::<Seq<char>>::empty(), 0) is None);
            }
            let top = match self.childs(blank.as_str()) {
                Ok(items) => items,
                Err(e) => {
                    return Err(e);
                },
            };
            let it = AreaSearchItem { item: top, key_word: String::new() };
            let mut out: Vec<AreaSearchItem> = Vec::new();
            out.push(it);
            proof {
                assert(blank@ =~= Seq::<char>::empty());
            }
            assert(Seq::new(out@.len(), |i: int| out@[i]@) =~= seq![out@[0]@]);
            return Ok(out);
        }
        self.search(name, limit)
    }

    /// Whether a search for `name` with at most `limit` results can split its
    /// search texts into chunks for `cpus` workers (`search_ok`): it can unless
    /// it reaches the texts and there are fewer of them than workers.
    pub fn search_fits(&self, name: &str, limit: usize, cpus: usize) -> (r: bool)
        ensures
            r == search_ok(self@, name@, limit as nat, cpus as nat),
    {
        proof {
            use_type_invariant(self);
        }
        let nc = chars_of(name);
        let t = crate::text::trim_chars(&nc);
        if t.len() == 0 {
            return true;
        }
        let sp = chars_of(" ");
        proof {
            reveal_strlit(" ");
        }
        let nospace = crate::text::remove_all_chars(&t, &sp);
        let nospace_s = string_of(nospace.as_slice());
        let lower = crate::text::str_to_lowercase(nospace_s.as_str());
        let ename = chars_of(lower.as_str());
        let cands = self.exact_cands_exec(&ename, limit);
        !(cands.len() < limit && self.details.len() > 0 && (cpus == 0 || self.details.len() / cpus == 0))
    }
}

} // verus!
