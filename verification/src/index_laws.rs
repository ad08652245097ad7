//! What an index built from area records answers, stated over the records:
//! which codes it knows, the shape of the areas it lists below a code, and
//! the rows it gives for the levels of a code.
use vstd::prelude::*;
use crate::area_code::{
    add_levels, child_item, child_items, data_codes, detail_rows, has_children, is_child, lookup_name, mark_row,
    name_rows, path_error, selected_leaf, spec_childs, spec_detail, spec_find, tree_paths, AreaCodeDataView,
    AreaCodeModel, DetailItemView, ItemView, NameRow, TreePath,
};
use crate::code_path::code_levels;
use crate::laws::{lemma_add_levels_contains, lemma_tree_paths_has_levels};

verus! {

/// The nodes of the tree of `codes` are exactly the leading parts of the
/// levels of those codes.
proof fn lemma_tree_paths_exact(codes: Seq<Seq<char>>, q: TreePath)
    ensures
        tree_paths(codes).contains(q) <==> exists|j: int, k: int|
            #![trigger code_levels(codes[j]).take(k)]
            0 <= j < codes.len() && 1 <= k <= code_levels(codes[j]).len() && q == code_levels(
                codes[j],
            ).take(k),
    decreases codes.len(),
{
    if codes.len() > 0 {
        let d = codes.drop_last();
        let lv = code_levels(codes.last());
        lemma_tree_paths_exact(d, q);
        lemma_add_levels_contains(tree_paths(d), lv, lv.len() as int, q);
        if tree_paths(codes).contains(q) {
            if tree_paths(d).contains(q) {
                let (j, k) = choose|j: int, k: int|
                    #![trigger code_levels(d[j]).take(k)]
                    0 <= j < d.len() && 1 <= k <= code_levels(d[j]).len() && q == code_levels(d[j]).take(k);
                assert(d[j] == codes[j]);
                assert(q == code_levels(codes[j]).take(k));
            } else {
                let k = choose|k: int| 1 <= k <= lv.len() && q == #[trigger] lv.take(k);
                assert(q == code_levels(codes[codes.len() - 1]).take(k));
            }
        }
        if exists|j: int, k: int|
            #![trigger code_levels(codes[j]).take(k)]
            0 <= j < codes.len() && 1 <= k <= code_levels(codes[j]).len() && q == code_levels(codes[j]).take(k) {
            let (j, k) = choose|j: int, k: int|
                #![trigger code_levels(codes[j]).take(k)]
                0 <= j < codes.len() && 1 <= k <= code_levels(codes[j]).len() && q == code_levels(codes[j]).take(k);
            lemma_tree_paths_has_levels(codes, j, k);
        }
    }
}

/// No level from `d` on is missing exactly when the node of every leading
/// part after the first `d` levels is in the tree.
proof fn lemma_path_error_none(ps: Seq<TreePath>, lv: Seq<Seq<char>>, d: int)
    requires
        0 <= d,
    ensures
        path_error(ps, lv, d) is None <==> forall|i: int| d < i <= lv.len() ==> ps.contains(#[trigger] lv.take(i)),
    decreases lv.len() - d,
{
    if d < lv.len() {
        lemma_path_error_none(ps, lv, d + 1);
        if path_error(ps, lv, d) is None {
            assert forall|i: int| d < i <= lv.len() implies ps.contains(#[trigger] lv.take(i)) by {
                if i > d + 1 {
                }
            }
        }
    }
}

/// Whether the levels `lv` lead the levels of some record of `data`: they
/// are the levels of a record's code, or its first levels.
pub open spec fn leads_some_record(data: Seq<AreaCodeDataView>, lv: Seq<Seq<char>>) -> bool {
    exists|j: int|
        0 <= j < data.len() && lv.len() <= code_levels(data[j].code).len() && #[trigger] code_levels(
            data[j].code,
        ).take(lv.len() as int) == lv
}

/// An index built from the records `data` knows exactly the codes whose
/// levels lead the levels of some record (a blank code is the top of the
/// tree): looking up such a code, or asking for the areas below it,
/// succeeds; for any other code both fail with `NotFind`.
pub proof fn law_found_exactly(data: Seq<AreaCodeDataView>, m: AreaCodeModel, code: Seq<char>)
    requires
        m.paths == tree_paths(data_codes(data)),
    ensures
        spec_find(m, code) is Ok <==> (code_levels(code).len() == 0 || leads_some_record(
            data,
            code_levels(code),
        )),
        spec_childs(m, code) is Ok <==> (code_levels(code).len() == 0 || leads_some_record(
            data,
            code_levels(code),
        )),
{
    let lv = code_levels(code);
    let codes = data_codes(data);
    lemma_path_error_none(m.paths, lv, 0);
    if lv.len() > 0 {
        if leads_some_record(data, lv) {
            let j = choose|j: int|
                0 <= j < data.len() && lv.len() <= code_levels(data[j].code).len() && #[trigger] code_levels(
                    data[j].code,
                ).take(lv.len() as int) == lv;
            assert(codes[j] == data[j].code);
            assert forall|i: int| 0 < i <= lv.len() implies m.paths.contains(#[trigger] lv.take(i)) by {
                lemma_tree_paths_has_levels(codes, j, i);
                assert(code_levels(codes[j]).take(i) =~= lv.take(i));
            }
        }
        if path_error(m.paths, lv, 0) is None {
            assert(m.paths.contains(lv.take(lv.len() as int)));
            assert(lv.take(lv.len() as int) =~= lv);
            lemma_tree_paths_exact(codes, lv);
            let (j, k) = choose|j: int, k: int|
                #![trigger code_levels(codes[j]).take(k)]
                0 <= j < codes.len() && 1 <= k <= code_levels(codes[j]).len() && lv == code_levels(codes[j]).take(k);
            assert(codes[j] == data[j].code);
            assert(k == lv.len());
            assert(code_levels(data[j].code).take(lv.len() as int) == lv);
        }
    }
}


/// Adding nodes never makes one occur twice.
proof fn lemma_add_levels_no_dup(ps: Seq<TreePath>, lv: Seq<Seq<char>>, k: int)
    requires
        ps.no_duplicates(),
    ensures
        add_levels(ps, lv, k).no_duplicates(),
    decreases k,
{
    if k > 0 {
        lemma_add_levels_no_dup(ps, lv, k - 1);
        let a = add_levels(ps, lv, k - 1);
        if !a.contains(lv.take(k)) {
            let r = a.push(lv.take(k));
            assert forall|i: int, j: int| 0 <= i < r.len() && 0 <= j < r.len() && i != j implies r[i] != r[j] by {
                if i < a.len() && j < a.len() {
                    assert(r[i] == a[i] && r[j] == a[j]);
                } else if i < a.len() {
                    assert(r[i] == a[i]);
                } else if j < a.len() {
                    assert(r[j] == a[j]);
                }
            }
        }
    }
}

/// No node occurs twice in the tree of `codes`.
proof fn lemma_tree_paths_no_dup(codes: Seq<Seq<char>>)
    ensures
        tree_paths(codes).no_duplicates(),
    decreases codes.len(),
{
    if codes.len() > 0 {
        lemma_tree_paths_no_dup(codes.drop_last());
        let lv = code_levels(codes.last());
        lemma_add_levels_no_dup(tree_paths(codes.drop_last()), lv, lv.len() as int);
    }
}

/// Every item listed below `p` comes from a node of `qs` directly below `p`.
proof fn lemma_child_items_from(names: Seq<NameRow>, ps: Seq<TreePath>, qs: Seq<TreePath>, p: TreePath)
    ensures
        forall|a: int|
            #![trigger child_items(names, ps, qs, p)[a]]
            0 <= a < child_items(names, ps, qs, p).len() ==> exists|i: int|
                0 <= i < qs.len() && is_child(p, qs[i]) && #[trigger] child_item(names, ps, qs[i]) == Some(
                    child_items(names, ps, qs, p)[a],
                ),
    decreases qs.len(),
{
    if qs.len() > 0 {
        let d = qs.drop_last();
        lemma_child_items_from(names, ps, d, p);
        let v = child_items(names, ps, qs, p);
        let rest = child_items(names, ps, d, p);
        assert forall|a: int| #![trigger v[a]] 0 <= a < v.len() implies exists|i: int|
            0 <= i < qs.len() && is_child(p, qs[i]) && #[trigger] child_item(names, ps, qs[i]) == Some(v[a]) by {
            if a < rest.len() {
                assert(v[a] == rest[a]);
                let i = choose|i: int| 0 <= i < d.len() && is_child(p, d[i]) && #[trigger] child_item(names, ps, d[i]) == Some(rest[a]);
                assert(qs[i] == d[i]);
            } else {
                assert(child_item(names, ps, qs[qs.len() - 1]) == Some(v[a]));
            }
        }
    }
}

/// A node directly below `p` is `p` and its own code.
proof fn lemma_child_node(p: TreePath, q: TreePath)
    requires
        is_child(p, q),
    ensures
        q == p.push(q.last()),
{
    assert(q =~= q.take(p.len() as int).push(q.last()));
}

/// Items listed below `p` from distinct nodes have distinct codes.
proof fn lemma_child_items_distinct(names: Seq<NameRow>, ps: Seq<TreePath>, qs: Seq<TreePath>, p: TreePath)
    requires
        qs.no_duplicates(),
    ensures
        forall|a: int, b: int|
            0 <= a < b < child_items(names, ps, qs, p).len() ==> (#[trigger] child_items(names, ps, qs, p)[a]).code
                != (#[trigger] child_items(names, ps, qs, p)[b]).code,
    decreases qs.len(),
{
    if qs.len() > 0 {
        let d = qs.drop_last();
        assert(d.no_duplicates()) by {
            assert forall|i: int, j: int| 0 <= i < d.len() && 0 <= j < d.len() && i != j implies d[i] != d[j] by {
                assert(d[i] == qs[i] && d[j] == qs[j]);
            }
        }
        lemma_child_items_distinct(names, ps, d, p);
        lemma_child_items_from(names, ps, d, p);
        let v = child_items(names, ps, qs, p);
        let rest = child_items(names, ps, d, p);
        let last = qs[qs.len() - 1];
        assert forall|a: int, b: int| 0 <= a < b < v.len() implies (#[trigger] v[a]).code != (#[trigger] v[b]).code by {
            if b < rest.len() {
                assert(v[a] == rest[a] && v[b] == rest[b]);
            } else {
                assert(v[a] == rest[a]);
                assert(child_item(names, ps, last) == Some(v[b]));
                let i = choose|i: int| 0 <= i < d.len() && is_child(p, d[i]) && #[trigger] child_item(names, ps, d[i]) == Some(rest[a]);
                assert(qs[i] == d[i]);
                assert(d[i] != last);
                lemma_child_node(p, d[i]);
                lemma_child_node(p, last);
            }
        }
    }
}

/// Nothing is listed below a node that has no node below it among `qs`.
proof fn lemma_child_items_none(names: Seq<NameRow>, ps: Seq<TreePath>, qs: Seq<TreePath>, p: TreePath)
    requires
        forall|i: int| 0 <= i < qs.len() ==> !is_child(p, #[trigger] qs[i]),
    ensures
        child_items(names, ps, qs, p) == Seq::<ItemView>::empty(),
    decreases qs.len(),
{
    if qs.len() > 0 {
        let d = qs.drop_last();
        assert forall|i: int| 0 <= i < d.len() implies !is_child(p, #[trigger] d[i]) by {
            assert(d[i] == qs[i]);
        }
        lemma_child_items_none(names, ps, d, p);
        assert(!is_child(p, qs[qs.len() - 1]));
    }
}

/// The areas an index built from `data` lists below a code are distinct
/// areas directly below it in the tree; the first record of each area's
/// code is not hidden and gives its listed name; an area is a leaf exactly
/// when no area lies below it, and then, where its code's levels are its
/// node, nothing is listed below it.
pub proof fn law_childs_shape(data: Seq<AreaCodeDataView>, m: AreaCodeModel, code: Seq<char>)
    requires
        m.paths == tree_paths(data_codes(data)),
        forall|c: Seq<char>| #[trigger] lookup_name(m.names, c) == lookup_name(name_rows(data), c),
    ensures
        spec_childs(m, code) matches Ok(v) ==> {
            &&& forall|a: int, b: int| 0 <= a < b < v.len() ==> (#[trigger] v[a]).code != (#[trigger] v[b]).code
            &&& forall|a: int|
                0 <= a < v.len() ==> {
                    &&& m.paths.contains(code_levels(code).push((#[trigger] v[a]).code))
                    &&& lookup_name(name_rows(data), v[a].code) == Some((false, v[a].name))
                    &&& v[a].leaf == !has_children(m.paths, code_levels(code).push(v[a].code))
                    &&& (v[a].leaf && code_levels(v[a].code) == code_levels(code).push(v[a].code))
                        ==> spec_childs(m, v[a].code) == Ok::<Seq<ItemView>, crate::error::AreaErrorView>(
                        Seq::empty(),
                    )
                }
        },
{
    let lv = code_levels(code);
    let ps = m.paths;
    if let Ok(v) = spec_childs(m, code) {
        assert(path_error(ps, lv, 0) is None);
        assert(v == child_items(m.names, ps, ps, lv));
        lemma_tree_paths_no_dup(data_codes(data));
        lemma_child_items_distinct(m.names, ps, ps, lv);
        lemma_child_items_from(m.names, ps, ps, lv);
        lemma_path_error_none(ps, lv, 0);
        assert forall|a: int| 0 <= a < v.len() implies {
            &&& m.paths.contains(code_levels(code).push((#[trigger] v[a]).code))
            &&& lookup_name(name_rows(data), v[a].code) == Some((false, v[a].name))
            &&& v[a].leaf == !has_children(m.paths, code_levels(code).push(v[a].code))
            &&& (v[a].leaf && code_levels(v[a].code) == code_levels(code).push(v[a].code))
                ==> spec_childs(m, v[a].code) == Ok::<Seq<ItemView>, crate::error::AreaErrorView>(
                Seq::empty(),
            )
        } by {
            let i = choose|i: int| 0 <= i < ps.len() && is_child(lv, ps[i]) && #[trigger] child_item(m.names, ps, ps[i]) == Some(v[a]);
            let q = ps[i];
            lemma_child_node(lv, q);
            assert(v[a].code == q.last());
            assert(lookup_name(m.names, q.last()) == lookup_name(name_rows(data), q.last()));
            if v[a].leaf && code_levels(v[a].code) == q {
                lemma_path_error_none(ps, q, 0);
                assert forall|k: int| 0 < k <= q.len() implies ps.contains(#[trigger] q.take(k)) by {
                    if k <= lv.len() {
                        assert(q.take(k) =~= lv.take(k));
                    } else {
                        assert(q.take(k) =~= q);
                    }
                }
                assert forall|t: int| 0 <= t < ps.len() implies !is_child(q, #[trigger] ps[t]) by {
                    if is_child(q, ps[t]) {
                        assert(has_children(ps, q));
                    }
                }
                lemma_child_items_none(m.names, ps, ps, q);
            }
        }
    }
}


/// The items of a row of `detail`.
pub open spec fn row_items(row: Seq<DetailItemView>) -> Seq<ItemView> {
    Seq::new(row.len(), |i: int| row[i].item)
}

/// Level `i` of `lv`, where there is one.
pub open spec fn level_at(lv: Seq<Seq<char>>, i: int) -> Option<Seq<char>> {
    if 0 <= i < lv.len() {
        Some(lv[i])
    } else {
        None
    }
}

/// Marking a row keeps its items.
proof fn lemma_row_items_mark(items: Seq<ItemView>, c: Option<Seq<char>>)
    ensures
        row_items(mark_row(items, c)) == items,
{
    assert(row_items(mark_row(items, c)) =~= items);
}

/// The shape of the rows from level `d` on.
proof fn lemma_detail_rows_shape(m: AreaCodeModel, lv: Seq<Seq<char>>, d: int, now: Seq<ItemView>)
    requires
        0 <= d <= lv.len(),
    ensures
        detail_rows(m, lv, d, now) matches Ok(rs) ==> {
            &&& 1 <= rs.len() <= lv.len() - d + 1
            &&& row_items(rs[0]) == now
            &&& forall|i: int| 0 <= i < rs.len() ==> #[trigger] rs[i] == mark_row(row_items(rs[i]), level_at(lv, d + i))
            &&& forall|i: int| 1 <= i < rs.len() ==> spec_childs(m, lv[d + i - 1]) == Ok::<Seq<ItemView>, crate::error::AreaErrorView>(row_items(#[trigger] rs[i]))
            &&& forall|i: int| 0 <= i < rs.len() - 1 ==> d + i < lv.len() && !selected_leaf(row_items(#[trigger] rs[i]), lv[d + i])
            &&& rs.len() <= lv.len() - d ==> selected_leaf(row_items(rs[rs.len() - 1]), lv[d + rs.len() - 1])
        },
    decreases lv.len() - d,
{
    if d < lv.len() {
        let row = mark_row(now, Some(lv[d]));
        lemma_row_items_mark(now, Some(lv[d]));
        if !selected_leaf(now, lv[d]) {
            if let Ok(next) = spec_childs(m, lv[d]) {
                lemma_detail_rows_shape(m, lv, d + 1, next);
                if let Ok(rest) = detail_rows(m, lv, d + 1, next) {
                    let rs = seq![row] + rest;
                    assert(detail_rows(m, lv, d, now) == Ok::<Seq<Seq<DetailItemView>>, crate::error::AreaErrorView>(rs));
                    assert(rs[0] == row);
                    assert forall|i: int| 1 <= i < rs.len() implies #[trigger] rs[i] == rest[i - 1] by {}
                    assert forall|i: int| 0 <= i < rs.len() implies #[trigger] rs[i] == mark_row(row_items(rs[i]), level_at(lv, d + i)) by {
                        if i > 0 {
                            assert(rs[i] == rest[i - 1]);
                            assert(rest[i - 1] == mark_row(row_items(rest[i - 1]), level_at(lv, d + 1 + (i - 1))));
                        }
                    }
                    assert forall|i: int| 1 <= i < rs.len() implies spec_childs(m, lv[d + i - 1]) == Ok::<Seq<ItemView>, crate::error::AreaErrorView>(row_items(#[trigger] rs[i])) by {
                        assert(rs[i] == rest[i - 1]);
                        if i > 1 {
                            assert(spec_childs(m, lv[d + 1 + (i - 1) - 1]) == Ok::<Seq<ItemView>, crate::error::AreaErrorView>(row_items(rest[i - 1])));
                        } else {
                            assert(row_items(rest[0]) == next);
                        }
                    }
                    assert forall|i: int| 0 <= i < rs.len() - 1 implies d + i < lv.len() && !selected_leaf(row_items(#[trigger] rs[i]), lv[d + i]) by {
                        if i > 0 {
                            assert(rs[i] == rest[i - 1]);
                            assert(!selected_leaf(row_items(rest[i - 1]), lv[d + 1 + (i - 1)]));
                        }
                    }
                    if rs.len() <= lv.len() - d {
                        assert(rs[rs.len() - 1] == rest[rest.len() - 1]);
                    }
                }
            }
        }
    } else {
        lemma_row_items_mark(now, None);
    }
}

/// The rows `detail` gives for a code: none for a blank code; otherwise one
/// row per level, from the top, until the row whose marked area is a leaf.
/// The first row lists the areas at the top, row `i` the areas below level
/// `i - 1`; in the row of each level exactly the areas with that level's code
/// are marked, and a last row past the final level marks nothing.
pub proof fn law_detail_shape(m: AreaCodeModel, code: Seq<char>)
    ensures
        spec_detail(m, code) matches Ok(ls) ==> {
            &&& code_levels(code).len() == 0 ==> ls.len() == 0
            &&& code_levels(code).len() > 0 ==> {
                &&& 1 <= ls.len() <= code_levels(code).len() + 1
                &&& spec_childs(m, seq![]) == Ok::<Seq<ItemView>, crate::error::AreaErrorView>(row_items(ls[0]))
                &&& forall|i: int| 1 <= i < ls.len() ==> spec_childs(m, code_levels(code)[i - 1]) == Ok::<Seq<ItemView>, crate::error::AreaErrorView>(row_items(#[trigger] ls[i]))
                &&& forall|i: int| 0 <= i < ls.len() ==> #[trigger] ls[i] == mark_row(row_items(ls[i]), level_at(code_levels(code), i))
                &&& forall|i: int| 0 <= i < ls.len() - 1 ==> !selected_leaf(row_items(#[trigger] ls[i]), code_levels(code)[i])
                &&& ls.len() <= code_levels(code).len() ==> selected_leaf(row_items(ls[ls.len() - 1]), code_levels(code)[ls.len() - 1])
            }
        },
{
    let lv = code_levels(code);
    if lv.len() > 0 {
        if let Ok(top) = spec_childs(m, seq![]) {
            lemma_detail_rows_shape(m, lv, 0, top);
            if let Ok(ls) = detail_rows(m, lv, 0, top) {
                assert forall|i: int| 1 <= i < ls.len() implies spec_childs(m, lv[i - 1]) == Ok::<Seq<ItemView>, crate::error::AreaErrorView>(row_items(#[trigger] ls[i])) by {
                    assert(spec_childs(m, lv[0 + i - 1]) == Ok::<Seq<ItemView>, crate::error::AreaErrorView>(row_items(ls[i])));
                }
                assert forall|i: int| 0 <= i < ls.len() implies #[trigger] ls[i] == mark_row(row_items(ls[i]), level_at(lv, i)) by {
                    assert(ls[i] == mark_row(row_items(ls[i]), level_at(lv, 0 + i)));
                }
                assert forall|i: int| 0 <= i < ls.len() - 1 implies !selected_leaf(row_items(#[trigger] ls[i]), lv[i]) by {
                    assert(!selected_leaf(row_items(ls[i]), lv[0 + i]));
                }
            }
        }
    }
}

} // verus!
