//! What holds of the library across its operations: orders that sorting
//! gives, what a code tree holds after levels are added, and what an index
//! built from records answers for their codes.
use vstd::prelude::*;
use crate::by_code::{insert_by_key, sort_by_key, text_lt};
use crate::area_code::{
    add_levels, add_path, data_codes, is_child, path_error, spec_childs, spec_find, tree_paths,
    AreaCodeDataView, AreaCodeModel, TreePath,
};
use crate::code_path::{
    code_levels, code_ok, cut_index, is_char_cut, lemma_full_cut, lemma_prefix_bytes_mono, level_ends,
    prefix_bytes,
};
use crate::data_source::rows_from;
use crate::search_model::{first_n, insert_cand, search_cands, sort_cands, Cand};
use crate::store::{node_present, tree_children, IndexInfoView};
use crate::text::{lowercase, trim, utf8_len};

verus! {

broadcast use vstd::seq_lib::group_to_multiset_ensures;

/// No text comes before itself.
proof fn lemma_text_lt_irreflexive(a: Seq<char>)
    ensures
        !text_lt(a, a),
    decreases a.len(),
{
    if a.len() > 0 {
        lemma_text_lt_irreflexive(a.drop_first());
    }
}

/// The order of texts is transitive.
proof fn lemma_text_lt_transitive(a: Seq<char>, b: Seq<char>, c: Seq<char>)
    requires
        text_lt(a, b),
        text_lt(b, c),
    ensures
        text_lt(a, c),
    decreases a.len(),
{
    if a.len() > 0 && b.len() > 0 && c.len() > 0 && a[0] == b[0] && b[0] == c[0] {
        lemma_text_lt_transitive(a.drop_first(), b.drop_first(), c.drop_first());
    }
}

/// Of two different texts, one comes before the other.
proof fn lemma_text_lt_total(a: Seq<char>, b: Seq<char>)
    requires
        a != b,
    ensures
        text_lt(a, b) || text_lt(b, a),
    decreases a.len(),
{
    if a.len() > 0 && b.len() > 0 && a[0] == b[0] {
        if a.drop_first() == b.drop_first() {
            assert(a =~= seq![a[0]] + a.drop_first());
            assert(b =~= seq![b[0]] + b.drop_first());
        }
        lemma_text_lt_total(a.drop_first(), b.drop_first());
    } else if a.len() == 0 && b.len() == 0 {
        assert(a =~= b);
    }
}

/// "Does not come after" is transitive.
proof fn lemma_text_le_transitive(a: Seq<char>, b: Seq<char>, c: Seq<char>)
    requires
        !text_lt(b, a),
        !text_lt(c, b),
    ensures
        !text_lt(c, a),
{
    if text_lt(c, a) {
        if a == b {
        } else {
            lemma_text_lt_total(a, b);
            lemma_text_lt_transitive(c, a, b);
        }
    }
}

/// Whether the elements of `s` are in the order of their keys.
pub open spec fn sorted_by_key<A>(s: Seq<A>, key: spec_fn(A) -> Seq<char>) -> bool {
    forall|i: int, j: int| 0 <= i < j < s.len() ==> !text_lt(key(#[trigger] s[j]), key(#[trigger] s[i]))
}

/// Inserting keeps the elements and adds one.
proof fn lemma_insert_by_key_multiset<A>(s: Seq<A>, x: A, key: spec_fn(A) -> Seq<char>)
    ensures
        insert_by_key(s, x, key).to_multiset() == s.to_multiset().insert(x),
    decreases s.len(),
{
    if s.len() > 0 {
        if text_lt(key(x), key(s.last())) {
            lemma_insert_by_key_multiset(s.drop_last(), x, key);
            assert(s.drop_last().push(s.last()) =~= s);
            assert(s.drop_last().to_multiset().insert(x).insert(s.last()) =~= s.drop_last().to_multiset().insert(
                s.last(),
            ).insert(x));
        }
    } else {
        assert(seq![x] =~= Seq::<A>::empty().push(x));
    }
}

/// Inserting into a sorted sequence gives a sorted sequence.
proof fn lemma_insert_by_key_sorted<A>(s: Seq<A>, x: A, key: spec_fn(A) -> Seq<char>)
    requires
        sorted_by_key(s, key),
    ensures
        sorted_by_key(insert_by_key(s, x, key), key),
    decreases s.len(),
{
    let r = insert_by_key(s, x, key);
    if s.len() == 0 {
    } else if text_lt(key(x), key(s.last())) {
        let d = s.drop_last();
        let last = s.last();
        assert(sorted_by_key(d, key)) by {
            assert forall|i: int, j: int| 0 <= i < j < d.len() implies !text_lt(key(#[trigger] d[j]), key(#[trigger] d[i])) by {
                assert(d[i] == s[i] && d[j] == s[j]);
            }
        }
        lemma_insert_by_key_sorted(d, x, key);
        let ins = insert_by_key(d, x, key);
        lemma_insert_by_key_multiset(d, x, key);
        assert forall|i: int| 0 <= i < ins.len() implies !text_lt(key(last), key(#[trigger] ins[i])) by {
            assert(ins.to_multiset().count(ins[i]) > 0);
            assert(d.to_multiset().insert(x).count(ins[i]) > 0);
            if ins[i] == x {
                if text_lt(key(last), key(x)) {
                    lemma_text_lt_transitive(key(x), key(last), key(x));
                    lemma_text_lt_irreflexive(key(x));
                }
            } else {
                assert(d.to_multiset().count(ins[i]) > 0);
                assert(d.contains(ins[i]));
                let k = choose|k: int| 0 <= k < d.len() && d[k] == ins[i];
                assert(s[k] == d[k]);
                assert(s[s.len() - 1] == last);
            }
        }
        assert forall|i: int, j: int| 0 <= i < j < r.len() implies !text_lt(key(#[trigger] r[j]), key(#[trigger] r[i])) by {
            if j == r.len() - 1 {
                assert(r[j] == last);
                assert(r[i] == ins[i]);
            } else {
                assert(r[i] == ins[i] && r[j] == ins[j]);
            }
        }
    } else {
        let last = s.last();
        assert forall|i: int, j: int| 0 <= i < j < r.len() implies !text_lt(key(#[trigger] r[j]), key(#[trigger] r[i])) by {
            if j == r.len() - 1 {
                assert(r[j] == x);
                assert(r[i] == s[i]);
                if i < s.len() - 1 {
                    assert(!text_lt(key(s[s.len() - 1]), key(s[i])));
                    lemma_text_le_transitive(key(s[i]), key(last), key(x));
                }
            } else {
                assert(r[i] == s[i] && r[j] == s[j]);
            }
        }
    }
}

/// Sorting by key puts the elements in the order of their keys, and keeps
/// every element as often as it came: no element is lost or added.
pub proof fn law_sort_by_key<A>(s: Seq<A>, key: spec_fn(A) -> Seq<char>)
    ensures
        sorted_by_key(sort_by_key(s, key), key),
        sort_by_key(s, key).to_multiset() == s.to_multiset(),
    decreases s.len(),
{
    if s.len() > 0 {
        law_sort_by_key(s.drop_last(), key);
        lemma_insert_by_key_sorted(sort_by_key(s.drop_last(), key), s.last(), key);
        lemma_insert_by_key_multiset(sort_by_key(s.drop_last(), key), s.last(), key);
        assert(s.drop_last().push(s.last()) =~= s);
    }
}

/// Whether candidates are in increasing order of distance.
pub open spec fn cands_sorted(s: Seq<Cand>) -> bool {
    forall|i: int, j: int| 0 <= i < j < s.len() ==> (#[trigger] s[i]).0 <= (#[trigger] s[j]).0
}

/// Inserting a candidate keeps the others and adds it.
proof fn lemma_insert_cand_multiset(s: Seq<Cand>, x: Cand)
    ensures
        insert_cand(s, x).to_multiset() == s.to_multiset().insert(x),
    decreases s.len(),
{
    if s.len() > 0 {
        if !(s.last().0 <= x.0) {
            lemma_insert_cand_multiset(s.drop_last(), x);
            assert(s.drop_last().push(s.last()) =~= s);
            assert(s.drop_last().to_multiset().insert(x).insert(s.last()) =~= s.drop_last().to_multiset().insert(
                s.last(),
            ).insert(x));
        }
    } else {
        assert(seq![x] =~= Seq::<Cand>::empty().push(x));
    }
}

/// Inserting a candidate into a sorted sequence gives a sorted sequence.
proof fn lemma_insert_cand_sorted(s: Seq<Cand>, x: Cand)
    requires
        cands_sorted(s),
    ensures
        cands_sorted(insert_cand(s, x)),
    decreases s.len(),
{
    let r = insert_cand(s, x);
    if s.len() == 0 {
    } else if s.last().0 <= x.0 {
        assert forall|i: int, j: int| 0 <= i < j < r.len() implies (#[trigger] r[i]).0 <= (#[trigger] r[j]).0 by {
            if j == r.len() - 1 {
                assert(r[i] == s[i]);
                if i < s.len() - 1 {
                    assert(s[i].0 <= s[s.len() - 1].0);
                }
            } else {
                assert(r[i] == s[i] && r[j] == s[j]);
            }
        }
    } else {
        let d = s.drop_last();
        let last = s.last();
        assert(cands_sorted(d)) by {
            assert forall|i: int, j: int| 0 <= i < j < d.len() implies (#[trigger] d[i]).0 <= (#[trigger] d[j]).0 by {
                assert(d[i] == s[i] && d[j] == s[j]);
            }
        }
        lemma_insert_cand_sorted(d, x);
        let ins = insert_cand(d, x);
        lemma_insert_cand_multiset(d, x);
        assert forall|i: int| 0 <= i < ins.len() implies (#[trigger] ins[i]).0 <= last.0 by {
            assert(ins.to_multiset().count(ins[i]) > 0);
            assert(d.to_multiset().insert(x).count(ins[i]) > 0);
            if ins[i] != x {
                assert(d.to_multiset().count(ins[i]) > 0);
                assert(d.contains(ins[i]));
                let k = choose|k: int| 0 <= k < d.len() && d[k] == ins[i];
                assert(s[k] == d[k]);
                assert(s[k].0 <= s[s.len() - 1].0);
            }
        }
        assert forall|i: int, j: int| 0 <= i < j < r.len() implies (#[trigger] r[i]).0 <= (#[trigger] r[j]).0 by {
            if j == r.len() - 1 {
                assert(r[i] == ins[i]);
            } else {
                assert(r[i] == ins[i] && r[j] == ins[j]);
            }
        }
    }
}

/// Sorting search candidates puts them in increasing order of distance, and
/// keeps every candidate as often as it came.
pub proof fn law_sort_cands(s: Seq<Cand>)
    ensures
        cands_sorted(sort_cands(s)),
        sort_cands(s).to_multiset() == s.to_multiset(),
    decreases s.len(),
{
    if s.len() > 0 {
        law_sort_cands(s.drop_last());
        lemma_insert_cand_sorted(sort_cands(s.drop_last()), s.last());
        lemma_insert_cand_multiset(sort_cands(s.drop_last()), s.last());
        assert(s.drop_last().push(s.last()) =~= s);
    }
}


/// The first candidates of a sorted sequence are sorted.
proof fn lemma_first_n_sorted(s: Seq<Cand>, n: nat)
    requires
        cands_sorted(s),
    ensures
        cands_sorted(first_n(s, n)),
{
    let r = first_n(s, n);
    assert forall|i: int, j: int| 0 <= i < j < r.len() implies (#[trigger] r[i]).0 <= (#[trigger] r[j]).0 by {
        assert(r[i] == s[i] && r[j] == s[j]);
    }
}

/// A search lists its candidates in increasing order of distance: the closest
/// matches come first.
pub proof fn law_search_closest_first(m: AreaCodeModel, name: Seq<char>, limit: nat, cpus: nat)
    ensures
        search_cands(m, name, limit, cpus) matches Some(cs) ==> cands_sorted(cs),
{
    let t = crate::text::trim(name);
    let ename = lowercase(crate::text::remove_all(t, " "@));
    let ex = crate::search_model::exact_cands(m.groups, ename, limit);
    law_sort_cands(ex);
    if let Some(cs) = search_cands(m, name, limit, cpus) {
        if ex.len() < limit && m.details.len() > 0 {
            let size: nat = if cpus == 0 {
                0
            } else {
                m.details.len() / cpus
            };
            let check = crate::search_model::check_name(t);
            let toks = crate::search_model::tokens_of(crate::search_model::split_ws(check));
            let match_len = crate::text::utf8_len(crate::text::remove_all(check, " "@));
            let fz = crate::search_model::fuzzy_cands(m.details, size, check, toks, match_len, (limit - ex.len()) as nat);
            law_sort_cands(ex + fz);
            lemma_first_n_sorted(sort_cands(ex + fz), limit);
        }
    }
}

/// What `add_path` holds: what was there, and the added node.
proof fn lemma_add_path_contains(ps: Seq<TreePath>, p: TreePath, q: TreePath)
    ensures
        add_path(ps, p).contains(q) <==> (ps.contains(q) || q == p),
{
    if !ps.contains(p) {
        let r = ps.push(p);
        if ps.contains(q) {
            let i = choose|i: int| 0 <= i < ps.len() && ps[i] == q;
            assert(r[i] == q);
        }
        if q == p {
            assert(r[ps.len() as int] == q);
        }
        if r.contains(q) {
            let i = choose|i: int| 0 <= i < r.len() && r[i] == q;
            if i < ps.len() {
                assert(ps[i] == q);
            }
        }
    }
}

/// What adding the first `k` levels of `lv` holds: what was there, and the
/// nodes of the first one, two, ... `k` levels.
pub(crate) proof fn lemma_add_levels_contains(ps: Seq<TreePath>, lv: Seq<Seq<char>>, k: int, q: TreePath)
    requires
        0 <= k <= lv.len(),
    ensures
        add_levels(ps, lv, k).contains(q) <==> (ps.contains(q) || exists|j: int|
            1 <= j <= k && q == #[trigger] lv.take(j)),
    decreases k,
{
    if k > 0 {
        lemma_add_levels_contains(ps, lv, k - 1, q);
        lemma_add_path_contains(add_levels(ps, lv, k - 1), lv.take(k), q);
        if exists|j: int| 1 <= j <= k && q == #[trigger] lv.take(j) {
            let j = choose|j: int| 1 <= j <= k && q == #[trigger] lv.take(j);
            if j < k {
                assert(1 <= j <= k - 1 && q == lv.take(j));
            }
        }
    }
}

/// Adding the levels of a code to a code tree puts the node of each of its
/// leading levels in the tree, and keeps every node that was there.
pub proof fn law_add_levels_present(ps: Seq<TreePath>, lv: Seq<Seq<char>>, q: TreePath)
    ensures
        forall|k: int| 1 <= k <= lv.len() ==> #[trigger] add_levels(ps, lv, lv.len() as int).contains(lv.take(k)),
        ps.contains(q) ==> add_levels(ps, lv, lv.len() as int).contains(q),
{
    assert forall|k: int| 1 <= k <= lv.len() implies #[trigger] add_levels(ps, lv, lv.len() as int).contains(lv.take(k)) by {
        lemma_add_levels_contains(ps, lv, lv.len() as int, lv.take(k));
    }
    lemma_add_levels_contains(ps, lv, lv.len() as int, q);
}

/// A child of `p` among `qs` is listed among the children of `p`.
proof fn lemma_tree_children_lists(ps: Seq<TreePath>, qs: Seq<TreePath>, p: TreePath, i: int)
    requires
        0 <= i < qs.len(),
        is_child(p, qs[i]),
    ensures
        exists|k: int| 0 <= k < tree_children(ps, qs, p).len() && (#[trigger] tree_children(ps, qs, p)[k]).0 == qs[i].last(),
    decreases qs.len(),
{
    let tc = tree_children(ps, qs, p);
    if i == qs.len() - 1 {
        assert(tc[tc.len() - 1].0 == qs[i].last());
    } else {
        let d = qs.drop_last();
        assert(d[i] == qs[i]);
        lemma_tree_children_lists(ps, d, p, i);
        let rest = tree_children(ps, d, p);
        let k = choose|k: int| 0 <= k < rest.len() && (#[trigger] rest[k]).0 == d[i].last();
        assert(tc[k] == rest[k]);
    }
}

/// After the levels `lv` are added to a tree store, asking for the children of
/// any leading part of `lv` finds that node, and lists the next level of `lv`
/// among its children.
pub proof fn law_tree_store_add_then_childs(ps: Seq<TreePath>, lv: Seq<Seq<char>>, k: int)
    requires
        0 <= k < lv.len(),
    ensures
        node_present(add_levels(ps, lv, lv.len() as int), lv.take(k)),
        exists|i: int|
            0 <= i < tree_children(add_levels(ps, lv, lv.len() as int), add_levels(ps, lv, lv.len() as int), lv.take(k)).len()
                && (#[trigger] tree_children(
                add_levels(ps, lv, lv.len() as int),
                add_levels(ps, lv, lv.len() as int),
                lv.take(k),
            )[i]).0 == lv[k],
{
    let ps2 = add_levels(ps, lv, lv.len() as int);
    law_add_levels_present(ps, lv, seq![]);
    if k > 0 {
        assert(ps2.contains(lv.take(k)));
    }
    assert(ps2.contains(lv.take(k + 1)));
    let i = choose|i: int| 0 <= i < ps2.len() && ps2[i] == lv.take(k + 1);
    assert(lv.take(k + 1).take(k) =~= lv.take(k));
    assert(is_child(lv.take(k), ps2[i]));
    lemma_tree_children_lists(ps2, ps2, lv.take(k), i);
    assert(ps2[i].last() == lv[k]);
}

/// Every leading part of the levels of every code of `codes` is a node of
/// their tree.
pub(crate) proof fn lemma_tree_paths_has_levels(codes: Seq<Seq<char>>, i: int, k: int)
    requires
        0 <= i < codes.len(),
        1 <= k <= code_levels(codes[i]).len(),
    ensures
        tree_paths(codes).contains(code_levels(codes[i]).take(k)),
    decreases codes.len(),
{
    let lv = code_levels(codes.last());
    let prev = tree_paths(codes.drop_last());
    law_add_levels_present(prev, lv, code_levels(codes[i]).take(k));
    if i < codes.len() - 1 {
        assert(codes.drop_last()[i] == codes[i]);
        lemma_tree_paths_has_levels(codes.drop_last(), i, k);
    }
}

/// No level from `d` on is missing where every leading part is a node.
proof fn lemma_no_path_error(ps: Seq<TreePath>, lv: Seq<Seq<char>>, d: int)
    requires
        0 <= d,
        forall|k: int| 1 <= k <= lv.len() ==> ps.contains(#[trigger] lv.take(k)),
    ensures
        path_error(ps, lv, d) is None,
    decreases lv.len() - d,
{
    if d < lv.len() {
        assert(ps.contains(lv.take(d + 1)));
        lemma_no_path_error(ps, lv, d + 1);
    }
}

/// Every code of the records an index is built from is known to it: looking
/// the code up, or asking for the areas below it, never fails with
/// `NotFind`.
pub proof fn law_data_codes_found(data: Seq<AreaCodeDataView>, m: AreaCodeModel, i: int)
    requires
        m.paths == tree_paths(data_codes(data)),
        0 <= i < data.len(),
    ensures
        spec_find(m, data[i].code) is Ok,
        spec_childs(m, data[i].code) is Ok,
{
    let codes = data_codes(data);
    assert(codes[i] == data[i].code);
    let lv = code_levels(data[i].code);
    assert forall|k: int| 1 <= k <= lv.len() implies m.paths.contains(#[trigger] lv.take(k)) by {
        lemma_tree_paths_has_levels(codes, i, k);
    }
    lemma_no_path_error(m.paths, lv, 0);
}


/// A code names its area and every area above it: its levels grow, each one
/// leading the next, and the last is the whole (trimmed) code.
pub proof fn law_code_levels_nested(code: Seq<char>)
    requires
        code_ok(code),
        trim(code).len() > 0,
    ensures
        code_levels(code).len() > 0,
        code_levels(code).last() == trim(code),
        forall|d: int|
            0 <= d < code_levels(code).len() - 1 ==> (#[trigger] code_levels(code)[d]).len() < code_levels(
                code,
            )[d + 1].len() && code_levels(code)[d + 1].take(code_levels(code)[d].len() as int)
                == code_levels(code)[d],
{
    let t = trim(code);
    let n = utf8_len(t);
    let ends = level_ends(n);
    let lv = code_levels(code);
    lemma_full_cut(t);
    assert(t.take(t.len() as int) =~= t);
    assert(lv.last() == t);
    assert forall|d: int| 0 <= d < lv.len() - 1 implies (#[trigger] lv[d]).len() < lv[d + 1].len() && lv[d
        + 1].take(lv[d].len() as int) == lv[d] by {
        assert(is_char_cut(t, ends[d]));
        assert(is_char_cut(t, ends[d + 1]));
        let a = cut_index(t, ends[d]);
        let b = cut_index(t, ends[d + 1]);
        assert(prefix_bytes(t, a) == ends[d]);
        assert(prefix_bytes(t, b) == ends[d + 1]);
        assert(ends[d] < ends[d + 1]);
        if b <= a {
            lemma_prefix_bytes_mono(t, b, a);
        }
        assert(lv[d] == t.take(a));
        assert(lv[d + 1] == t.take(b));
        assert(t.take(b).take(a) =~= t.take(a));
    }
}

/// A CSV text gives at most one record per row: never more records than
/// rows read.
pub proof fn law_rows_give_at_most_one<T>(
    rs: Seq<Result<Seq<Seq<char>>, Seq<char>>>,
    i: int,
    skip: nat,
    f: spec_fn(Seq<Seq<char>>) -> Option<T>,
)
    requires
        0 <= i <= rs.len(),
    ensures
        rows_from(rs, i, skip, f) matches Ok(v) ==> v.len() <= rs.len() - i,
    decreases rs.len() - i,
{
    if i < rs.len() {
        law_rows_give_at_most_one(rs, i + 1, skip, f);
    }
}

/// An index store gives back for a code what was last kept for it, and
/// keeping an entry for one code leaves every other code as it was.
pub proof fn law_index_read_after_write(
    m: Map<Seq<char>, IndexInfoView>,
    key: Seq<char>,
    val: IndexInfoView,
    other: Seq<char>,
)
    ensures
        m.insert(key, val).contains_key(key),
        m.insert(key, val)[key] == val,
        other != key ==> (m.insert(key, val).contains_key(other) == m.contains_key(other)),
        other != key && m.contains_key(other) ==> m.insert(key, val)[other] == m[other],
{
}

} // verus!
