//! Lists of areas put in the order of their codes, as the access layer hands
//! them out.
use vstd::prelude::*;
use crate::area_code::{copy_item, detail_views, item_views, AreaCodeDetailItem, AreaCodeItem, DetailItemView, ItemView};
use crate::text::chars_of;

verus! {

/// Whether text `a` comes before text `b`: compared character by character,
/// a proper prefix first (the order of `str`, as UTF-8 keeps the order of
/// the characters).
pub open spec fn text_lt(a: Seq<char>, b: Seq<char>) -> bool
    decreases a.len(),
{
    if a.len() == 0 {
        b.len() > 0
    } else if b.len() == 0 {
        false
    } else if a[0] != b[0] {
        (a[0] as int) < (b[0] as int)
    } else {
        text_lt(a.drop_first(), b.drop_first())
    }
}

/// `sorted` with `x` put after every element whose key does not come after
/// the key of `x`.
pub open spec fn insert_by_key<A>(sorted: Seq<A>, x: A, key: spec_fn(A) -> Seq<char>) -> Seq<A>
    decreases sorted.len(),
{
    if sorted.len() == 0 {
        seq![x]
    } else if text_lt(key(x), key(sorted.last())) {
        insert_by_key(sorted.drop_last(), x, key).push(sorted.last())
    } else {
        sorted.push(x)
    }
}

/// `s` in the order of the keys, elements of equal keys in the order in which
/// they came (a stable sort).
pub open spec fn sort_by_key<A>(s: Seq<A>, key: spec_fn(A) -> Seq<char>) -> Seq<A>
    decreases s.len(),
{
    if s.len() == 0 {
        seq![]
    } else {
        insert_by_key(sort_by_key(s.drop_last(), key), s.last(), key)
    }
}

/// The code of an item.
pub open spec fn item_code(it: ItemView) -> Seq<char> {
    it.code
}

/// The code of the item of a detail item.
pub open spec fn detail_code(it: DetailItemView) -> Seq<char> {
    it.item.code
}

/// Whether text `a` comes before text `b` (`text_lt`).
pub fn text_less(a: &Vec<char>, b: &Vec<char>) -> (r: bool)
    ensures
        r == text_lt(a@, b@),
{
    let mut i: usize = 0;
    assert(a@.skip(0) =~= a@ && b@.skip(0) =~= b@);
    while i < a.len() && i < b.len()
        invariant
            i <= a.len(),
            i <= b.len(),
            text_lt(a@, b@) == text_lt(a@.skip(i as int), b@.skip(i as int)),
        decreases a.len() - i,
    {
        let ghost sa = a@.skip(i as int);
        let ghost sb = b@.skip(i as int);
        assert(sa[0] == a@[i as int] && sb[0] == b@[i as int]);
        if a[i] != b[i] {
            return a[i] < b[i];
        }
        assert(sa.drop_first() =~= a@.skip(i + 1));
        assert(sb.drop_first() =~= b@.skip(i + 1));
        i = i + 1;
    }
    assert(a@.skip(i as int).len() == 0 || b@.skip(i as int).len() == 0);
    i < b.len()
}

/// `v` with `x` put after every item whose code does not come after its code.
fn insert_item(v: &mut Vec<AreaCodeItem>, x: AreaCodeItem)
    ensures
        item_views(final(v)@) == insert_by_key(item_views(old(v)@), x@, |it: ItemView| item_code(it)),
{
    let ghost key = |it: ItemView| item_code(it);
    let ghost s = item_views(v@);
    let xc = chars_of(x.code.as_str());
    let mut p: usize = v.len();
    assert(s.skip(v.len() as int) =~= Seq::<ItemView>::empty());
    assert(s.take(v.len() as int) =~= s);
    assert(insert_by_key(s, x@, key) =~= insert_by_key(s.take(p as int), x@, key) + s.skip(p as int));
    while p > 0 && text_less(&xc, &chars_of(v[p - 1].code.as_str()))
        invariant
            s == item_views(v@),
            xc@ == x@.code,
            key == (|it: ItemView| item_code(it)),
            p <= v.len(),
            insert_by_key(s, x@, key) == insert_by_key(s.take(p as int), x@, key) + s.skip(p as int),
        decreases p,
    {
        assert(s.take(p as int).drop_last() =~= s.take(p - 1));
        assert(s.take(p as int).last() == s[p - 1]);
        assert(insert_by_key(s.take(p - 1), x@, key).push(s[p - 1]) + s.skip(p as int) =~= insert_by_key(
            s.take(p - 1),
            x@,
            key,
        ) + s.skip(p - 1));
        p = p - 1;
    }
    proof {
        if p > 0 {
            assert(s.take(p as int).last() == s[p - 1]);
            assert(insert_by_key(s.take(p as int), x@, key) == s.take(p as int).push(x@));
        }
    }
    let ghost before = v@;
    let ghost xv = x@;
    v.insert(p, x);
    assert(item_views(v@) =~= s.take(p as int).push(xv) + s.skip(p as int)) by {
        assert forall|a: int| 0 <= a < v@.len() implies #[trigger] item_views(v@)[a] == (s.take(p as int).push(xv) + s.skip(p as int))[a] by {
            if a < p {
                assert(v@[a] == before[a]);
            } else if a > p {
                assert(v@[a] == before[a - 1]);
            }
        }
    }
}

/// Puts `items` in the order of their codes, items of one code in the order
/// in which they came.
pub fn sort_items_by_code(items: &mut Vec<AreaCodeItem>)
    ensures
        item_views(final(items)@) == sort_by_key(item_views(old(items)@), |it: ItemView| item_code(it)),
{
    let ghost key = |it: ItemView| item_code(it);
    let ghost s = item_views(items@);
    let mut out: Vec<AreaCodeItem> = Vec::new();
    let mut i: usize = 0;
    assert(item_views(out@) =~= sort_by_key(s.take(0), key));
    while i < items.len()
        invariant
            s == item_views(items@),
            key == (|it: ItemView| item_code(it)),
            i <= items.len(),
            item_views(out@) == sort_by_key(s.take(i as int), key),
        decreases items.len() - i,
    {
        assert(s.take(i + 1).drop_last() =~= s.take(i as int));
        assert(s.take(i + 1).last() == s[i as int]);
        let c = copy_item(&items[i]);
        insert_item(&mut out, c);
        i = i + 1;
    }
    assert(s.take(items.len() as int) =~= s);
    *items = out;
}

/// A copy of a detail item.
fn copy_detail(it: &AreaCodeDetailItem) -> (r: AreaCodeDetailItem)
    ensures
        r@ == it@,
{
    AreaCodeDetailItem { selected: it.selected, item: copy_item(&it.item) }
}

/// `v` with `x` put after every detail item whose code does not come after
/// its code.
fn insert_detail(v: &mut Vec<AreaCodeDetailItem>, x: AreaCodeDetailItem)
    ensures
        detail_views(final(v)@) == insert_by_key(
            detail_views(old(v)@),
            x@,
            |it: DetailItemView| detail_code(it),
        ),
{
    let ghost key = |it: DetailItemView| detail_code(it);
    let ghost s = detail_views(v@);
    let xc = chars_of(x.item.code.as_str());
    let mut p: usize = v.len();
    assert(s.skip(v.len() as int) =~= Seq::<DetailItemView>::empty());
    assert(s.take(v.len() as int) =~= s);
    assert(insert_by_key(s, x@, key) =~= insert_by_key(s.take(p as int), x@, key) + s.skip(p as int));
    while p > 0 && text_less(&xc, &chars_of(v[p - 1].item.code.as_str()))
        invariant
            s == detail_views(v@),
            xc@ == x@.item.code,
            key == (|it: DetailItemView| detail_code(it)),
            p <= v.len(),
            insert_by_key(s, x@, key) == insert_by_key(s.take(p as int), x@, key) + s.skip(p as int),
        decreases p,
    {
        assert(s.take(p as int).drop_last() =~= s.take(p - 1));
        assert(s.take(p as int).last() == s[p - 1]);
        assert(insert_by_key(s.take(p - 1), x@, key).push(s[p - 1]) + s.skip(p as int) =~= insert_by_key(
            s.take(p - 1),
            x@,
            key,
        ) + s.skip(p - 1));
        p = p - 1;
    }
    proof {
        if p > 0 {
            assert(s.take(p as int).last() == s[p - 1]);
            assert(insert_by_key(s.take(p as int), x@, key) == s.take(p as int).push(x@));
        }
    }
    let ghost before = v@;
    let ghost xv = x@;
    v.insert(p, x);
    assert(detail_views(v@) =~= s.take(p as int).push(xv) + s.skip(p as int)) by {
        assert forall|a: int| 0 <= a < v@.len() implies #[trigger] detail_views(v@)[a] == (s.take(p as int).push(xv) + s.skip(p as int))[a] by {
            if a < p {
                assert(v@[a] == before[a]);
            } else if a > p {
                assert(v@[a] == before[a - 1]);
            }
        }
    }
}

/// Puts the detail items `items` in the order of their codes, items of one
/// code in the order in which they came.
pub fn sort_details_by_code(items: &mut Vec<AreaCodeDetailItem>)
    ensures
        detail_views(final(items)@) == sort_by_key(
            detail_views(old(items)@),
            |it: DetailItemView| detail_code(it),
        ),
{
    let ghost key = |it: DetailItemView| detail_code(it);
    let ghost s = detail_views(items@);
    let mut out: Vec<AreaCodeDetailItem> = Vec::new();
    let mut i: usize = 0;
    assert(detail_views(out@) =~= sort_by_key(s.take(0), key));
    while i < items.len()
        invariant
            s == detail_views(items@),
            key == (|it: DetailItemView| detail_code(it)),
            i <= items.len(),
            detail_views(out@) == sort_by_key(s.take(i as int), key),
        decreases items.len() - i,
    {
        assert(s.take(i + 1).drop_last() =~= s.take(i as int));
        assert(s.take(i + 1).last() == s[i as int]);
        let c = copy_detail(&items[i]);
        insert_detail(&mut out, c);
        i = i + 1;
    }
    assert(s.take(items.len() as int) =~= s);
    *items = out;
}

} // verus!
