//! The keyword index of the area records: one group per byte length of a
//! code, each mapping a normalised keyword to the codes that carry it.
use rayon::iter::ParallelIterator;
use rayon::slice::ParallelSlice;
use vstd::prelude::*;
use crate::code_path::code_ok;
use crate::area_code::{codes_ok, data_views, string_views, AreaCodeData, AreaCodeDataView};
use crate::search_model::{
    chunk_at, chunk_cands, chunk_count, concat_all, holds_all, insert_cand, remove_words, sort_cands,
    split_from, split_ws, text_cands, text_sim, tokens_of, word_tokens, Cand, DetailRow,
    area_keywords, count_of, groups_of, has_code_len, kw_codes, lookup_kw, norm_keyword,
    GroupRow, KeywordRow,
};
use crate::text::{
    all_ascii, contains_chars, char_is_ws, utf8_len, chars_of, copy_chars, remove_all_chars, str_to_lowercase, string_of, trim_chars,
    utf8_len_wide, views,
};

verus! {

/// A keyword and the codes it leads to.
pub struct KeywordEntry {
    pub key: Vec<char>,
    pub codes: Vec<Vec<char>>,
}

/// The keywords of the codes of one byte length.
pub struct SearchGroup {
    pub len: u128,
    pub words: Vec<KeywordEntry>,
}

/// Every code that the entries `w` lead to can be split into levels.
pub open spec fn words_ok(w: Seq<KeywordEntry>) -> bool {
    forall|i: int, j: int|
        0 <= i < w.len() && 0 <= j < w[i].codes.len() ==> code_ok(#[trigger] w[i].codes@[j]@)
}

/// Every code held by the groups `g` can be split into levels.
pub open spec fn groups_ok(g: Seq<SearchGroup>) -> bool {
    forall|i: int| 0 <= i < g.len() ==> words_ok(#[trigger] g[i].words@)
}

/// An area's search text.
pub struct DetailEntry {
    pub code: Vec<char>,
    pub detail: Vec<char>,
}

/// The rows held by search-text entries.
pub open spec fn detail_entry_rows(d: Seq<DetailEntry>) -> Seq<crate::search_model::DetailRow> {
    Seq::new(d.len(), |i: int| (d[i].code@, d[i].detail@))
}

/// Every code of the search texts `d` can be split into levels.
pub open spec fn details_ok(d: Seq<DetailEntry>) -> bool {
    forall|i: int| 0 <= i < d.len() ==> code_ok(#[trigger] d[i].code@)
}

/// The rows held by keyword entries.
pub open spec fn kw_rows(w: Seq<KeywordEntry>) -> Seq<KeywordRow> {
    Seq::new(w.len(), |i: int| (w[i].key@, views(w[i].codes@)))
}

/// The rows held by search groups.
pub open spec fn group_rows(g: Seq<SearchGroup>) -> Seq<GroupRow> {
    Seq::new(g.len(), |i: int| (g[i].len as nat, kw_rows(g[i].words@)))
}

/// `s` where it is not empty.
pub open spec fn nonempty(s: Seq<Seq<char>>) -> Option<Seq<Seq<char>>> {
    if s.len() > 0 {
        Some(s)
    } else {
        None
    }
}

/// A lookup finds the first entry with the keyword.
pub proof fn lemma_kw_first(w: Seq<KeywordRow>, k: Seq<char>, i: int)
    requires
        0 <= i < w.len(),
        w[i].0 == k,
        forall|j: int| 0 <= j < i ==> w[j].0 != k,
    ensures
        lookup_kw(w, k) == Some(w[i].1),
    decreases w.len(),
{
    if i < w.len() - 1 {
        lemma_kw_first(w.drop_last(), k, i);
    } else {
        lemma_kw_none(w.drop_last(), k);
    }
}

/// A lookup of a keyword no entry holds finds nothing.
pub proof fn lemma_kw_none(w: Seq<KeywordRow>, k: Seq<char>)
    requires
        forall|j: int| 0 <= j < w.len() ==> w[j].0 != k,
    ensures
        lookup_kw(w, k) is None,
    decreases w.len(),
{
    if w.len() > 0 {
        lemma_kw_none(w.drop_last(), k);
    }
}

/// Entries that agree on where `k` stands and what it leads to answer `k` alike.
pub proof fn lemma_kw_frame(w1: Seq<KeywordRow>, w2: Seq<KeywordRow>, k: Seq<char>)
    requires
        w1.len() == w2.len(),
        forall|j: int| 0 <= j < w1.len() ==> (w1[j].0 == k <==> w2[j].0 == k),
        forall|j: int| 0 <= j < w1.len() && w1[j].0 == k ==> w1[j].1 == w2[j].1,
    ensures
        lookup_kw(w1, k) == lookup_kw(w2, k),
    decreases w1.len(),
{
    if w1.len() > 0 {
        lemma_kw_frame(w1.drop_last(), w2.drop_last(), k);
    }
}

/// A record added to the data adds its code length.
pub proof fn lemma_has_len_step(d: Seq<AreaCodeDataView>, i: int, n: nat)
    requires
        0 <= i < d.len(),
    ensures
        has_code_len(d.take(i + 1), n) == (has_code_len(d.take(i), n) || crate::text::utf8_len(
            d[i].code,
        ) == n),
{
    if has_code_len(d.take(i + 1), n) {
        let j = choose|j: int|
            0 <= j < d.take(i + 1).len() && crate::text::utf8_len(#[trigger] d.take(i + 1)[j].code)
                == n;
        if j < i {
            assert(d.take(i)[j] == d[j]);
        }
    }
    if has_code_len(d.take(i), n) {
        let j = choose|j: int|
            0 <= j < d.take(i).len() && crate::text::utf8_len(#[trigger] d.take(i)[j].code) == n;
        assert(d.take(i + 1)[j] == d[j]);
    }
    if crate::text::utf8_len(d[i].code) == n {
        assert(d.take(i + 1)[i] == d[i]);
    }
}

/// The normalised form of keyword `w`.
fn norm_keyword_exec(w: &Vec<char>) -> (r: Vec<char>)
    ensures
        r@ == norm_keyword(w@),
{
    let t = trim_chars(w);
    let sp = chars_of(" ");
    proof {
        reveal_strlit(" ");
    }
    let joined = remove_all_chars(&t, &sp);
    let s = string_of(joined.as_slice());
    let lower = str_to_lowercase(s.as_str());
    chars_of(lower.as_str())
}

/// The indexed keywords of one record.
fn area_keywords_exec(kw: &Vec<String>) -> (r: Vec<Vec<char>>)
    ensures
        views(r@) == area_keywords(string_views(kw@)),
{
    let ghost sv = string_views(kw@);
    let mut out: Vec<Vec<char>> = Vec::new();
    let mut i: usize = 0;
    while i < kw.len()
        invariant
            sv == string_views(kw@),
            i <= kw.len(),
            views(out@) == area_keywords(sv.take(i as int)),
        decreases kw.len() - i,
    {
        let w = chars_of(kw[i].as_str());
        assert(sv.take(i + 1).drop_last() =~= sv.take(i as int));
        assert(sv.take(i + 1).last() == w@);
        let t = trim_chars(&w);
        if t.len() > 0 {
            let n = norm_keyword_exec(&w);
            let ghost before = out@;
            out.push(n);
            assert(views(out@) =~= views(before).push(n@));
        }
        i = i + 1;
    }
    assert(sv.take(kw.len() as int) =~= sv);
    out
}

/// The index of the first entry of `words` with keyword `k`.
pub fn find_kw(words: &Vec<KeywordEntry>, k: &Vec<char>) -> (r: Option<usize>)
    ensures
        match r {
            Some(p) => p < words.len() && words@[p as int].key@ == k@ && forall|j: int|
                0 <= j < p ==> kw_rows(words@)[j].0 != k@,
            None => forall|j: int| 0 <= j < words.len() ==> kw_rows(words@)[j].0 != k@,
        },
{
    let mut p: usize = 0;
    while p < words.len()
        invariant
            p <= words.len(),
            forall|j: int| 0 <= j < p ==> kw_rows(words@)[j].0 != k@,
        decreases words.len() - p,
    {
        if crate::area_code::chars_eq(&words[p].key, k) {
            return Some(p);
        }
        p = p + 1;
    }
    None
}

/// The index of the group of codes of `n` bytes.
fn find_group(groups: &Vec<SearchGroup>, n: u128) -> (r: Option<usize>)
    ensures
        match r {
            Some(g) => g < groups.len() && groups@[g as int].len == n,
            None => forall|j: int| 0 <= j < groups.len() ==> groups@[j].len != n,
        },
{
    let mut g: usize = 0;
    while g < groups.len()
        invariant
            g <= groups.len(),
            forall|j: int| 0 <= j < g ==> groups@[j].len != n,
        decreases groups.len() - g,
    {
        if groups[g].len == n {
            return Some(g);
        }
        g = g + 1;
    }
    None
}

/// `words` with `code` added once for each of `kws`.
fn add_to_words(words: &mut Vec<KeywordEntry>, kws: &Vec<Vec<char>>, code: &Vec<char>)
    requires
        words_ok(old(words)@),
        code_ok(code@),
    ensures
        words_ok(final(words)@),
        forall|k: Seq<char>|
            #[trigger] lookup_kw(kw_rows(final(words)@), k) == match lookup_kw(
                kw_rows(old(words)@),
                k,
            ) {
                Some(cs) => Some(cs + Seq::new(count_of(views(kws@), k), |j: int| code@)),
                None => nonempty(Seq::new(count_of(views(kws@), k), |j: int| code@)),
            },
{
    let ghost kv = views(kws@);
    let ghost w0 = kw_rows(words@);
    let mut j: usize = 0;
    assert forall|k: Seq<char>|
        #[trigger] lookup_kw(kw_rows(words@), k) == match lookup_kw(w0, k) {
            Some(cs) => Some(cs + Seq::new(count_of(kv.take(0), k), |m: int| code@)),
            None => nonempty(Seq::new(count_of(kv.take(0), k), |m: int| code@)),
        } by {
        match lookup_kw(w0, k) {
            Some(cs) => {
                assert(cs + Seq::new(0, |m: int| code@) =~= cs);
            },
            None => {},
        }
    }
    while j < kws.len()
        invariant
            kv == views(kws@),
            w0 == kw_rows(old(words)@),
            j <= kws.len(),
            words_ok(words@),
            code_ok(code@),
            forall|k: Seq<char>|
                #[trigger] lookup_kw(kw_rows(words@), k) == match lookup_kw(w0, k) {
                    Some(cs) => Some(cs + Seq::new(count_of(kv.take(j as int), k), |m: int| code@)),
                    None => nonempty(Seq::new(count_of(kv.take(j as int), k), |m: int| code@)),
                },
        decreases kws.len() - j,
    {
        let k0 = &kws[j];
        assert(kv.take(j + 1).drop_last() =~= kv.take(j as int));
        assert(kv.take(j + 1).last() == k0@);
        let ghost before = kw_rows(words@);
        match find_kw(words, k0) {
            Some(p) => {
                let ghost wv = words@;
                let mut e = words.remove(p);
                let c = copy_chars(code);
                let ghost old_codes = views(e.codes@);
                e.codes.push(c);
                assert(views(e.codes@) =~= old_codes.push(code@));
                let ghost e_new = e;
                words.insert(p, e);
                assert(words@ =~= wv.update(p as int, e_new));
                assert forall|a: int, b: int|
                    0 <= a < words@.len() && 0 <= b < words@[a].codes.len() implies code_ok(
                        #[trigger] words@[a].codes@[b]@,
                    ) by {
                    if a != p {
                        assert(words@[a] == wv[a]);
                    } else {
                        if b < e_new.codes.len() - 1 {
                            assert(e_new.codes@[b] == wv[a].codes@[b]);
                        }
                    }
                }
                let ghost after = kw_rows(words@);
                assert(after =~= before.update(p as int, (k0@, old_codes.push(code@))));
                assert forall|k: Seq<char>|
                    #[trigger] lookup_kw(kw_rows(words@), k) == match lookup_kw(w0, k) {
                        Some(cs) => Some(
                            cs + Seq::new(count_of(kv.take(j + 1), k), |m: int| code@),
                        ),
                        None => nonempty(Seq::new(count_of(kv.take(j + 1), k), |m: int| code@)),
                    } by {
                    if k == k0@ {
                        lemma_kw_first(before, k, p as int);
                        lemma_kw_first(after, k, p as int);
                        assert(count_of(kv.take(j + 1), k) == count_of(kv.take(j as int), k) + 1);
                        lemma_repeat_push(lookup_kw(w0, k), k, code@, count_of(kv.take(j as int), k));
                    } else {
                        lemma_kw_frame(before, after, k);
                        assert(count_of(kv.take(j + 1), k) == count_of(kv.take(j as int), k));
                    }
                }
            },
            None => {
                let c = copy_chars(code);
                let key = copy_chars(k0);
                let mut codes: Vec<Vec<char>> = Vec::new();
                codes.push(c);
                assert(views(codes@) =~= seq![code@]);
                let ghost wv = words@;
                words.push(KeywordEntry { key, codes });
                assert forall|a: int, b: int|
                    0 <= a < words@.len() && 0 <= b < words@[a].codes.len() implies code_ok(
                        #[trigger] words@[a].codes@[b]@,
                    ) by {
                    if a < wv.len() {
                        assert(words@[a] == wv[a]);
                    }
                }
                let ghost after = kw_rows(words@);
                assert(after =~= before.push((k0@, seq![code@])));
                assert forall|k: Seq<char>|
                    #[trigger] lookup_kw(kw_rows(words@), k) == match lookup_kw(w0, k) {
                        Some(cs) => Some(
                            cs + Seq::new(count_of(kv.take(j + 1), k), |m: int| code@),
                        ),
                        None => nonempty(Seq::new(count_of(kv.take(j + 1), k), |m: int| code@)),
                    } by {
                    assert(after.drop_last() =~= before);
                    if k == k0@ {
                        lemma_kw_none(before, k);
                        assert(lookup_kw(w0, k) is None);
                        assert(count_of(kv.take(j as int), k) == 0);
                        assert(lookup_kw(after, k) == Some(seq![code@]));
                        assert(Seq::new(1, |m: int| code@) =~= seq![code@]);
                        assert(count_of(kv.take(j + 1), k) == count_of(kv.take(j as int), k) + 1);
                        lemma_repeat_push(lookup_kw(w0, k), k, code@, count_of(kv.take(j as int), k));
                    } else {
                        assert(count_of(kv.take(j + 1), k) == count_of(kv.take(j as int), k));
                        assert(lookup_kw(after, k) == lookup_kw(before, k));
                    }
                }
            },
        }
        j = j + 1;
    }
    assert(kv.take(kws.len() as int) =~= kv);
}

/// New keyword entries for the first record of a length: each keyword once,
/// leading to `code`.
fn new_words(kws: &Vec<Vec<char>>, code: &Vec<char>) -> (r: Vec<KeywordEntry>)
    requires
        code_ok(code@),
    ensures
        words_ok(r@),
        forall|k: Seq<char>|
            #[trigger] lookup_kw(kw_rows(r@), k) == if views(kws@).contains(k) {
                Some(seq![code@])
            } else {
                None
            },
{
    let ghost kv = views(kws@);
    let mut words: Vec<KeywordEntry> = Vec::new();
    let mut j: usize = 0;
    while j < kws.len()
        invariant
            kv == views(kws@),
            j <= kws.len(),
            code_ok(code@),
            words_ok(words@),
            forall|k: Seq<char>|
                #[trigger] lookup_kw(kw_rows(words@), k) == if kv.take(j as int).contains(k) {
                    Some(seq![code@])
                } else {
                    None
                },
        decreases kws.len() - j,
    {
        let k0 = &kws[j];
        assert(kv.take(j + 1) =~= kv.take(j as int).push(k0@));
        let ghost before = kw_rows(words@);
        match find_kw(&words, k0) {
            Some(p) => {
                assert forall|k: Seq<char>|
                    #[trigger] lookup_kw(kw_rows(words@), k) == if kv.take(j + 1).contains(k) {
                        Some(seq![code@])
                    } else {
                        None
                    } by {
                    if k == k0@ {
                        lemma_kw_first(before, k, p as int);
                        assert(kv.take(j + 1)[j as int] == k);
                    } else {
                        if kv.take(j + 1).contains(k) {
                            let m = choose|m: int| 0 <= m < kv.take(j + 1).len() && #[trigger] kv.take(j + 1)[m] == k;
                            assert(kv.take(j as int)[m] == k);
                        }
                    }
                }
            },
            None => {
                let c = copy_chars(code);
                let key = copy_chars(k0);
                let mut codes: Vec<Vec<char>> = Vec::new();
                codes.push(c);
                assert(views(codes@) =~= seq![code@]);
                let ghost wv = words@;
                words.push(KeywordEntry { key, codes });
                assert forall|a: int, b: int|
                    0 <= a < words@.len() && 0 <= b < words@[a].codes.len() implies code_ok(
                        #[trigger] words@[a].codes@[b]@,
                    ) by {
                    if a < wv.len() {
                        assert(words@[a] == wv[a]);
                    }
                }
                let ghost after = kw_rows(words@);
                assert(after =~= before.push((k0@, seq![code@])));
                assert forall|k: Seq<char>|
                    #[trigger] lookup_kw(kw_rows(words@), k) == if kv.take(j + 1).contains(k) {
                        Some(seq![code@])
                    } else {
                        None
                    } by {
                    assert(after.drop_last() =~= before);
                    if k == k0@ {
                        lemma_kw_none(before, k);
                        assert(kv.take(j + 1)[j as int] == k);
                    } else {
                        assert(lookup_kw(after, k) == lookup_kw(before, k));
                        if kv.take(j + 1).contains(k) {
                            let m = choose|m: int| 0 <= m < kv.take(j + 1).len() && #[trigger] kv.take(j + 1)[m] == k;
                            assert(kv.take(j as int)[m] == k);
                        }
                    }
                }
            },
        }
        j = j + 1;
    }
    assert(kv.take(kws.len() as int) =~= kv);
    words
}

/// Where a group of codes of `n` bytes goes among groups in increasing order.
fn insert_pos(groups: &Vec<SearchGroup>, n: u128) -> (r: usize)
    requires
        forall|i: int, j: int| 0 <= i < j < groups.len() ==> groups@[i].len < groups@[j].len,
        forall|j: int| 0 <= j < groups.len() ==> groups@[j].len != n,
    ensures
        r <= groups.len(),
        forall|j: int| 0 <= j < r ==> groups@[j].len < n,
        forall|j: int| r <= j < groups.len() ==> groups@[j].len > n,
{
    let mut q: usize = 0;
    while q < groups.len() && groups[q].len < n
        invariant
            q <= groups.len(),
            forall|j: int| 0 <= j < q ==> groups@[j].len < n,
        decreases groups.len() - q,
    {
        q = q + 1;
    }
    q
}

/// The keyword index of `data`.
pub fn build_groups(data: &[AreaCodeData]) -> (r: Vec<SearchGroup>)
    requires
        codes_ok(data@),
    ensures
        groups_ok(r@),
        groups_of(group_rows(r@), data_views(data@)),
{
    let ghost dv = data_views(data@);
    let mut groups: Vec<SearchGroup> = Vec::new();
    let mut i: usize = 0;
    assert(dv.take(0) =~= Seq::<AreaCodeDataView>::empty());
    assert(groups_of(group_rows(groups@), dv.take(0)));
    while i < data.len()
        invariant
            dv == data_views(data@),
            i <= data.len(),
            codes_ok(data@),
            groups_ok(groups@),
            groups_of(group_rows(groups@), dv.take(i as int)),
        decreases data.len() - i,
    {
        let code = chars_of(data[i].code.as_str());
        let n = utf8_len_wide(&code);
        let kws = area_keywords_exec(&data[i].key_word);
        assert(code_ok(data@[i as int].code@));
        assert(dv[i as int].code == code@);
        let ghost gv = groups@;
        assert(dv[i as int].key_word == string_views(data@[i as int].key_word@));
        let ghost g0 = group_rows(groups@);
        match find_group(&groups, n) {
            Some(g) => {
                assert(words_ok(gv[g as int].words@));
                let mut grp = groups.remove(g);
                let ghost w0 = kw_rows(grp.words@);
                add_to_words(&mut grp.words, &kws, &code);
                let ghost w1 = kw_rows(grp.words@);
                let ghost grp_new = grp;
                groups.insert(g, grp);
                assert(groups@ =~= gv.update(g as int, grp_new));
                assert forall|a: int| 0 <= a < groups@.len() implies words_ok(#[trigger] groups@[a].words@) by {
                    if a != g {
                        assert(groups@[a] == gv[a]);
                    }
                }
                assert(group_rows(groups@) =~= g0.update(g as int, (n as nat, w1)));
                proof {
                    assert(g0[g as int].1 == w0);
                    lemma_groups_add(dv, i as int, g0, g as int, w1, views(kws@));
                }
            },
            None => {
                let words = new_words(&kws, &code);
                let ghost w1 = kw_rows(words@);
                assert forall|a: int, b: int| 0 <= a < b < groups.len() implies groups@[a].len
                    < groups@[b].len by {
                    assert(g0[a].0 == groups@[a].len as nat);
                    assert(g0[b].0 == groups@[b].len as nat);
                }
                let q = insert_pos(&groups, n);
                let ghost new_group = SearchGroup { len: n, words };
                groups.insert(q, SearchGroup { len: n, words });
                assert(groups@ =~= gv.insert(q as int, new_group));
                assert forall|a: int| 0 <= a < groups@.len() implies words_ok(#[trigger] groups@[a].words@) by {
                    if a < q {
                        assert(groups@[a] == gv[a]);
                    } else if a > q {
                        assert(groups@[a] == gv[a - 1]);
                    }
                }
                assert(group_rows(groups@) =~= g0.insert(q as int, (n as nat, w1)));
                proof {
                    lemma_groups_new(dv, i as int, g0, q as int, w1, views(kws@));
                }
            },
        }
        i = i + 1;
    }
    assert(dv.take(data.len() as int) =~= dv);
    groups
}

/// Adding a record whose code length has a group already.
proof fn lemma_groups_add(
    dv: Seq<AreaCodeDataView>,
    i: int,
    g0: Seq<GroupRow>,
    g: int,
    w1: Seq<KeywordRow>,
    kws: Seq<Seq<char>>,
)
    requires
        0 <= i < dv.len(),
        groups_of(g0, dv.take(i)),
        0 <= g < g0.len(),
        g0[g].0 == crate::text::utf8_len(dv[i].code),
        kws == area_keywords(dv[i].key_word),
        forall|k: Seq<char>|
            #[trigger] lookup_kw(w1, k) == match lookup_kw(g0[g].1, k) {
                Some(cs) => Some(cs + Seq::new(count_of(kws, k), |j: int| dv[i].code)),
                None => nonempty(Seq::new(count_of(kws, k), |j: int| dv[i].code)),
            },
    ensures
        groups_of(g0.update(g, (g0[g].0, w1)), dv.take(i + 1)),
{
    let n = g0[g].0;
    let g1 = g0.update(g, (n, w1));
    let d0 = dv.take(i);
    let d1 = dv.take(i + 1);
    assert(d1.drop_last() =~= d0);
    assert(d1.last() == dv[i]);
    assert(has_code_len(d0, n));
    assert forall|m: nat|
        has_code_len(d1, m) <==> exists|x: int| 0 <= x < g1.len() && #[trigger] g1[x].0 == m by {
        lemma_has_len_step(dv, i, m);
        if has_code_len(d0, m) {
            let x = choose|x: int| 0 <= x < g0.len() && #[trigger] g0[x].0 == m;
            assert(g1[x].0 == m);
        }
        if exists|x: int| 0 <= x < g1.len() && #[trigger] g1[x].0 == m {
            let x = choose|x: int| 0 <= x < g1.len() && #[trigger] g1[x].0 == m;
            assert(g0[x].0 == m);
        }
    }
    assert forall|x: int, k: Seq<char>| 0 <= x < g1.len() implies #[trigger] lookup_kw(g1[x].1, k)
        == if kw_codes(d1, g1[x].0, k).len() > 0 {
        Some(kw_codes(d1, g1[x].0, k))
    } else {
        None
    } by {
        assert(lookup_kw(g0[x].1, k) == nonempty(kw_codes(d0, g0[x].0, k)));
        if x == g {
            let rep = Seq::new(count_of(kws, k), |j: int| dv[i].code);
            assert(kw_codes(d1, n, k) == kw_codes(d0, n, k) + rep);
            if kw_codes(d0, n, k).len() == 0 {
                assert(kw_codes(d0, n, k) + rep =~= rep);
            }
        } else {
            assert(g0[x].0 != n);
            assert(kw_codes(d1, g0[x].0, k) == kw_codes(d0, g0[x].0, k));
        }
    }
}

/// Adding a record whose code length has no group yet.
proof fn lemma_groups_new(
    dv: Seq<AreaCodeDataView>,
    i: int,
    g0: Seq<GroupRow>,
    q: int,
    w1: Seq<KeywordRow>,
    kws: Seq<Seq<char>>,
)
    requires
        0 <= i < dv.len(),
        groups_of(g0, dv.take(i)),
        0 <= q <= g0.len(),
        forall|j: int| 0 <= j < q ==> g0[j].0 < crate::text::utf8_len(dv[i].code),
        forall|j: int| q <= j < g0.len() ==> g0[j].0 > crate::text::utf8_len(dv[i].code),
        kws == area_keywords(dv[i].key_word),
        forall|k: Seq<char>|
            #[trigger] lookup_kw(w1, k) == if kws.contains(k) {
                Some(seq![dv[i].code])
            } else {
                None
            },
    ensures
        groups_of(g0.insert(q, (crate::text::utf8_len(dv[i].code), w1)), dv.take(i + 1)),
{
    let n = crate::text::utf8_len(dv[i].code);
    let g1 = g0.insert(q, (n, w1));
    let d0 = dv.take(i);
    let d1 = dv.take(i + 1);
    assert(d1.drop_last() =~= d0);
    assert(d1.last() == dv[i]);
    assert(!has_code_len(d0, n)) by {
        if has_code_len(d0, n) {
            let x = choose|x: int| 0 <= x < g0.len() && #[trigger] g0[x].0 == n;
        }
    }
    assert forall|a: int, b: int| 0 <= a < b < g1.len() implies g1[a].0 < g1[b].0 by {
        if b < q {
        } else if b == q {
        } else if a < q {
        } else if a == q {
        } else {
        }
    }
    assert forall|m: nat|
        has_code_len(d1, m) <==> exists|x: int| 0 <= x < g1.len() && #[trigger] g1[x].0 == m by {
        lemma_has_len_step(dv, i, m);
        if has_code_len(d0, m) {
            let x = choose|x: int| 0 <= x < g0.len() && #[trigger] g0[x].0 == m;
            if x < q {
                assert(g1[x].0 == m);
            } else {
                assert(g1[x + 1].0 == m);
            }
        }
        if m == n {
            assert(g1[q].0 == m);
        }
        if exists|x: int| 0 <= x < g1.len() && #[trigger] g1[x].0 == m {
            let x = choose|x: int| 0 <= x < g1.len() && #[trigger] g1[x].0 == m;
            if x < q {
                assert(g0[x].0 == m);
            } else if x > q {
                assert(g0[x - 1].0 == m);
            }
        }
    }
    assert forall|x: int, k: Seq<char>| 0 <= x < g1.len() implies #[trigger] lookup_kw(g1[x].1, k)
        == if kw_codes(d1, g1[x].0, k).len() > 0 {
        Some(kw_codes(d1, g1[x].0, k))
    } else {
        None
    } by {
        if x == q {
            assert(g1[x].1 == w1);
        } else {
            let y = if x < q {
                x
            } else {
                x - 1
            };
            assert(g1[x] == g0[y]);
            assert(lookup_kw(g0[y].1, k) == nonempty(kw_codes(d0, g0[y].0, k)));
            assert(g0[y].0 != n);
            assert(kw_codes(d1, g0[y].0, k) == kw_codes(d0, g0[y].0, k));
        }
    }
}

/// Adding one more copy of `code` to what a keyword leads to.
proof fn lemma_repeat_push(
    base: Option<Seq<Seq<char>>>,
    k: Seq<char>,
    code: Seq<char>,
    n: nat,
)
    ensures
        match base {
            Some(cs) => cs + Seq::new(n + 1, |m: int| code) == (cs + Seq::new(
                n,
                |m: int| code,
            )).push(code),
            None => nonempty(Seq::new(n + 1, |m: int| code)) == Some(
                Seq::new(n, |m: int| code).push(code),
            ),
        },
{
    match base {
        Some(cs) => {
            assert(cs + Seq::new(n + 1, |m: int| code) =~= (cs + Seq::new(n, |m: int| code)).push(
                code,
            ));
        },
        None => {
            assert(Seq::new(n + 1, |m: int| code) =~= Seq::new(n, |m: int| code).push(code));
        },
    }
}

/// A search candidate as it is held during a search.
pub struct Candidate {
    pub sim: u128,
    pub code: Vec<char>,
    pub key_word: Vec<char>,
}

/// The candidates held by a sequence of `Candidate`s.
pub open spec fn cand_views(c: Seq<Candidate>) -> Seq<Cand> {
    Seq::new(c.len(), |i: int| (c[i].sim as nat, c[i].code@, c[i].key_word@))
}

/// Every candidate names a code that can be split into levels.
pub open spec fn cands_ok(c: Seq<Candidate>) -> bool {
    forall|i: int| 0 <= i < c.len() ==> code_ok(#[trigger] c[i].code@)
}

/// The words of `s` (`str::split_whitespace`).
pub fn split_ws_exec(s: &Vec<char>) -> (r: Vec<Vec<char>>)
    ensures
        views(r@) == split_ws(s@),
{
    let mut out: Vec<Vec<char>> = Vec::new();
    let mut cur: Vec<char> = Vec::new();
    let mut i: usize = 0;
    assert(s@.skip(0) =~= s@);
    assert(views(out@) + split_from(s@.skip(0), cur@) =~= split_ws(s@));
    while i < s.len()
        invariant
            i <= s.len(),
            split_ws(s@) == views(out@) + split_from(s@.skip(i as int), cur@),
        decreases s.len() - i,
    {
        let c = s[i];
        assert(s@.skip(i as int).drop_first() =~= s@.skip(i + 1));
        assert(s@.skip(i as int)[0] == c);
        if char_is_ws(c) {
            if cur.len() > 0 {
                let ghost before = out@;
                let ghost w = cur@;
                out.push(cur);
                assert(views(out@) =~= views(before).push(w));
                assert(views(out@) + split_from(s@.skip(i + 1), seq![]) =~= views(before) + (seq![
                    w,
                ] + split_from(s@.skip(i + 1), seq![])));
            } else {
                assert(views(out@) + split_from(s@.skip(i + 1), seq![]) =~= views(out@) + (
                Seq::<Seq<char>>::empty() + split_from(s@.skip(i + 1), seq![])));
            }
            cur = Vec::new();
            assert(cur@ =~= Seq::<char>::empty());
        } else {
            cur.push(c);
        }
        i = i + 1;
    }
    assert(s@.skip(i as int) =~= Seq::<char>::empty());
    if cur.len() > 0 {
        let ghost before = out@;
        let ghost w = cur@;
        out.push(cur);
        assert(views(out@) =~= views(before).push(w));
        assert(views(before) + seq![w] =~= views(before).push(w));
    } else {
        assert(views(out@) + Seq::<Seq<char>>::empty() =~= views(out@));
    }
    out
}

/// Whether every character of `w` is ASCII.
fn all_ascii_exec(w: &Vec<char>) -> (r: bool)
    ensures
        r == all_ascii(w@),
{
    let mut i: usize = 0;
    while i < w.len()
        invariant
            i <= w.len(),
            forall|k: int| 0 <= k < i ==> (w@[k] as u32) < 0x80,
        decreases w.len() - i,
    {
        if (w[i] as u32) >= 0x80 {
            return false;
        }
        i = i + 1;
    }
    true
}

/// The non-empty tokens of the words `ws` (`tokens_of`).
pub fn tokens_exec(ws: &Vec<Vec<char>>) -> (r: Vec<Vec<char>>)
    ensures
        views(r@) == tokens_of(views(ws@)),
{
    let ghost wv = views(ws@);
    let mut out: Vec<Vec<char>> = Vec::new();
    let mut i: usize = 0;
    while i < ws.len()
        invariant
            wv == views(ws@),
            i <= ws.len(),
            views(out@) == tokens_of(wv.take(i as int)),
        decreases ws.len() - i,
    {
        let w = &ws[i];
        assert(wv.take(i + 1).drop_last() =~= wv.take(i as int));
        assert(wv.take(i + 1).last() == w@);
        let ghost base = views(out@);
        if all_ascii_exec(w) {
            if w.len() > 0 {
                out.push(copy_chars(w));
                assert(views(out@) =~= base + word_tokens(w@));
            } else {
                assert(base + word_tokens(w@) =~= base);
            }
        } else {
            let mut j: usize = 0;
            while j < w.len()
                invariant
                    j <= w.len(),
                    !all_ascii(w@),
                    views(out@) == base + word_tokens(w@).take(j as int),
                decreases w.len() - j,
            {
                let mut t: Vec<char> = Vec::new();
                t.push(w[j]);
                assert(t@ =~= seq![w@[j as int]]);
                let ghost ov = out@;
                let ghost tv = t;
                out.push(t);
                assert(out@ == ov.push(tv));
                assert(views(out@) =~= views(ov).push(tv@));
                assert(views(out@) =~= base + word_tokens(w@).take(j + 1));
                j = j + 1;
            }
            assert(word_tokens(w@).take(w.len() as int) =~= word_tokens(w@));
        }
        i = i + 1;
    }
    assert(wv.take(ws.len() as int) =~= wv);
    out
}

/// `s` with every occurrence of each word of `words` removed in turn (`remove_words`).
pub fn remove_words_exec(s: &Vec<char>, words: &Vec<Vec<char>>) -> (r: Vec<char>)
    requires
        forall|i: int| 0 <= i < words.len() ==> words@[i].len() > 0,
    ensures
        r@ == remove_words(s@, views(words@), 0),
{
    let mut cur = copy_chars(s);
    let mut i: usize = 0;
    while i < words.len()
        invariant
            i <= words.len(),
            forall|k: int| 0 <= k < words.len() ==> words@[k].len() > 0,
            remove_words(s@, views(words@), 0) == remove_words(cur@, views(words@), i as int),
        decreases words.len() - i,
    {
        cur = remove_all_chars(&cur, &words[i]);
        i = i + 1;
    }
    cur
}

/// Whether the search text `det` holds every token.
fn holds_all_exec(det: &Vec<char>, toks: &Vec<Vec<char>>) -> (r: bool)
    ensures
        r == holds_all(det@, views(toks@)),
{
    let mut i: usize = 0;
    while i < toks.len()
        invariant
            i <= toks.len(),
            forall|k: int| 0 <= k < i ==> crate::text::contains_seq(det@, #[trigger] views(toks@)[k]),
        decreases toks.len() - i,
    {
        if !contains_chars(det, &toks[i]) {
            assert(!crate::text::contains_seq(det@, views(toks@)[i as int]));
            return false;
        }
        i = i + 1;
    }
    true
}

/// The distance of search text `det` from a query of `match_len` bytes.
fn text_sim_exec(det: &Vec<char>, match_len: u128) -> (r: u128)
    requires
        match_len <= 4 * (usize::MAX as u128),
    ensures
        r == text_sim(det@, match_len as nat),
{
    let n = utf8_len_wide(det);
    let d = if n >= match_len {
        n - match_len
    } else {
        match_len - n
    };
    assert(n <= 4 * det.len());
    d + 10
}

/// Candidates of search texts split as `a` then `b`.
pub proof fn lemma_text_cands_append(
    a: Seq<DetailRow>,
    b: Seq<DetailRow>,
    check: Seq<char>,
    toks: Seq<Seq<char>>,
    match_len: nat,
)
    ensures
        text_cands(a + b, check, toks, match_len) == text_cands(a, check, toks, match_len)
            + text_cands(b, check, toks, match_len),
    decreases b.len(),
{
    if b.len() == 0 {
        assert(a + b =~= a);
        assert(text_cands(a, check, toks, match_len) + text_cands(b, check, toks, match_len)
            =~= text_cands(a, check, toks, match_len));
    } else {
        lemma_text_cands_append(a, b.drop_last(), check, toks, match_len);
        assert((a + b).drop_last() =~= a + b.drop_last());
        assert((a + b).last() == b.last());
        let ta = text_cands(a, check, toks, match_len);
        let tb = text_cands(b.drop_last(), check, toks, match_len);
        let r = b.last();
        assert((ta + tb).push((text_sim(r.1, match_len), r.0, r.1)) =~= ta + tb.push(
            (text_sim(r.1, match_len), r.0, r.1),
        ));
    }
}

/// The candidates of one chunk of search texts (`chunk_cands`).
pub fn chunk_cands_exec(
    rows: &[DetailEntry],
    check: &Vec<char>,
    toks: &Vec<Vec<char>>,
    match_len: u128,
    add_limit: usize,
) -> (r: Vec<Candidate>)
    requires
        details_ok(rows@),
        match_len <= 4 * (usize::MAX as u128),
    ensures
        cands_ok(r@),
        cand_views(r@) == chunk_cands(
            detail_entry_rows(rows@),
            check@,
            views(toks@),
            match_len as nat,
            add_limit as nat,
        ),
{
    let ghost dr = detail_entry_rows(rows@);
    let ghost tv = views(toks@);
    let mut out: Vec<Candidate> = Vec::new();
    let mut i: usize = 0;
    while i < rows.len()
        invariant
            dr == detail_entry_rows(rows@),
            tv == views(toks@),
            details_ok(rows@),
            match_len <= 4 * (usize::MAX as u128),
            i <= rows.len(),
            out.len() <= add_limit,
            cands_ok(out@),
            cand_views(out@) == text_cands(dr.take(i as int), check@, tv, match_len as nat),
        decreases rows.len() - i,
    {
        assert(dr.take(i + 1).drop_last() =~= dr.take(i as int));
        assert(dr.take(i + 1).last() == (rows@[i as int].code@, rows@[i as int].detail@));
        let take = check.len() == 0 || holds_all_exec(&rows[i].detail, toks);
        if take {
            let sim = text_sim_exec(&rows[i].detail, match_len);
            let ghost before = out@;
            let c = Candidate {
                sim,
                code: copy_chars(&rows[i].code),
                key_word: copy_chars(&rows[i].detail),
            };
            assert(code_ok(rows@[i as int].code@));
            out.push(c);
            assert(cand_views(out@) =~= cand_views(before).push(
                (sim as nat, rows@[i as int].code@, rows@[i as int].detail@),
            ));
            assert forall|a: int| 0 <= a < out@.len() implies code_ok(#[trigger] out@[a].code@) by {
                if a < before.len() {
                    assert(out@[a] == before[a]);
                }
            }
            if out.len() > add_limit {
                proof {
                    lemma_text_cands_append(
                        dr.take(i + 1),
                        dr.skip(i + 1),
                        check@,
                        tv,
                        match_len as nat,
                    );
                    assert(dr.take(i + 1) + dr.skip(i + 1) =~= dr);
                    let all = text_cands(dr, check@, tv, match_len as nat);
                    assert(all.take(add_limit + 1) =~= cand_views(out@));
                }
                return out;
            }
        }
        i = i + 1;
    }
    assert(dr.take(rows.len() as int) =~= dr);
    assert(text_cands(dr, check@, tv, match_len as nat).take(out.len() as int) =~= cand_views(
        out@,
    ));
    out
}

/// The candidates of each chunk of `size` search texts of `rows`, computed on
/// rayon's thread pool: `ParallelSlice::par_chunks` cuts `rows` into chunks of
/// `size` (the last one shorter), `ParallelIterator::map` applies
/// `chunk_cands_exec` to each and `collect` gathers the results in chunk order.
/// The contract claims that order and that each result is what
/// `chunk_cands_exec` returns for its chunk.
#[verifier::external_body]
fn par_chunk_cands(
    rows: &[DetailEntry],
    size: usize,
    check: &Vec<char>,
    toks: &Vec<Vec<char>>,
    match_len: u128,
    add_limit: usize,
) -> (r: Vec<Vec<Candidate>>)
    requires
        size > 0,
        details_ok(rows@),
        match_len <= 4 * (usize::MAX as u128),
    ensures
        r.len() == chunk_count(rows@.len(), size as nat),
        forall|i: int|
            0 <= i < r.len() ==> cands_ok(#[trigger] r@[i]@) && cand_views(r@[i]@) == chunk_cands(
                chunk_at(detail_entry_rows(rows@), size as nat, i),
                check@,
                views(toks@),
                match_len as nat,
                add_limit as nat,
            ),
{
    rows.par_chunks(size).map(|c| chunk_cands_exec(c, check, toks, match_len, add_limit)).collect()
}

/// The number of CPUs available to this process, by `num_cpus::get`, which
/// its documentation promises is at least 1.
#[verifier::external_body]
pub fn cpu_count() -> (r: usize)
    ensures
        r >= 1,
{
    num_cpus::get()
}

/// A copy of candidate `c`.
fn copy_cand(c: &Candidate) -> (r: Candidate)
    ensures
        r.sim == c.sim,
        r.code@ == c.code@,
        r.key_word@ == c.key_word@,
{
    Candidate { sim: c.sim, code: copy_chars(&c.code), key_word: copy_chars(&c.key_word) }
}

/// Appends copies of the candidates `src` to `dst`.
pub fn append_cands(dst: &mut Vec<Candidate>, src: &Vec<Candidate>)
    requires
        cands_ok(old(dst)@),
        cands_ok(src@),
    ensures
        cands_ok(final(dst)@),
        cand_views(final(dst)@) == cand_views(old(dst)@) + cand_views(src@),
{
    let mut i: usize = 0;
    while i < src.len()
        invariant
            i <= src.len(),
            cands_ok(dst@),
            cands_ok(src@),
            dst.len() == old(dst).len() + i,
            cand_views(dst@) == cand_views(old(dst)@) + cand_views(src@).take(i as int),
        decreases src.len() - i,
    {
        let c = copy_cand(&src[i]);
        let ghost before = dst@;
        assert(code_ok(src@[i as int].code@));
        let ghost cg = c;
        dst.push(c);
        assert(dst@ == before.push(cg));
        assert(cand_views(dst@) =~= cand_views(before).push(cand_views(src@)[i as int]));
        assert(cand_views(dst@) =~= cand_views(old(dst)@) + cand_views(src@).take(i + 1));
        assert forall|a: int| 0 <= a < dst@.len() implies code_ok(#[trigger] dst@[a].code@) by {
            if a < before.len() {
                assert(dst@[a] == before[a]);
            }
        }
        i = i + 1;
    }
    assert(cand_views(src@).take(src.len() as int) =~= cand_views(src@));
}

/// `v` with `x` put after every candidate that is not farther than it (`insert_cand`).
fn insert_cand_exec(v: &mut Vec<Candidate>, x: Candidate)
    requires
        cands_ok(old(v)@),
        code_ok(x.code@),
    ensures
        cands_ok(final(v)@),
        cand_views(final(v)@) == insert_cand(
            cand_views(old(v)@),
            (x.sim as nat, x.code@, x.key_word@),
        ),
{
    let ghost s = cand_views(v@);
    let ghost xv = (x.sim as nat, x.code@, x.key_word@);
    let mut p: usize = v.len();
    assert(s.skip(v.len() as int) =~= Seq::<Cand>::empty());
    assert(s.take(v.len() as int) =~= s);
    assert(insert_cand(s, xv) =~= insert_cand(s.take(p as int), xv) + s.skip(p as int));
    while p > 0 && v[p - 1].sim > x.sim
        invariant
            s == cand_views(v@),
            xv == (x.sim as nat, x.code@, x.key_word@),
            p <= v.len(),
            insert_cand(s, xv) == insert_cand(s.take(p as int), xv) + s.skip(p as int),
        decreases p,
    {
        assert(s.take(p as int).drop_last() =~= s.take(p - 1));
        assert(s.take(p as int).last() == s[p - 1]);
        assert(insert_cand(s.take(p - 1), xv).push(s[p - 1]) + s.skip(p as int) =~= insert_cand(
            s.take(p - 1),
            xv,
        ) + s.skip(p - 1));
        p = p - 1;
    }
    let ghost before = v@;
    let ghost xg = x;
    v.insert(p, x);
    assert(v@ == before.insert(p as int, xg));
    assert(cand_views(v@) =~= s.take(p as int).push(xv) + s.skip(p as int));
    assert forall|a: int| 0 <= a < v@.len() implies code_ok(#[trigger] v@[a].code@) by {
        if a < p {
            assert(v@[a] == before[a]);
        } else if a > p {
            assert(v@[a] == before[a - 1]);
        }
    }
}

/// `v` sorted by distance, ties in their order (`sort_cands`).
pub fn sort_cands_exec(v: &Vec<Candidate>) -> (r: Vec<Candidate>)
    requires
        cands_ok(v@),
    ensures
        cands_ok(r@),
        cand_views(r@) == sort_cands(cand_views(v@)),
{
    let ghost s = cand_views(v@);
    let mut out: Vec<Candidate> = Vec::new();
    let mut i: usize = 0;
    assert(cand_views(out@) =~= sort_cands(s.take(0)));
    while i < v.len()
        invariant
            s == cand_views(v@),
            cands_ok(v@),
            cands_ok(out@),
            i <= v.len(),
            cand_views(out@) == sort_cands(s.take(i as int)),
        decreases v.len() - i,
    {
        assert(s.take(i + 1).drop_last() =~= s.take(i as int));
        assert(s.take(i + 1).last() == s[i as int]);
        assert(code_ok(v@[i as int].code@));
        let c = copy_cand(&v[i]);
        insert_cand_exec(&mut out, c);
        i = i + 1;
    }
    assert(s.take(v.len() as int) =~= s);
    out
}

/// The candidates of every chunk of `size` texts of `rows`, chunk after chunk
/// (`fuzzy_cands`).
pub fn fuzzy_cands_exec(
    rows: &Vec<DetailEntry>,
    size: usize,
    check: &Vec<char>,
    toks: &Vec<Vec<char>>,
    match_len: u128,
    add_limit: usize,
) -> (r: Vec<Candidate>)
    requires
        size > 0,
        details_ok(rows@),
        match_len <= 4 * (usize::MAX as u128),
    ensures
        cands_ok(r@),
        cand_views(r@) == crate::search_model::fuzzy_cands(
            detail_entry_rows(rows@),
            size as nat,
            check@,
            views(toks@),
            match_len as nat,
            add_limit as nat,
        ),
{
    let parts = par_chunk_cands(rows.as_slice(), size, check, toks, match_len, add_limit);
    let ghost pv = Seq::new(
        chunk_count(rows@.len(), size as nat),
        |i: int|
            chunk_cands(
                chunk_at(detail_entry_rows(rows@), size as nat, i),
                check@,
                views(toks@),
                match_len as nat,
                add_limit as nat,
            ),
    );
    let mut out: Vec<Candidate> = Vec::new();
    let mut i: usize = 0;
    assert(cand_views(out@) =~= concat_all(pv.take(0)));
    while i < parts.len()
        invariant
            parts.len() == pv.len(),
            forall|j: int|
                0 <= j < parts.len() ==> cands_ok(#[trigger] parts@[j]@) && cand_views(parts@[j]@)
                    == pv[j],
            i <= parts.len(),
            cands_ok(out@),
            cand_views(out@) == concat_all(pv.take(i as int)),
        decreases parts.len() - i,
    {
        assert(pv.take(i + 1).drop_last() =~= pv.take(i as int));
        assert(pv.take(i + 1).last() == pv[i as int]);
        assert(cands_ok(parts@[i as int]@));
        append_cands(&mut out, &parts[i]);
        i = i + 1;
    }
    assert(pv.take(parts.len() as int) =~= pv);
    out
}

} // verus!
