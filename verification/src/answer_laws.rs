//! What the answers of the index and of the record sources are, stated over
//! their inputs: which search texts a query matches, the leaf flags of the
//! areas along a code, the names areas are listed under, and which CSV
//! records are hidden.
use vstd::prelude::*;
use crate::area_code::{
    area_clear_word, find_items, has_children, listed_name, lookup_name, spec_find, strip_endings, AreaCodeModel,
    ItemView, NameRow, TreePath,
};
use crate::code_path::code_levels;
use crate::data_source::{csv_code_row, field_or_empty, CsvCodeLayout};
use crate::search_model::{holds_all, split_ws, text_cands, tokens_of, word_tokens, Cand, DetailRow};
use crate::text::{all_ascii, contains_seq, ends_with, trim_end_matches};

verus! {

/// Whether the text `det` holds every word of `ws` that is all ASCII whole,
/// and every character of each other word.
pub open spec fn covers_words(det: Seq<char>, ws: Seq<Seq<char>>) -> bool {
    forall|j: int|
        0 <= j < ws.len() ==> if all_ascii(#[trigger] ws[j]) {
            contains_seq(det, ws[j])
        } else {
            forall|i: int| 0 <= i < ws[j].len() ==> contains_seq(det, seq![ws[j][i]])
        }
}

/// Every text holds the empty text.
proof fn lemma_contains_empty(det: Seq<char>)
    ensures
        contains_seq(det, seq![]),
{
    let e = Seq::<char>::empty();
    assert(det.subrange(0, (0 + e.len()) as int) =~= e);
    assert(e =~= seq![]);
}

/// A text holds all the tokens of one word exactly when it covers that word.
proof fn lemma_word_tokens_held(det: Seq<char>, w: Seq<char>)
    ensures
        holds_all(det, word_tokens(w)) <==> covers_words(det, seq![w]),
{
    let t = word_tokens(w);
    let one = seq![w];
    assert(one[0] == w);
    if all_ascii(w) {
        if w.len() == 0 {
            lemma_contains_empty(det);
            assert(w =~= Seq::<char>::empty());
        } else {
            assert(t[0] == w);
            if covers_words(det, one) {
                assert(contains_seq(det, one[0]));
            }
        }
    } else {
        if holds_all(det, t) {
            assert forall|i: int| 0 <= i < w.len() implies contains_seq(det, seq![w[i]]) by {
                assert(t[i] == seq![w[i]]);
            }
        }
        if covers_words(det, one) {
            assert(forall|i: int| 0 <= i < w.len() ==> contains_seq(det, seq![one[0][i]]));
            assert forall|i: int| 0 <= i < t.len() implies contains_seq(det, #[trigger] t[i]) by {
                assert(t[i] == seq![w[i]]);
                assert(contains_seq(det, seq![one[0][i]]));
            }
        }
    }
}

/// A query's tokens are held by a search text exactly when the text holds
/// each ASCII word of the query whole and each character of every other
/// word: a word with a character outside ASCII is matched character by
/// character, wherever the characters stand.
pub proof fn law_query_tokens(det: Seq<char>, ws: Seq<Seq<char>>)
    ensures
        holds_all(det, tokens_of(ws)) <==> covers_words(det, ws),
    decreases ws.len(),
{
    if ws.len() > 0 {
        let d = ws.drop_last();
        let w = ws.last();
        law_query_tokens(det, d);
        lemma_word_tokens_held(det, w);
        let a = tokens_of(d);
        let b = word_tokens(w);
        assert(tokens_of(ws) == a + b);
        assert(holds_all(det, a + b) <==> (holds_all(det, a) && holds_all(det, b))) by {
            if holds_all(det, a) && holds_all(det, b) {
                assert forall|i: int| 0 <= i < (a + b).len() implies contains_seq(det, #[trigger] (a + b)[i]) by {
                    if i < a.len() {
                        assert((a + b)[i] == a[i]);
                    } else {
                        assert((a + b)[i] == b[i - a.len()]);
                    }
                }
            }
            if holds_all(det, a + b) {
                assert forall|i: int| 0 <= i < a.len() implies contains_seq(det, #[trigger] a[i]) by {
                    assert((a + b)[i] == a[i]);
                }
                assert forall|i: int| 0 <= i < b.len() implies contains_seq(det, #[trigger] b[i]) by {
                    assert((a + b)[a.len() + i] == b[i]);
                }
            }
        }
        assert(covers_words(det, ws) <==> (covers_words(det, d) && covers_words(det, seq![w]))) by {
            let one = seq![w];
            assert(one[0] == w);
            if covers_words(det, d) && covers_words(det, one) {
                assert forall|j: int| 0 <= j < ws.len() implies (if all_ascii(#[trigger] ws[j]) {
                    contains_seq(det, ws[j])
                } else {
                    forall|i: int| 0 <= i < ws[j].len() ==> contains_seq(det, seq![ws[j][i]])
                }) by {
                    if j < d.len() {
                        assert(ws[j] == d[j]);
                    } else {
                        assert(ws[j] == one[0]);
                    }
                }
            }
            if covers_words(det, ws) {
                assert forall|j: int| 0 <= j < d.len() implies (if all_ascii(#[trigger] d[j]) {
                    contains_seq(det, d[j])
                } else {
                    forall|i: int| 0 <= i < d[j].len() ==> contains_seq(det, seq![d[j][i]])
                }) by {
                    assert(ws[j] == d[j]);
                }
                assert forall|j: int| 0 <= j < one.len() implies (if all_ascii(#[trigger] one[j]) {
                    contains_seq(det, one[j])
                } else {
                    forall|i: int| 0 <= i < one[j].len() ==> contains_seq(det, seq![one[j][i]])
                }) by {
                    assert(one[j] == ws[ws.len() - 1]);
                }
            }
        }
    } else {
        assert(tokens_of(ws) =~= Seq::<Seq<char>>::empty());
    }
}

/// A search text that covers the words of the cleaned query (every
/// character of each word that is not all ASCII, each ASCII word whole) is
/// a candidate of the search, with its code and text.
pub proof fn law_covering_text_is_candidate(rows: Seq<DetailRow>, check: Seq<char>, match_len: nat, j: int)
    requires
        0 <= j < rows.len(),
        covers_words(rows[j].1, split_ws(check)),
    ensures
        exists|c: int|
            0 <= c < text_cands(rows, check, tokens_of(split_ws(check)), match_len).len() && (#[trigger] text_cands(
                rows,
                check,
                tokens_of(split_ws(check)),
                match_len,
            )[c]).1 == rows[j].0 && text_cands(rows, check, tokens_of(split_ws(check)), match_len)[c].2
                == rows[j].1,
    decreases rows.len(),
{
    let toks = tokens_of(split_ws(check));
    law_query_tokens(rows[j].1, split_ws(check));
    let tc = text_cands(rows, check, toks, match_len);
    if j == rows.len() - 1 {
        assert(tc[tc.len() - 1].1 == rows[j].0);
    } else {
        let d = rows.drop_last();
        assert(d[j] == rows[j]);
        law_covering_text_is_candidate(d, check, match_len, j);
        let rest = text_cands(d, check, toks, match_len);
        let c = choose|c: int| 0 <= c < rest.len() && (#[trigger] rest[c]).1 == d[j].0 && rest[c].2 == d[j].1;
        assert(tc[c] == rest[c]);
    }
}

/// The areas listed along the first `k` levels each come from one of those
/// levels: its code is the level's code, it is a leaf exactly when no node
/// lies directly below that level, and its name is the one the name table
/// gives an unhidden code, or empty where the code has no record.
proof fn lemma_find_items_leaf(names: Seq<NameRow>, ps: Seq<TreePath>, lv: Seq<Seq<char>>, k: int)
    requires
        0 <= k <= lv.len(),
    ensures
        forall|a: int|
            #![trigger find_items(names, ps, lv, k)[a]]
            0 <= a < find_items(names, ps, lv, k).len() ==> exists|t: int|
                #![trigger lv.take(t)]
                1 <= t <= k && find_items(names, ps, lv, k)[a].code == lv[t - 1] && find_items(names, ps, lv, k)[a].leaf
                    == !has_children(ps, lv.take(t)) && (lookup_name(names, lv[t - 1]) == Some(
                    (false, find_items(names, ps, lv, k)[a].name),
                ) || (lookup_name(names, lv[t - 1]) is None && find_items(names, ps, lv, k)[a].name
                    == Seq::<char>::empty())),
    decreases k,
{
    if k > 0 {
        lemma_find_items_leaf(names, ps, lv, k - 1);
        let v = find_items(names, ps, lv, k);
        let rest = find_items(names, ps, lv, k - 1);
        assert(lv.take(k).last() == lv[k - 1]);
        assert forall|a: int| #![trigger v[a]] 0 <= a < v.len() implies exists|t: int|
            #![trigger lv.take(t)]
            1 <= t <= k && v[a].code == lv[t - 1] && v[a].leaf == !has_children(ps, lv.take(t)) && (lookup_name(
                names,
                lv[t - 1],
            ) == Some((false, v[a].name)) || (lookup_name(names, lv[t - 1]) is None && v[a].name
                == Seq::<char>::empty())) by {
            if a < rest.len() {
                assert(v[a] == rest[a]);
                let t = choose|t: int|
                    #![trigger lv.take(t)]
                    1 <= t <= k - 1 && rest[a].code == lv[t - 1] && rest[a].leaf == !has_children(ps, lv.take(t)) && (
                    lookup_name(names, lv[t - 1]) == Some((false, rest[a].name)) || (lookup_name(names, lv[t - 1])
                        is None && rest[a].name == Seq::<char>::empty()));
                assert(lv.take(t) == lv.take(t));
            } else {
                assert(lv.take(k) == lv.take(k));
            }
        }
    }
}

/// Every area that `find` lists for a code is one of the code's levels, and
/// it is a leaf exactly when no area lies directly below that level in the
/// tree; it is listed under the name of the first record of its code, which
/// is not hidden, or with an empty name where no record has its code.
pub proof fn law_find_leaf(m: AreaCodeModel, code: Seq<char>)
    ensures
        spec_find(m, code) matches Ok(v) ==> forall|a: int|
            #![trigger v[a]]
            0 <= a < v.len() ==> exists|t: int|
                #![trigger code_levels(code).take(t)]
                1 <= t <= code_levels(code).len() && v[a].code == code_levels(code)[t - 1] && v[a].leaf
                    == !has_children(m.paths, code_levels(code).take(t)) && (lookup_name(
                    m.names,
                    v[a].code,
                ) == Some((false, v[a].name)) || (lookup_name(m.names, v[a].code) is None && v[a].name
                    == Seq::<char>::empty())),
{
    let lv = code_levels(code);
    lemma_find_items_leaf(m.names, m.paths, lv, lv.len() as int);
}

/// A name is kept where none of the words of `words` from `i` on ends it.
proof fn lemma_strip_none(name: Seq<char>, words: Seq<Seq<char>>, i: int)
    requires
        0 <= i,
        forall|j: int| i <= j < words.len() ==> !ends_with(name, #[trigger] words[j]),
    ensures
        strip_endings(name, words, i) == name,
    decreases words.len() - i,
{
    if i < words.len() {
        lemma_strip_none(name, words, i + 1);
    }
}

/// Cutting a word off the end of a text that the word does not end.
proof fn lemma_trim_once(s: Seq<char>, w: Seq<char>)
    requires
        w.len() > 0,
        !ends_with(s, w),
    ensures
        ends_with(s + w, w),
        trim_end_matches(s + w, w) == s,
{
    let n = s + w;
    assert(n.subrange(n.len() - w.len(), n.len() as int) =~= w);
    assert(n.subrange(0, n.len() - w.len()) =~= s);
    assert(trim_end_matches(s, w) == s);
    assert(trim_end_matches(n, w) == trim_end_matches(n.subrange(0, n.len() - w.len()), w));
}

/// The name an area is listed under has the committee ending "社区居委会"
/// cut off whole, before any shorter ending is tried: a name that without
/// it ends in none of the cut words is listed as what comes before it.
pub proof fn law_listed_name_cuts_committee(s: Seq<char>)
    requires
        forall|i: int| 0 <= i < area_clear_word().len() ==> !ends_with(s, #[trigger] area_clear_word()[i]),
    ensures
        listed_name(s + "社区居委会"@) == s,
{
    reveal_strlit("-");
    reveal_strlit("社区居委会");
    let w = area_clear_word();
    let x = "社区居委会"@;
    let n = s + x;
    assert(w[0] == "-"@);
    assert(w[1] == x);
    assert(!ends_with(s, w[1]));
    lemma_trim_once(s, x);
    assert(n.last() == '会');
    assert(!ends_with(n, w[0])) by {
        if ends_with(n, w[0]) {
            assert(n.subrange(n.len() - 1, n.len() as int)[0] == n.last());
        }
    }
    assert(strip_endings(n, w, 0) == strip_endings(n, w, 1));
    assert(strip_endings(n, w, 1) == strip_endings(s, w, 2));
    lemma_strip_none(s, w, 2);
}

/// The name an area is listed under has a trailing "-" cut off: a name that
/// without it ends in none of the cut words is listed as what comes before.
pub proof fn law_listed_name_cuts_dash(s: Seq<char>)
    requires
        forall|i: int| 0 <= i < area_clear_word().len() ==> !ends_with(s, #[trigger] area_clear_word()[i]),
    ensures
        listed_name(s + "-"@) == s,
{
    reveal_strlit("-");
    let w = area_clear_word();
    assert(w[0] == "-"@);
    lemma_trim_once(s, "-"@);
    assert(strip_endings(s + "-"@, w, 0) == strip_endings(s, w, 1));
    lemma_strip_none(s, w, 1);
}

/// A row of a CSV text with a non-empty code gives one record: its code,
/// its name, hidden exactly when its hide cell is "1" or its name is empty;
/// in particular a named record with an empty hide cell is shown. A row
/// without a code gives none.
pub proof fn law_csv_hide(cfg: CsvCodeLayout, rec: Seq<Seq<char>>)
    ensures
        field_or_empty(rec, cfg.column_code as int).len() == 0 ==> csv_code_row(cfg, rec) is None,
        field_or_empty(rec, cfg.column_code as int).len() > 0 ==> (csv_code_row(cfg, rec) matches Some(d) && d.code
            == field_or_empty(rec, cfg.column_code as int) && d.name == field_or_empty(rec, cfg.column_name as int)
            && (d.hide <==> (field_or_empty(rec, cfg.column_hide as int) == "1"@ || d.name.len() == 0))),
        field_or_empty(rec, cfg.column_code as int).len() > 0 && field_or_empty(rec, cfg.column_hide as int).len()
            == 0 && field_or_empty(rec, cfg.column_name as int).len() > 0 ==> (csv_code_row(cfg, rec) matches Some(d)
            && !d.hide),
{
    reveal_strlit("1");
}


/// Cutting a word off the end leaves a leading part of the text.
proof fn lemma_trim_prefix(s: Seq<char>, w: Seq<char>)
    ensures
        trim_end_matches(s, w).len() <= s.len(),
        trim_end_matches(s, w) == s.take(trim_end_matches(s, w).len() as int),
    decreases s.len(),
{
    if w.len() > 0 && ends_with(s, w) {
        let t = s.subrange(0, s.len() - w.len());
        lemma_trim_prefix(t, w);
        let r = trim_end_matches(t, w);
        assert(s.take(r.len() as int) =~= t.take(r.len() as int));
    } else {
        assert(s.take(s.len() as int) =~= s);
    }
}

/// Cutting endings leaves a leading part of the text.
proof fn lemma_strip_prefix(name: Seq<char>, words: Seq<Seq<char>>, i: int)
    ensures
        strip_endings(name, words, i).len() <= name.len(),
        strip_endings(name, words, i) == name.take(strip_endings(name, words, i).len() as int),
    decreases words.len() - i,
{
    if i < 0 || i >= words.len() {
        assert(name.take(name.len() as int) =~= name);
    } else {
        let next = if ends_with(name, words[i]) {
            trim_end_matches(name, words[i])
        } else {
            name
        };
        lemma_trim_prefix(name, words[i]);
        if !ends_with(name, words[i]) {
            assert(name.take(name.len() as int) =~= name);
        }
        lemma_strip_prefix(next, words, i + 1);
        let r = strip_endings(next, words, i + 1);
        assert(name.take(r.len() as int) =~= next.take(r.len() as int));
    }
}

/// The name an area is listed under is a leading part of its name, and is
/// the name itself where the name ends in none of the cut words.
pub proof fn law_listed_name_is_leading_part(name: Seq<char>)
    ensures
        listed_name(name).len() <= name.len(),
        listed_name(name) == name.take(listed_name(name).len() as int),
        (forall|i: int| 0 <= i < area_clear_word().len() ==> !ends_with(name, #[trigger] area_clear_word()[i]))
            ==> listed_name(name) == name,
{
    lemma_strip_prefix(name, area_clear_word(), 0);
    if forall|i: int| 0 <= i < area_clear_word().len() ==> !ends_with(name, #[trigger] area_clear_word()[i]) {
        lemma_strip_none(name, area_clear_word(), 0);
    }
}

} // verus!
