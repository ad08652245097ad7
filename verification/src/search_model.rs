//! What the search index holds and what a search answers, stated over the
//! area records and the model of the code tree.
use vstd::prelude::*;
use crate::area_code::{
    area_bad_word, area_clear_word, has_children, lookup_name, spec_find, AreaCodeDataView, AreaCodeModel,
    NameRow, SearchItemView, TreePath,
};
use crate::code_path::code_levels;
use crate::text::{
    all_ascii, contains_seq, ends_with, lowercase, remove_all, trim, trim_end_matches, utf8_len,
};

verus! {

/// A keyword as the index keeps it: trimmed, without spaces, in lowercase.
pub open spec fn norm_keyword(w: Seq<char>) -> Seq<char> {
    lowercase(remove_all(trim(w), " "@))
}

/// The indexed keywords of one record: its keywords that are not blank,
/// normalised, in order.
pub open spec fn area_keywords(kw: Seq<Seq<char>>) -> Seq<Seq<char>>
    decreases kw.len(),
{
    if kw.len() == 0 {
        seq![]
    } else {
        let rest = area_keywords(kw.drop_last());
        if trim(kw.last()).len() > 0 {
            rest.push(norm_keyword(kw.last()))
        } else {
            rest
        }
    }
}

/// How many times `k` occurs in `s`.
pub open spec fn count_of(s: Seq<Seq<char>>, k: Seq<char>) -> nat
    decreases s.len(),
{
    if s.len() == 0 {
        0
    } else {
        count_of(s.drop_last(), k) + if s.last() == k {
            1nat
        } else {
            0nat
        }
    }
}

/// Whether some record of `data` has a code of `n` bytes.
pub open spec fn has_code_len(data: Seq<AreaCodeDataView>, n: nat) -> bool {
    exists|i: int| 0 <= i < data.len() && utf8_len(#[trigger] data[i].code) == n
}

/// The codes that keyword `k` leads to among the records of `data` whose code
/// takes `n` bytes: the first such record adds its code once if it has the
/// keyword at all, every later one adds its code once for each time it has it.
pub open spec fn kw_codes(data: Seq<AreaCodeDataView>, n: nat, k: Seq<char>) -> Seq<Seq<char>>
    decreases data.len(),
{
    if data.len() == 0 {
        seq![]
    } else {
        let prev = data.drop_last();
        let a = data.last();
        let kws = area_keywords(a.key_word);
        if utf8_len(a.code) != n {
            kw_codes(prev, n, k)
        } else if !has_code_len(prev, n) {
            if kws.contains(k) {
                seq![a.code]
            } else {
                seq![]
            }
        } else {
            kw_codes(prev, n, k) + Seq::new(count_of(kws, k), |j: int| a.code)
        }
    }
}

/// A keyword entry: keyword and the codes it leads to.
pub type KeywordRow = (Seq<char>, Seq<Seq<char>>);

/// The codes of the first entry of `words` with keyword `k`.
pub open spec fn lookup_kw(words: Seq<KeywordRow>, k: Seq<char>) -> Option<Seq<Seq<char>>>
    decreases words.len(),
{
    if words.len() == 0 {
        None
    } else {
        match lookup_kw(words.drop_last(), k) {
            Some(x) => Some(x),
            None => if words.last().0 == k {
                Some(words.last().1)
            } else {
                None
            },
        }
    }
}

/// A group of the keyword index: the byte length of its codes, its entries.
pub type GroupRow = (nat, Seq<KeywordRow>);

/// Whether `groups` is the keyword index of `data`: one group per byte length
/// of a code, in increasing order of length, each answering a keyword with
/// the codes `kw_codes` gives where there are any.
pub open spec fn groups_of(groups: Seq<GroupRow>, data: Seq<AreaCodeDataView>) -> bool {
    &&& forall|i: int, j: int| 0 <= i < j < groups.len() ==> groups[i].0 < groups[j].0
    &&& forall|n: nat|
        has_code_len(data, n) <==> exists|i: int| 0 <= i < groups.len() && #[trigger] groups[i].0 == n
    &&& forall|i: int, k: Seq<char>|
        0 <= i < groups.len() ==> #[trigger] lookup_kw(groups[i].1, k) == if kw_codes(
            data,
            groups[i].0,
            k,
        ).len() > 0 {
            Some(kw_codes(data, groups[i].0, k))
        } else {
            None
        }
}

/// `name` after the trimmed-off words of `words`, from `i` on, that have not
/// been used yet; the indexes used are shared between passes.
pub open spec fn fix_pass(name: Seq<char>, used: Set<int>, words: Seq<Seq<char>>, i: int) -> (
    Seq<char>,
    Set<int>,
)
    decreases words.len() - i,
{
    if i < 0 || i >= words.len() {
        (name, used)
    } else if used.contains(i) {
        fix_pass(name, used, words, i + 1)
    } else if ends_with(name, words[i]) {
        fix_pass(trim_end_matches(name, words[i]), used.insert(i), words, i + 1)
    } else {
        fix_pass(name, used, words, i + 1)
    }
}

/// A listed name as it joins a search text: trimmed, then the endings of
/// `area_bad_word` and `area_clear_word` cut off in turn, an index used in the
/// first list not being tried again in the second.
pub open spec fn fix_name(name: Seq<char>) -> Seq<char> {
    let first = fix_pass(trim(name), Set::empty(), area_bad_word(), 0);
    fix_pass(first.0, first.1, area_clear_word(), 0).0
}

/// The search text built from the levels `lv` from `d` on, after `acc`; none
/// where a level is hidden or the last level has areas below it.
pub open spec fn detail_walk(
    names: Seq<NameRow>,
    ps: Seq<TreePath>,
    lv: Seq<Seq<char>>,
    d: int,
    acc: Seq<char>,
) -> Option<Seq<char>>
    decreases lv.len() - d,
{
    if d < 0 || d >= lv.len() {
        Some(acc)
    } else if !ps.contains(lv.take(d + 1)) {
        None
    } else if d == lv.len() - 1 && has_children(ps, lv.take(d + 1)) {
        None
    } else {
        match lookup_name(names, lv[d]) {
            Some((hide, name)) => if hide {
                None
            } else {
                detail_walk(names, ps, lv, d + 1, acc + fix_name(name))
            },
            None => detail_walk(names, ps, lv, d + 1, acc),
        }
    }
}

/// The search text of the area with code `code`: the names along its levels
/// run together; none for a code under 6 bytes.
pub open spec fn detail_of(names: Seq<NameRow>, ps: Seq<TreePath>, code: Seq<char>) -> Option<
    Seq<char>,
> {
    if utf8_len(code) < 6 {
        None
    } else {
        detail_walk(names, ps, code_levels(code), 0, seq![])
    }
}

/// A search text: the code of an area and the text it is searched by.
pub type DetailRow = (Seq<char>, Seq<char>);

/// The search texts of the records of `codes`, in order, for those that have one.
pub open spec fn details_of(names: Seq<NameRow>, ps: Seq<TreePath>, codes: Seq<Seq<char>>) -> Seq<
    DetailRow,
>
    decreases codes.len(),
{
    if codes.len() == 0 {
        seq![]
    } else {
        let rest = details_of(names, ps, codes.drop_last());
        match detail_of(names, ps, codes.last()) {
            Some(d) => rest.push((codes.last(), d)),
            None => rest,
        }
    }
}

/// A search candidate: how far it is from the query (smaller is closer), the
/// code it names, and the text it matched.
pub type Cand = (nat, Seq<char>, Seq<char>);

/// The distance of a code found by keyword: by its level.
pub open spec fn level_sim(code: Seq<char>) -> nat {
    let n = utf8_len(code);
    if n == 2 {
        0
    } else if n == 4 {
        1
    } else if n == 6 {
        2
    } else if n == 9 {
        3
    } else {
        4
    }
}

/// How many of `avail` codes found in one group are taken when `have`
/// candidates were taken before: it stops once there are more than `limit`.
pub open spec fn n_take(have: nat, avail: nat, limit: nat) -> nat {
    let room: int = limit + 1 - have;
    let room: nat = if room < 1 {
        1
    } else {
        room as nat
    };
    if avail < room {
        avail
    } else {
        room
    }
}

/// The candidates that keyword `ename` finds in the groups, in group order.
pub open spec fn exact_cands(groups: Seq<GroupRow>, ename: Seq<char>, limit: nat) -> Seq<Cand>
    decreases groups.len(),
{
    if groups.len() == 0 {
        seq![]
    } else {
        let prev = exact_cands(groups.drop_last(), ename, limit);
        match lookup_kw(groups.last().1, ename) {
            Some(codes) => prev + Seq::new(codes.len(), |j: int| (level_sim(codes[j]), codes[j], ename)).take(
                n_take(prev.len(), codes.len(), limit) as int,
            ),
            None => prev,
        }
    }
}

/// `s` with every occurrence of each word of `words`, from `i` on, removed in turn.
pub open spec fn remove_words(s: Seq<char>, words: Seq<Seq<char>>, i: int) -> Seq<char>
    decreases words.len() - i,
{
    if i < 0 || i >= words.len() {
        s
    } else {
        remove_words(remove_all(s, words[i]), words, i + 1)
    }
}

/// The query with the words of `area_bad_word` and `area_clear_word` removed.
pub open spec fn check_name(name: Seq<char>) -> Seq<char> {
    remove_words(remove_words(name, area_bad_word(), 0), area_clear_word(), 0)
}

/// The maximal runs of non-white-space characters of `s`, after the run `cur`.
pub open spec fn split_from(s: Seq<char>, cur: Seq<char>) -> Seq<Seq<char>>
    decreases s.len(),
{
    if s.len() == 0 {
        if cur.len() > 0 {
            seq![cur]
        } else {
            seq![]
        }
    } else if crate::text::is_ws(s[0]) {
        (if cur.len() > 0 {
            seq![cur]
        } else {
            seq![]
        }) + split_from(s.drop_first(), seq![])
    } else {
        split_from(s.drop_first(), cur.push(s[0]))
    }
}

/// The words of `s` (`str::split_whitespace`).
pub open spec fn split_ws(s: Seq<char>) -> Seq<Seq<char>> {
    split_from(s, seq![])
}

/// The non-empty tokens a word gives: an ASCII word whole, any other word
/// one character at a time.
pub open spec fn word_tokens(w: Seq<char>) -> Seq<Seq<char>> {
    if all_ascii(w) {
        if w.len() > 0 {
            seq![w]
        } else {
            seq![]
        }
    } else {
        Seq::new(w.len(), |i: int| seq![w[i]])
    }
}

/// The non-empty tokens of the words `ws`, in order.
pub open spec fn tokens_of(ws: Seq<Seq<char>>) -> Seq<Seq<char>>
    decreases ws.len(),
{
    if ws.len() == 0 {
        seq![]
    } else {
        tokens_of(ws.drop_last()) + word_tokens(ws.last())
    }
}

/// Whether the search text `det` holds every token.
pub open spec fn holds_all(det: Seq<char>, toks: Seq<Seq<char>>) -> bool {
    forall|i: int| 0 <= i < toks.len() ==> contains_seq(det, #[trigger] toks[i])
}

/// The distance of search text `det` from a query of `match_len` bytes.
pub open spec fn text_sim(det: Seq<char>, match_len: nat) -> nat {
    let d: int = utf8_len(det) - match_len;
    (if d < 0 {
        -d
    } else {
        d
    }) as nat + 10
}

/// The candidates among the search texts `rows` that hold every token (every
/// one where the cleaned query `check` is empty), in order.
pub open spec fn text_cands(
    rows: Seq<DetailRow>,
    check: Seq<char>,
    toks: Seq<Seq<char>>,
    match_len: nat,
) -> Seq<Cand>
    decreases rows.len(),
{
    if rows.len() == 0 {
        seq![]
    } else {
        let rest = text_cands(rows.drop_last(), check, toks, match_len);
        let r = rows.last();
        if check.len() == 0 || holds_all(r.1, toks) {
            rest.push((text_sim(r.1, match_len), r.0, r.1))
        } else {
            rest
        }
    }
}

/// The `i`-th chunk of `size` search texts.
pub open spec fn chunk_at(rows: Seq<DetailRow>, size: nat, i: int) -> Seq<DetailRow> {
    let end: int = if (i + 1) * size < rows.len() {
        (i + 1) * size
    } else {
        rows.len() as int
    };
    rows.subrange(i * size, end)
}

/// The number of chunks of `size` that cover `n` search texts.
pub open spec fn chunk_count(n: nat, size: nat) -> nat {
    if size == 0 {
        0
    } else {
        ((n + size - 1) / size as int) as nat
    }
}

/// The candidates a chunk gives: its first `add_limit + 1` matching texts.
pub open spec fn chunk_cands(
    chunk: Seq<DetailRow>,
    check: Seq<char>,
    toks: Seq<Seq<char>>,
    match_len: nat,
    add_limit: nat,
) -> Seq<Cand> {
    let all = text_cands(chunk, check, toks, match_len);
    let n: int = if all.len() < add_limit + 1 {
        all.len() as int
    } else {
        (add_limit + 1) as int
    };
    all.take(n)
}

/// The sequences of `parts` one after the other.
pub open spec fn concat_all<A>(parts: Seq<Seq<A>>) -> Seq<A>
    decreases parts.len(),
{
    if parts.len() == 0 {
        seq![]
    } else {
        concat_all(parts.drop_last()) + parts.last()
    }
}

/// The candidates of all chunks of `size`, chunk after chunk.
pub open spec fn fuzzy_cands(
    rows: Seq<DetailRow>,
    size: nat,
    check: Seq<char>,
    toks: Seq<Seq<char>>,
    match_len: nat,
    add_limit: nat,
) -> Seq<Cand> {
    concat_all(
        Seq::new(
            chunk_count(rows.len(), size),
            |i: int| chunk_cands(chunk_at(rows, size, i), check, toks, match_len, add_limit),
        ),
    )
}

/// `sorted` with `x` put after every candidate that is not farther than it.
pub open spec fn insert_cand(sorted: Seq<Cand>, x: Cand) -> Seq<Cand>
    decreases sorted.len(),
{
    if sorted.len() == 0 {
        seq![x]
    } else if sorted.last().0 <= x.0 {
        sorted.push(x)
    } else {
        insert_cand(sorted.drop_last(), x).push(sorted.last())
    }
}

/// `s` in increasing order of distance, candidates at equal distance in the
/// order in which they came.
pub open spec fn sort_cands(s: Seq<Cand>) -> Seq<Cand>
    decreases s.len(),
{
    if s.len() == 0 {
        seq![]
    } else {
        insert_cand(sort_cands(s.drop_last()), s.last())
    }
}

/// The first `n` candidates of `s`, or all of them where there are fewer.
pub open spec fn first_n(s: Seq<Cand>, n: nat) -> Seq<Cand> {
    if s.len() <= n {
        s
    } else {
        s.take(n as int)
    }
}

/// The candidates of a search for `name` with at most `limit` results (see
/// `AreaCode::search`), the search texts being split into chunks for `cpus`
/// workers; none where that makes the chunks empty.
pub open spec fn search_cands(m: AreaCodeModel, name: Seq<char>, limit: nat, cpus: nat) -> Option<
    Seq<Cand>,
> {
    let t = trim(name);
    let ename = lowercase(remove_all(t, " "@));
    let ex = exact_cands(m.groups, ename, limit);
    if ex.len() < limit && m.details.len() > 0 {
        let size: nat = if cpus == 0 {
            0
        } else {
            m.details.len() / cpus
        };
        if size == 0 {
            None
        } else {
            let check = check_name(t);
            let toks = tokens_of(split_ws(check));
            let match_len = utf8_len(remove_all(check, " "@));
            let fz = fuzzy_cands(m.details, size, check, toks, match_len, (limit - ex.len()) as nat);
            Some(first_n(sort_cands(ex + fz), limit))
        }
    } else {
        Some(sort_cands(ex))
    }
}

/// The results for the candidates `cs`, in order: the areas along each
/// candidate's code, where they can be found and are not empty.
pub open spec fn search_items(m: AreaCodeModel, cs: Seq<Cand>) -> Seq<SearchItemView>
    decreases cs.len(),
{
    if cs.len() == 0 {
        seq![]
    } else {
        let rest = search_items(m, cs.drop_last());
        match spec_find(m, cs.last().1) {
            Ok(items) => if items.len() > 0 {
                rest.push(SearchItemView { item: items, key_word: cs.last().2 })
            } else {
                rest
            },
            Err(_) => rest,
        }
    }
}

/// The message of a search that cannot split its texts into chunks.
pub open spec fn empty_chunk_message() -> Seq<char> {
    "search texts are fewer than the worker threads"@
}

/// What `AreaCode::search` answers for `name` and `limit` when the search
/// texts are split into chunks for `cpus` workers.
pub open spec fn spec_search(m: AreaCodeModel, name: Seq<char>, limit: nat, cpus: nat) -> Result<
    Seq<SearchItemView>,
    crate::error::AreaErrorView,
> {
    if trim(name).len() == 0 {
        Ok(seq![])
    } else {
        match search_cands(m, name, limit, cpus) {
            None => Err(crate::error::AreaErrorView::System(empty_chunk_message())),
            Some(cs) => Ok(search_items(m, cs)),
        }
    }
}

/// Whether a search for `name` with at most `limit` results can split its
/// search texts into chunks for `cpus` workers: a blank query needs no texts.
pub open spec fn search_ok(m: AreaCodeModel, name: Seq<char>, limit: nat, cpus: nat) -> bool {
    trim(name).len() == 0 || search_cands(m, name, limit, cpus) is Some
}

} // verus!
