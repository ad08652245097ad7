//! Splitting an area code into the codes of its levels.
//!
//! A code such as `441403131203` names an area and, through its leading
//! bytes, every area above it: `44`, `4414`, `441403`, `441403131`, and the
//! code itself. The cut points are byte offsets 2, 4, 6 and 9.
use vstd::prelude::*;
use crate::text::{views, lemma_trim_end_prefix, lemma_trim_start_keeps, lemma_trim_start_first, trim_end, trim, trim_chars, utf8_len, char_width, char_width_of, take_chars};

verus! {

/// The number of UTF-8 bytes taken by the first `j` characters of `t`.
pub open spec fn prefix_bytes(t: Seq<char>, j: int) -> nat {
    utf8_len(t.take(j))
}

/// Whether byte offset `k` of `t` falls between two characters.
pub open spec fn is_char_cut(t: Seq<char>, k: nat) -> bool {
    exists|j: int| 0 <= j <= t.len() && #[trigger] prefix_bytes(t, j) == k
}

/// The character index at which byte offset `k` of `t` falls.
pub open spec fn cut_index(t: Seq<char>, k: nat) -> int {
    choose|j: int| 0 <= j <= t.len() && #[trigger] prefix_bytes(t, j) == k
}

/// The byte offsets at which a code of `n` bytes is cut, its full length last.
pub open spec fn level_ends(n: nat) -> Seq<nat> {
    if n <= 2 {
        seq![n]
    } else if n <= 4 {
        seq![2, n]
    } else if n <= 6 {
        seq![2, 4, n]
    } else if n <= 9 {
        seq![2, 4, 6, n]
    } else {
        seq![2, 4, 6, 9, n]
    }
}

/// Whether every cut of the trimmed `code` falls between two characters,
/// so that the code can be split into levels.
pub open spec fn code_ok(code: Seq<char>) -> bool {
    let t = trim(code);
    forall|i: int|
        0 <= i < level_ends(utf8_len(t)).len() ==> is_char_cut(
            t,
            #[trigger] level_ends(utf8_len(t))[i],
        )
}

/// The codes of the levels of `code`: its trimmed form cut after 2, 4, 6 and
/// 9 bytes, as far as it is longer, then the whole trimmed code.
pub open spec fn code_levels(code: Seq<char>) -> Seq<Seq<char>> {
    let t = trim(code);
    if t.len() == 0 {
        seq![]
    } else {
        level_ends(utf8_len(t)).map_values(|e: nat| t.take(cut_index(t, e)))
    }
}

/// More characters never take fewer bytes; strictly more take strictly more.
pub proof fn lemma_prefix_bytes_mono(t: Seq<char>, a: int, b: int)
    requires
        0 <= a <= b <= t.len(),
    ensures
        prefix_bytes(t, a) <= prefix_bytes(t, b),
        a < b ==> prefix_bytes(t, a) < prefix_bytes(t, b),
    decreases b - a,
{
    if a < b {
        lemma_prefix_bytes_mono(t, a, b - 1);
        assert(t.take(b).drop_last() =~= t.take(b - 1));
    }
}

/// Prefix byte counts grow by the width of the next character.
pub proof fn lemma_prefix_bytes_step(t: Seq<char>, j: int)
    requires
        0 <= j < t.len(),
    ensures
        prefix_bytes(t, j + 1) == prefix_bytes(t, j) + char_width(t[j]),
{
    assert(t.take(j + 1).drop_last() =~= t.take(j));
}

/// The whole sequence is cut at its full byte length.
pub proof fn lemma_full_cut(t: Seq<char>)
    ensures
        is_char_cut(t, utf8_len(t)),
        cut_index(t, utf8_len(t)) == t.len(),
{
    assert(t.take(t.len() as int) =~= t);
    assert(prefix_bytes(t, t.len() as int) == utf8_len(t));
    lemma_cut_unique(t, utf8_len(t), t.len() as int);
}

/// A cut offset names exactly one character index.
pub proof fn lemma_cut_unique(t: Seq<char>, k: nat, j: int)
    requires
        0 <= j <= t.len(),
        prefix_bytes(t, j) == k,
    ensures
        is_char_cut(t, k),
        cut_index(t, k) == j,
{
    let c = cut_index(t, k);
    if c < j {
        lemma_prefix_bytes_mono(t, c, j);
    } else if c > j {
        lemma_prefix_bytes_mono(t, j, c);
    }
}

/// A code cut at an end of `t` is itself a code whose cuts fall between
/// characters.
pub proof fn lemma_level_code_ok(code: Seq<char>, d: int)
    requires
        code_ok(code),
        0 <= d < code_levels(code).len(),
    ensures
        code_ok(code_levels(code)[d]),
{
    let t = trim(code);
    let n = utf8_len(t);
    let ends = level_ends(n);
    assert(is_char_cut(t, ends[d]));
    let jd = cut_index(t, ends[d]);
    let u = t.take(jd);
    assert(code_levels(code)[d] == u);
    lemma_trim_start_first(trim_end(code));
    let k = lemma_trim_end_prefix(u);
    let w = u.take(k);
    assert(w =~= t.take(k));
    if k == 0 {
        lemma_trim_start_keeps(w);
        assert(trim(u) == w);
        assert(w.len() == 0);
        assert(w.take(0) =~= w);
        assert(prefix_bytes(w, 0) == 0);
        assert(utf8_len(w) == 0);
        assert(is_char_cut(w, 0));
        assert(code_ok(u));
    } else {
        assert(t.len() > 0);
        assert(w[0] == t[0]);
        lemma_trim_start_keeps(w);
        assert(trim(u) == w);
        let nw = utf8_len(w);
        assert(nw == prefix_bytes(t, k));
        lemma_prefix_bytes_mono(t, k, t.len() as int);
        assert(t.take(t.len() as int) =~= t);
        let ew = level_ends(nw);
        assert forall|i: int| 0 <= i < ew.len() implies is_char_cut(w, #[trigger] ew[i]) by {
            if i == ew.len() - 1 {
                lemma_full_cut(w);
            } else {
                assert(ew[i] < nw);
                assert(i < ends.len() - 1);
                assert(ends[i] == ew[i]);
                assert(is_char_cut(t, ends[i]));
                let c = cut_index(t, ends[i]);
                if c >= k {
                    lemma_prefix_bytes_mono(t, k, c);
                }
                assert(c < k);
                assert(w.take(c) =~= t.take(c));
                assert(prefix_bytes(w, c) == ew[i]);
            }
        }
    }
}

/// Where byte offset `k` (at most 9) of `t` falls between two characters,
/// its character index.
pub fn byte_cut(t: &Vec<char>, k: usize) -> (r: Option<usize>)
    requires
        k <= 9,
    ensures
        r is Some <==> is_char_cut(t@, k as nat),
        r matches Some(j) ==> j == cut_index(t@, k as nat) && j <= t.len(),
{
    let mut j: usize = 0;
    let mut acc: usize = 0;
    while j < t.len() && acc < k
        invariant
            k <= 9,
            j <= t.len(),
            acc == prefix_bytes(t@, j as int),
            j > 0 ==> prefix_bytes(t@, j - 1) < k,
        decreases t.len() - j,
    {
        proof {
            lemma_prefix_bytes_step(t@, j as int);
        }
        acc = acc + char_width_of(t[j]);
        j = j + 1;
    }
    if acc == k {
        proof {
            lemma_cut_unique(t@, k as nat, j as int);
        }
        Some(j)
    } else {
        proof {
            if is_char_cut(t@, k as nat) {
                let c = cut_index(t@, k as nat);
                if c < j {
                    lemma_prefix_bytes_mono(t@, c, j - 1);
                } else if c > j {
                    lemma_prefix_bytes_mono(t@, j as int, c);
                }
            }
        }
        None
    }
}

/// Whether `t` takes more than `k` (at most 9) UTF-8 bytes.
pub fn bytes_exceed(t: &Vec<char>, k: usize) -> (r: bool)
    requires
        k <= 9,
    ensures
        r == (utf8_len(t@) > k),
{
    let mut j: usize = 0;
    let mut acc: usize = 0;
    while j < t.len() && acc <= k
        invariant
            k <= 9,
            j <= t.len(),
            acc == prefix_bytes(t@, j as int),
        decreases t.len() - j,
    {
        proof {
            lemma_prefix_bytes_step(t@, j as int);
        }
        acc = acc + char_width_of(t[j]);
        j = j + 1;
    }
    proof {
        lemma_prefix_bytes_mono(t@, j as int, t.len() as int);
        assert(t@.take(t.len() as int) =~= t@);
    }
    acc > k
}

/// Whether `code` can be split into levels (`code_ok`): each cut of its
/// trimmed form after 2, 4, 6 and 9 bytes that falls inside it falls
/// between two characters.
pub fn code_is_ok(code: &str) -> (r: bool)
    ensures
        r == code_ok(code@),
{
    let chars = crate::text::chars_of(code);
    let t = trim_chars(&chars);
    proof {
        lemma_full_cut(t@);
    }
    let ghost n = utf8_len(t@);
    let ok2 = !bytes_exceed(&t, 2) || byte_cut(&t, 2).is_some();
    let ok4 = !bytes_exceed(&t, 4) || byte_cut(&t, 4).is_some();
    let ok6 = !bytes_exceed(&t, 6) || byte_cut(&t, 6).is_some();
    let ok9 = !bytes_exceed(&t, 9) || byte_cut(&t, 9).is_some();
    let r = ok2 && ok4 && ok6 && ok9;
    proof {
        let ends = level_ends(n);
        assert(t@ == trim(code@));
        if r {
            assert forall|i: int| 0 <= i < ends.len() implies is_char_cut(t@, #[trigger] ends[i]) by {
                if i == ends.len() - 1 {
                    assert(ends[i] == n);
                }
            }
        } else {
            if !ok2 {
                assert(ends[0] == 2);
            } else if !ok4 {
                assert(ends[1] == 4);
            } else if !ok6 {
                assert(ends[2] == 6);
            } else {
                assert(ends[3] == 9);
            }
        }
    }
    r
}

/// The codes of the levels of `code` (see `code_levels`).
pub fn code_parse(code: &Vec<char>) -> (r: Vec<Vec<char>>)
    requires
        code_ok(code@),
    ensures
        views(r@) == code_levels(code@),
{
    let t = trim_chars(code);
    let ghost n = utf8_len(t@);
    let ghost ends = level_ends(n);
    let mut out: Vec<Vec<char>> = Vec::new();
    if t.len() == 0 {
        assert(views(out@) =~= code_levels(code@));
        return out;
    }
    proof {
        lemma_full_cut(t@);
    }
    let cuts: [usize; 4] = [2, 4, 6, 9];
    let mut i: usize = 0;
    while i < 4
        invariant
            t@ == trim(code@),
            n == utf8_len(t@),
            ends == level_ends(n),
            code_ok(code@),
            t.len() > 0,
            cuts@ == seq![2usize, 4, 6, 9],
            i <= 4,
            i > 0 ==> n > cuts@[i - 1],
            out.len() == i,
            forall|m: int| 0 <= m < i ==> #[trigger] views(out@)[m] == t@.take(
                cut_index(t@, ends[m]),
            ),
            forall|m: int| 0 <= m < i ==> ends[m] == cuts@[m],
            i < ends.len(),
        decreases 4 - i,
    {
        let e = cuts[i];
        if bytes_exceed(&t, e) {
            assert(ends[i as int] == e);
            assert(is_char_cut(t@, ends[i as int]));
            let j = byte_cut(&t, e).unwrap();
            let p = take_chars(&t, j);
            let ghost before = views(out@);
            let ghost before_v = out@;
            out.push(p);
            assert(out@ =~= before_v.push(p));
            assert(views(out@) =~= before.push(p@));
            i = i + 1;
        } else {
            assert(ends.len() == i + 1);
            assert(ends[i as int] == n);
            let ghost before = views(out@);
            let ghost before_v = out@;
            let whole = take_chars(&t, t.len());
            assert(whole@ =~= t@);
            out.push(whole);
            assert(out@ =~= before_v.push(whole));
            assert(views(out@) =~= before.push(t@));
            assert(t@.take(t.len() as int) =~= t@);
            proof {
                lemma_levels_match(code@, t@, views(out@));
            }
            return out;
        }
    }
    assert(ends.len() == 5);
    let ghost before = views(out@);
    let ghost before_v = out@;
    let whole = take_chars(&t, t.len());
    assert(whole@ =~= t@);
    out.push(whole);
    assert(out@ =~= before_v.push(whole));
    assert(views(out@) =~= before.push(t@));
    assert(t@.take(t.len() as int) =~= t@);
    proof {
        lemma_levels_match(code@, t@, views(out@));
    }
    out
}

proof fn lemma_levels_match(code: Seq<char>, t: Seq<char>, got: Seq<Seq<char>>)
    requires
        t == trim(code),
        t.len() > 0,
        got.len() == level_ends(utf8_len(t)).len(),
        forall|m: int|
            0 <= m < got.len() - 1 ==> #[trigger] got[m] == t.take(
                cut_index(t, level_ends(utf8_len(t))[m]),
            ),
        got.last() == t,
    ensures
        got == code_levels(code),
{
    let ends = level_ends(utf8_len(t));
    lemma_full_cut(t);
    assert(t.take(t.len() as int) =~= t);
    assert(ends.last() == utf8_len(t));
    let want = ends.map_values(|e: nat| t.take(cut_index(t, e)));
    assert forall|m: int| 0 <= m < got.len() implies got[m] == want[m] by {
        if m == got.len() - 1 {
        } else {
        }
    }
    assert(got =~= want);
}

} // verus!
