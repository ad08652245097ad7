//! Cleaning names and keywords of areas.
use vstd::prelude::*;
use crate::area_code::strip_endings;
use crate::text::{
    char_is_ws, chars_of, ends_with, ends_with_chars, is_ws, string_of, trim, trim_chars,
    trim_end_matches, trim_end_matches_chars, views,
};

verus! {

/// Endings cut off a name by `name_clear`, and tried second by `key_word_clear`.
pub open spec fn clear_word() -> Seq<Seq<char>> {
    seq!["-"@, "社区居委会"@, "居委会"@, "片区街道"@, "街道办"@, "委会"@, "民委员会"@]
}

/// Endings tried first by `key_word_clear`.
pub open spec fn bad_word() -> Seq<Seq<char>> {
    seq![
        "-"@,
        "开发区"@,
        "自治县"@,
        "自治州"@,
        "自治区"@,
        "特别行政区"@,
        "自治区"@,
        "直辖县级行政区划"@,
        "村委会"@,
        "居委会"@,
        "省"@,
        "片区街道"@,
        "街道办"@,
    ]
}

/// The endings of `clear_word`.
fn clear_words() -> (r: Vec<Vec<char>>)
    ensures
        views(r@) == clear_word(),
        forall|i: int| 0 <= i < r.len() ==> r@[i].len() > 0,
{
    let mut v: Vec<Vec<char>> = Vec::new();
    v.push(chars_of("-"));
    v.push(chars_of("社区居委会"));
    v.push(chars_of("居委会"));
    v.push(chars_of("片区街道"));
    v.push(chars_of("街道办"));
    v.push(chars_of("委会"));
    v.push(chars_of("民委员会"));
    proof {
        reveal_strlit("-");
        reveal_strlit("社区居委会");
        reveal_strlit("居委会");
        reveal_strlit("片区街道");
        reveal_strlit("街道办");
        reveal_strlit("委会");
        reveal_strlit("民委员会");
    }
    assert(views(v@) =~= clear_word());
    v
}

/// The endings of `bad_word`.
fn bad_words() -> (r: Vec<Vec<char>>)
    ensures
        views(r@) == bad_word(),
        forall|i: int| 0 <= i < r.len() ==> r@[i].len() > 0,
{
    let mut v: Vec<Vec<char>> = Vec::new();
    v.push(chars_of("-"));
    v.push(chars_of("开发区"));
    v.push(chars_of("自治县"));
    v.push(chars_of("自治州"));
    v.push(chars_of("自治区"));
    v.push(chars_of("特别行政区"));
    v.push(chars_of("自治区"));
    v.push(chars_of("直辖县级行政区划"));
    v.push(chars_of("村委会"));
    v.push(chars_of("居委会"));
    v.push(chars_of("省"));
    v.push(chars_of("片区街道"));
    v.push(chars_of("街道办"));
    proof {
        reveal_strlit("-");
        reveal_strlit("开发区");
        reveal_strlit("自治县");
        reveal_strlit("自治州");
        reveal_strlit("自治区");
        reveal_strlit("特别行政区");
        reveal_strlit("直辖县级行政区划");
        reveal_strlit("村委会");
        reveal_strlit("居委会");
        reveal_strlit("省");
        reveal_strlit("片区街道");
        reveal_strlit("街道办");
    }
    assert(views(v@) =~= bad_word());
    v
}

/// `name` trimmed off the first word of `words`, from `i` on, that it ends
/// with; `name` itself where it ends with none.
pub open spec fn cut_first_ending(name: Seq<char>, words: Seq<Seq<char>>, i: int) -> Seq<char>
    decreases words.len() - i,
{
    if i < 0 || i >= words.len() {
        name
    } else if ends_with(name, words[i]) {
        trim_end_matches(name, words[i])
    } else {
        cut_first_ending(name, words, i + 1)
    }
}

/// What `key_word_clear` gives for `name`: the trimmed name, with the first
/// ending of `bad_word` then `clear_word` that it ends with trimmed off,
/// unless it has at most two characters.
pub open spec fn spec_key_word_clear(name: Seq<char>) -> Seq<char> {
    let t = trim(name);
    if t.len() <= 2 {
        t
    } else {
        cut_first_ending(t, bad_word() + clear_word(), 0)
    }
}

/// A name as a keyword: trimmed, and without the first ending of
/// `bad_word` then `clear_word` it ends with, unless it has at most two
/// characters.
pub fn key_word_clear(name: &str) -> (r: String)
    ensures
        r@ == spec_key_word_clear(name@),
{
    let chars = chars_of(name);
    let t = trim_chars(&chars);
    if t.len() <= 2 {
        return string_of(t.as_slice());
    }
    let bad = bad_words();
    let clear = clear_words();
    let ghost all = bad_word() + clear_word();
    assert(views(bad@).len() == bad.len());
    assert(views(clear@).len() == clear.len());
    let mut i: usize = 0;
    while i < bad.len() + clear.len()
        invariant
            all == bad_word() + clear_word(),
            all.len() == bad.len() + clear.len(),
            t@ == trim(name@),
            t.len() > 2,
            views(bad@) == bad_word(),
            views(clear@) == clear_word(),
            forall|k: int| 0 <= k < bad.len() ==> bad@[k].len() > 0,
            forall|k: int| 0 <= k < clear.len() ==> clear@[k].len() > 0,
            i <= bad.len() + clear.len(),
            cut_first_ending(t@, all, 0) == cut_first_ending(t@, all, i as int),
        decreases bad.len() + clear.len() - i,
    {
        let w = if i < bad.len() {
            &bad[i]
        } else {
            &clear[i - bad.len()]
        };
        assert(all[i as int] == w@);
        if ends_with_chars(&t, w) {
            let cut = trim_end_matches_chars(&t, w);
            assert(ends_with(t@, all[i as int]));
            assert(cut_first_ending(t@, all, i as int) == cut@);
            assert(t@ == trim(name@));
            return string_of(cut.as_slice());
        }
        i = i + 1;
    }
    assert(views(bad@).len() == bad.len());
    assert(views(clear@).len() == clear.len());
    assert(all.len() == bad.len() + clear.len());
    string_of(t.as_slice())
}

/// What `name_clear` gives for `name`: the trimmed name with each ending of
/// `clear_word` that it ends with trimmed off in turn.
pub open spec fn spec_name_clear(name: Seq<char>) -> Seq<char> {
    strip_endings(trim(name), clear_word(), 0)
}

/// A name with the endings of `clear_word` trimmed off.
pub fn name_clear(name: &str) -> (r: String)
    ensures
        r@ == spec_name_clear(name@),
{
    let chars = chars_of(name);
    let t = trim_chars(&chars);
    let clear = clear_words();
    let out = crate::area_code::strip_endings_exec(&t, &clear);
    string_of(out.as_slice())
}

/// What `char::is_uppercase` gives for `c` (the Unicode `Uppercase` property).
pub uninterp spec fn is_upper(c: char) -> bool;

/// Whether `c` is uppercase, by `char::is_uppercase`.
#[verifier::external_body]
fn char_is_uppercase(c: char) -> (r: bool)
    ensures
        r == is_upper(c),
{
    c.is_uppercase()
}

/// `c` with an ASCII capital letter made small (`char::to_ascii_lowercase`).
pub open spec fn ascii_lower(c: char) -> char {
    if 'A' <= c && c <= 'Z' {
        ((c as u32) + 32) as char
    } else {
        c
    }
}

/// The characters of `en_name_keyword(input)` for the characters of `input`
/// from `i` on, the character before them being `prev`.
pub open spec fn spaced_from(s: Seq<char>, i: int, prev: char) -> Seq<char>
    decreases s.len() - i,
{
    if i < 0 || i >= s.len() {
        seq![]
    } else {
        let c = s[i];
        let head = if is_upper(c) {
            if !is_ws(prev) {
                seq![' ', ascii_lower(c)]
            } else {
                seq![ascii_lower(c)]
            }
        } else {
            seq![c]
        };
        head + spaced_from(s, i + 1, c)
    }
}

/// A name written in camel case as keywords: a space before each uppercase
/// letter that does not follow white space, and ASCII capitals made small.
pub fn en_name_keyword(input: &str) -> (r: String)
    ensures
        r@ == spaced_from(input@, 0, ' '),
{
    let s = chars_of(input);
    let mut out: Vec<char> = Vec::new();
    let mut prev = ' ';
    let mut i: usize = 0;
    while i < s.len()
        invariant
            i <= s.len(),
            spaced_from(s@, 0, ' ') == out@ + spaced_from(s@, i as int, prev),
        decreases s.len() - i,
    {
        let c = s[i];
        let ghost before = out@;
        if char_is_uppercase(c) {
            if !char_is_ws(prev) {
                out.push(' ');
            }
            let low = if 'A' <= c && c <= 'Z' {
                ((c as u8) + 32) as char
            } else {
                c
            };
            out.push(low);
        } else {
            out.push(c);
        }
        assert(before + spaced_from(s@, i as int, prev) =~= out@ + spaced_from(s@, i + 1, c));
        prev = c;
        i = i + 1;
    }
    string_of(out.as_slice())
}

} // verus!
