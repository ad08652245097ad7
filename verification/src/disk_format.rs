//! The byte layout of the stored index files: the table of entries by code
//! and the table of children by parent code. Numbers are little-endian
//! `u64`s, a text is its length and then its characters as `u32` code
//! points; a file holds its row count, its version text, then its rows. The
//! mapping of the files themselves is left to the caller.
use vstd::prelude::*;
use crate::error::AreaResult;
use crate::store::{strs_view, keys_distinct, lemma_rows_map_has, lemma_rows_map_missing, rows_map, AreaCodeIndexInfo, IndexInfoView};
use crate::area_code::string_views;
use crate::text::{chars_of, string_of};

verus! {

/// The eight little-endian bytes of `n`.
pub open spec fn u64_le(n: u64) -> Seq<u8> {
    seq![
        (n & 0xff) as u8,
        ((n >> 8u64) & 0xff) as u8,
        ((n >> 16u64) & 0xff) as u8,
        ((n >> 24u64) & 0xff) as u8,
        ((n >> 32u64) & 0xff) as u8,
        ((n >> 40u64) & 0xff) as u8,
        ((n >> 48u64) & 0xff) as u8,
        ((n >> 56u64) & 0xff) as u8,
    ]
}

/// The little-endian `u64` at byte `p` of `b`.
pub open spec fn u64_at(b: Seq<u8>, p: int) -> u64 {
    (b[p] as u64) | ((b[p + 1] as u64) << 8u64) | ((b[p + 2] as u64) << 16u64) | ((b[p + 3] as u64)
        << 24u64) | ((b[p + 4] as u64) << 32u64) | ((b[p + 5] as u64) << 40u64) | ((b[p + 6] as u64)
        << 48u64) | ((b[p + 7] as u64) << 56u64)
}

/// The four little-endian bytes of `n`.
pub open spec fn u32_le(n: u32) -> Seq<u8> {
    seq![(n & 0xff) as u8, ((n >> 8u32) & 0xff) as u8, ((n >> 16u32) & 0xff) as u8, ((n >> 24u32) & 0xff) as u8]
}

/// The little-endian `u32` at byte `p` of `b`.
pub open spec fn u32_at(b: Seq<u8>, p: int) -> u32 {
    (b[p] as u32) | ((b[p + 1] as u32) << 8u32) | ((b[p + 2] as u32) << 16u32) | ((b[p + 3] as u32) << 24u32)
}

/// Whether `v` is the code point of a character.
pub open spec fn valid_code(v: u32) -> bool {
    v <= 0x10FFFF && !(0xD800 <= v <= 0xDFFF)
}

/// The bytes of the characters `s`, four per character.
pub open spec fn chars_bytes(s: Seq<char>) -> Seq<u8>
    decreases s.len(),
{
    if s.len() == 0 {
        seq![]
    } else {
        u32_le(s[0] as u32) + chars_bytes(s.drop_first())
    }
}

/// The bytes of a text: its length, then its characters.
pub open spec fn text_bytes(s: Seq<char>) -> Seq<u8> {
    u64_le(s.len() as u64) + chars_bytes(s)
}

/// The `n` characters at byte `p` of `b`; none where the bytes run out or
/// hold no character.
pub open spec fn read_chars(b: Seq<u8>, p: int, n: nat) -> Option<Seq<char>>
    decreases n,
{
    if n == 0 {
        Some(seq![])
    } else if p < 0 || p + 4 > b.len() || !valid_code(u32_at(b, p)) {
        None
    } else {
        match read_chars(b, p + 4, (n - 1) as nat) {
            Some(rest) => Some(seq![u32_at(b, p) as char] + rest),
            None => None,
        }
    }
}

/// The text at byte `p` of `b` and the byte after it.
pub open spec fn read_text(b: Seq<u8>, p: int) -> Option<(Seq<char>, int)> {
    if p < 0 || p + 8 > b.len() {
        None
    } else {
        let n = u64_at(b, p);
        match read_chars(b, p + 8, n as nat) {
            Some(s) => Some((s, p + 8 + 4 * n)),
            None => None,
        }
    }
}

/// The bytes of an entry of the index table: its code, its hidden flag as
/// one byte, its name.
pub open spec fn index_row_bytes(row: (Seq<char>, IndexInfoView)) -> Seq<u8> {
    text_bytes(row.0) + seq![if row.1.hide { 1u8 } else { 0u8 }] + text_bytes(row.1.name)
}

/// The bytes of the entries `rows`, one after the other.
pub open spec fn index_rows_bytes(rows: Seq<(Seq<char>, IndexInfoView)>) -> Seq<u8>
    decreases rows.len(),
{
    if rows.len() == 0 {
        seq![]
    } else {
        index_row_bytes(rows[0]) + index_rows_bytes(rows.drop_first())
    }
}

/// The bytes of an index table file of the entries `rows` saved as `version`.
pub open spec fn index_bytes(rows: Seq<(Seq<char>, IndexInfoView)>, version: Seq<char>) -> Seq<u8> {
    u64_le(rows.len() as u64) + text_bytes(version) + index_rows_bytes(rows)
}

/// The entry at byte `p` of `b` and the byte after it.
pub open spec fn read_index_row(b: Seq<u8>, p: int) -> Option<((Seq<char>, IndexInfoView), int)> {
    match read_text(b, p) {
        None => None,
        Some((key, q)) => if q + 1 > b.len() {
            None
        } else {
            match read_text(b, q + 1) {
                None => None,
                Some((name, e)) => Some(((key, IndexInfoView { hide: b[q] != 0, name }), e)),
            }
        },
    }
}

/// The entry for `key` among the `n` entries from byte `p` of `b`, read in
/// turn: the first entry of that code, none where the bytes give out first.
pub open spec fn scan_index(b: Seq<u8>, p: int, n: nat, key: Seq<char>) -> Option<IndexInfoView>
    decreases n,
{
    if n == 0 {
        None
    } else {
        match read_index_row(b, p) {
            None => None,
            Some((row, q)) => if row.0 == key {
                Some(row.1)
            } else {
                scan_index(b, q, (n - 1) as nat, key)
            },
        }
    }
}

/// What an index table file `b` holds for `key`: its row count and version
/// are read, then its entries in turn.
pub open spec fn index_lookup(b: Seq<u8>, key: Seq<char>) -> Option<IndexInfoView> {
    if b.len() < 8 {
        None
    } else {
        match read_text(b, 8) {
            None => None,
            Some((_, p)) => scan_index(b, p, u64_at(b, 0) as nat, key),
        }
    }
}

/// The first entry of `rows` with code `key`.
pub open spec fn first_entry(rows: Seq<(Seq<char>, IndexInfoView)>, key: Seq<char>) -> Option<IndexInfoView>
    decreases rows.len(),
{
    if rows.len() == 0 {
        None
    } else if rows[0].0 == key {
        Some(rows[0].1)
    } else {
        first_entry(rows.drop_first(), key)
    }
}

/// Reading back the eight bytes of `n` gives `n`.
proof fn lemma_u64_at(b: Seq<u8>, p: int, n: u64)
    requires
        0 <= p,
        p + 8 <= b.len(),
        b.subrange(p, p + 8) == u64_le(n),
    ensures
        u64_at(b, p) == n,
{
    let e = u64_le(n);
    assert(b[p] == e[0] && b[p + 1] == e[1] && b[p + 2] == e[2] && b[p + 3] == e[3]);
    assert(b[p + 4] == e[4] && b[p + 5] == e[5] && b[p + 6] == e[6] && b[p + 7] == e[7]);
    let (b0, b1, b2, b3, b4, b5, b6, b7) = (b[p], b[p + 1], b[p + 2], b[p + 3], b[p + 4], b[p + 5], b[p + 6], b[p + 7]);
    assert((b0 as u64) | ((b1 as u64) << 8u64) | ((b2 as u64) << 16u64) | ((b3 as u64) << 24u64) | ((b4 as u64)
        << 32u64) | ((b5 as u64) << 40u64) | ((b6 as u64) << 48u64) | ((b7 as u64) << 56u64) == n) by (bit_vector)
        requires
            b0 == (n & 0xff) as u8,
            b1 == ((n >> 8u64) & 0xff) as u8,
            b2 == ((n >> 16u64) & 0xff) as u8,
            b3 == ((n >> 24u64) & 0xff) as u8,
            b4 == ((n >> 32u64) & 0xff) as u8,
            b5 == ((n >> 40u64) & 0xff) as u8,
            b6 == ((n >> 48u64) & 0xff) as u8,
            b7 == ((n >> 56u64) & 0xff) as u8,
    ;
}

/// Reading back the four bytes of `n` gives `n`.
proof fn lemma_u32_at(b: Seq<u8>, p: int, n: u32)
    requires
        0 <= p,
        p + 4 <= b.len(),
        b.subrange(p, p + 4) == u32_le(n),
    ensures
        u32_at(b, p) == n,
{
    let e = u32_le(n);
    assert(b[p] == e[0] && b[p + 1] == e[1] && b[p + 2] == e[2] && b[p + 3] == e[3]);
    let (b0, b1, b2, b3) = (b[p], b[p + 1], b[p + 2], b[p + 3]);
    assert((b0 as u32) | ((b1 as u32) << 8u32) | ((b2 as u32) << 16u32) | ((b3 as u32) << 24u32) == n) by (bit_vector)
        requires
            b0 == (n & 0xff) as u8,
            b1 == ((n >> 8u32) & 0xff) as u8,
            b2 == ((n >> 16u32) & 0xff) as u8,
            b3 == ((n >> 24u32) & 0xff) as u8,
    ;
}

/// Where `x + y` stands at byte `p`, `x` stands at `p` and `y` after it.
proof fn lemma_split(b: Seq<u8>, p: int, x: Seq<u8>, y: Seq<u8>)
    requires
        0 <= p,
        p + x.len() + y.len() <= b.len(),
        b.subrange(p, p + x.len() + y.len()) == x + y,
    ensures
        b.subrange(p, p + x.len()) == x,
        b.subrange(p + x.len(), p + x.len() + y.len()) == y,
{
    assert forall|i: int| 0 <= i < x.len() implies b.subrange(p, p + x.len())[i] == x[i] by {
        assert(b.subrange(p, p + x.len() + y.len())[i] == (x + y)[i]);
    }
    assert(b.subrange(p, p + x.len()) =~= x);
    assert forall|i: int| 0 <= i < y.len() implies b.subrange(p + x.len(), p + x.len() + y.len())[i] == y[i] by {
        assert(b.subrange(p, p + x.len() + y.len())[x.len() + i] == (x + y)[x.len() + i]);
        assert(b.subrange(p, p + x.len() + y.len())[x.len() + i] == b[p + x.len() + i]);
        assert(b.subrange(p + x.len(), p + x.len() + y.len())[i] == b[p + x.len() + i]);
        assert((x + y)[x.len() + i] == y[i]);
    }
    assert(b.subrange(p + x.len(), p + x.len() + y.len()) =~= y);
}

/// A character's code point is valid and gives the character back.
proof fn lemma_char_code(c: char)
    ensures
        (c as u32) as int == c as int,
        valid_code(c as u32),
        (c as u32) as char == c,
{
    let v = c as u32;
    assert((v as char) as u32 == v);
}

/// The bytes of `s` take four per character, and read back as `s`.
proof fn lemma_read_chars(b: Seq<u8>, p: int, s: Seq<char>)
    requires
        0 <= p,
        p + chars_bytes(s).len() <= b.len(),
        b.subrange(p, p + chars_bytes(s).len()) == chars_bytes(s),
    ensures
        chars_bytes(s).len() == 4 * s.len(),
        read_chars(b, p, s.len()) == Some(s),
    decreases s.len(),
{
    if s.len() > 0 {
        let x = u32_le(s[0] as u32);
        let y = chars_bytes(s.drop_first());
        lemma_chars_bytes_len(s.drop_first());
        lemma_split(b, p, x, y);
        lemma_u32_at(b, p, s[0] as u32);
        lemma_char_code(s[0]);
        lemma_read_chars(b, p + 4, s.drop_first());
        assert(seq![s[0]] + s.drop_first() =~= s);
    }
}

/// The bytes of `s` take four per character.
proof fn lemma_chars_bytes_len(s: Seq<char>)
    ensures
        chars_bytes(s).len() == 4 * s.len(),
    decreases s.len(),
{
    if s.len() > 0 {
        lemma_chars_bytes_len(s.drop_first());
    }
}

/// The bytes of a text read back as the text, ending where they end.
proof fn lemma_read_text(b: Seq<u8>, p: int, s: Seq<char>)
    requires
        0 <= p,
        s.len() <= u64::MAX,
        p + text_bytes(s).len() <= b.len(),
        b.subrange(p, p + text_bytes(s).len()) == text_bytes(s),
    ensures
        text_bytes(s).len() == 8 + 4 * s.len(),
        read_text(b, p) == Some((s, p + text_bytes(s).len())),
{
    lemma_chars_bytes_len(s);
    lemma_split(b, p, u64_le(s.len() as u64), chars_bytes(s));
    lemma_u64_at(b, p, s.len() as u64);
    lemma_read_chars(b, p + 8, s);
}

/// Whether every text of the entries fits the length field.
pub open spec fn index_rows_fit(rows: Seq<(Seq<char>, IndexInfoView)>) -> bool {
    forall|i: int| 0 <= i < rows.len() ==> (#[trigger] rows[i]).0.len() <= u64::MAX && rows[i].1.name.len() <= u64::MAX
}

/// The bytes of an entry read back as the entry.
proof fn lemma_read_index_row(b: Seq<u8>, p: int, row: (Seq<char>, IndexInfoView))
    requires
        0 <= p,
        row.0.len() <= u64::MAX,
        row.1.name.len() <= u64::MAX,
        p + index_row_bytes(row).len() <= b.len(),
        b.subrange(p, p + index_row_bytes(row).len()) == index_row_bytes(row),
    ensures
        read_index_row(b, p) == Some((row, p + index_row_bytes(row).len())),
{
    let kb = text_bytes(row.0);
    let hb = seq![if row.1.hide { 1u8 } else { 0u8 }];
    let nb = text_bytes(row.1.name);
    lemma_split(b, p, kb + hb, nb);
    lemma_split(b, p, kb, hb);
    lemma_read_text(b, p, row.0);
    lemma_read_text(b, p + kb.len() + 1, row.1.name);
    assert(b[p + kb.len()] == b.subrange(p + kb.len(), p + kb.len() + 1)[0]);
    assert(row.1 == IndexInfoView { hide: b[p + kb.len()] != 0, name: row.1.name });
}

/// Scanning the bytes of entries finds the first entry of a code.
proof fn lemma_scan_index(b: Seq<u8>, p: int, rows: Seq<(Seq<char>, IndexInfoView)>, key: Seq<char>)
    requires
        0 <= p,
        index_rows_fit(rows),
        p + index_rows_bytes(rows).len() <= b.len(),
        b.subrange(p, p + index_rows_bytes(rows).len()) == index_rows_bytes(rows),
    ensures
        scan_index(b, p, rows.len(), key) == first_entry(rows, key),
    decreases rows.len(),
{
    if rows.len() > 0 {
        let x = index_row_bytes(rows[0]);
        let y = index_rows_bytes(rows.drop_first());
        lemma_split(b, p, x, y);
        assert(rows[0].0.len() <= u64::MAX && rows[0].1.name.len() <= u64::MAX);
        lemma_read_index_row(b, p, rows[0]);
        assert(index_rows_fit(rows.drop_first())) by {
            assert forall|i: int| 0 <= i < rows.drop_first().len() implies (#[trigger] rows.drop_first()[i]).0.len() <= u64::MAX
                && rows.drop_first()[i].1.name.len() <= u64::MAX by {
                assert(rows.drop_first()[i] == rows[i + 1]);
            }
        }
        lemma_scan_index(b, p + x.len(), rows.drop_first(), key);
    }
}

/// Looking a code up in the index table file of `rows` gives the first
/// entry of that code; where no code occurs twice, what the store kept for
/// it.
pub proof fn law_index_file_read_after_write(
    rows: Seq<(Seq<char>, IndexInfoView)>,
    version: Seq<char>,
    key: Seq<char>,
)
    requires
        rows.len() <= u64::MAX,
        version.len() <= u64::MAX,
        index_rows_fit(rows),
    ensures
        index_lookup(index_bytes(rows, version), key) == first_entry(rows, key),
        table_version(index_bytes(rows, version)) == Some(version),
        keys_distinct(rows) ==> index_lookup(index_bytes(rows, version), key) == if rows_map(rows).contains_key(key) {
            Some(rows_map(rows)[key])
        } else {
            None
        },
{
    let b = index_bytes(rows, version);
    let h = u64_le(rows.len() as u64);
    let t = text_bytes(version);
    let r = index_rows_bytes(rows);
    assert(b.subrange(0, b.len() as int) =~= h + t + r);
    lemma_split(b, 0, h + t, r);
    lemma_split(b, 0, h, t);
    lemma_u64_at(b, 0, rows.len() as u64);
    lemma_read_text(b, 8, version);
    lemma_scan_index(b, (8 + t.len()) as int, rows, key);
    if keys_distinct(rows) {
        lemma_first_entry_map(rows, key);
    }
}

/// Where no code occurs twice, the first entry of a code is the entry the
/// map of the entries gives.
proof fn lemma_first_entry_map(rows: Seq<(Seq<char>, IndexInfoView)>, key: Seq<char>)
    requires
        keys_distinct(rows),
    ensures
        first_entry(rows, key) == if rows_map(rows).contains_key(key) {
            Some(rows_map(rows)[key])
        } else {
            None
        },
{
    lemma_first_entry_index(rows, key);
    match first_entry(rows, key) {
        Some(v) => {
            let i = choose|i: int| 0 <= i < rows.len() && rows[i].0 == key && rows[i].1 == v;
            lemma_rows_map_has(rows, i);
        },
        None => {
            lemma_rows_map_missing(rows, key);
        },
    }
}

/// The first entry of a code is one with that code; none means no entry has it.
proof fn lemma_first_entry_index(rows: Seq<(Seq<char>, IndexInfoView)>, key: Seq<char>)
    ensures
        first_entry(rows, key) matches Some(v) ==> exists|i: int| 0 <= i < rows.len() && rows[i].0 == key && rows[i].1 == v,
        first_entry(rows, key) is None ==> forall|i: int| 0 <= i < rows.len() ==> #[trigger] rows[i].0 != key,
    decreases rows.len(),
{
    if rows.len() > 0 {
        let d = rows.drop_first();
        lemma_first_entry_index(d, key);
        if rows[0].0 != key {
            if let Some(v) = first_entry(d, key) {
                let i = choose|i: int| 0 <= i < d.len() && d[i].0 == key && d[i].1 == v;
                assert(rows[i + 1] == d[i]);
            } else {
                assert forall|i: int| 0 <= i < rows.len() implies #[trigger] rows[i].0 != key by {
                    if i > 0 {
                        assert(rows[i] == d[i - 1]);
                    }
                }
            }
        }
    }
}


/// The bytes of `a` then `b` are those of `a`, then those of `b`.
proof fn lemma_chars_bytes_concat(a: Seq<char>, b: Seq<char>)
    ensures
        chars_bytes(a + b) == chars_bytes(a) + chars_bytes(b),
    decreases a.len(),
{
    if a.len() > 0 {
        lemma_chars_bytes_concat(a.drop_first(), b);
        assert((a + b).drop_first() =~= a.drop_first() + b);
        assert((a + b)[0] == a[0]);
        assert(u32_le(a[0] as u32) + (chars_bytes(a.drop_first()) + chars_bytes(b)) =~= (u32_le(a[0] as u32)
            + chars_bytes(a.drop_first())) + chars_bytes(b));
    } else {
        assert(a + b =~= b);
        assert(Seq::<u8>::empty() + chars_bytes(b) =~= chars_bytes(b));
    }
}

/// The bytes of the entries `a` then `b`.
proof fn lemma_index_rows_bytes_concat(a: Seq<(Seq<char>, IndexInfoView)>, b: Seq<(Seq<char>, IndexInfoView)>)
    ensures
        index_rows_bytes(a + b) == index_rows_bytes(a) + index_rows_bytes(b),
    decreases a.len(),
{
    if a.len() > 0 {
        lemma_index_rows_bytes_concat(a.drop_first(), b);
        assert((a + b).drop_first() =~= a.drop_first() + b);
        assert((a + b)[0] == a[0]);
        assert(index_row_bytes(a[0]) + (index_rows_bytes(a.drop_first()) + index_rows_bytes(b)) =~= (
        index_row_bytes(a[0]) + index_rows_bytes(a.drop_first())) + index_rows_bytes(b));
    } else {
        assert(a + b =~= b);
        assert(Seq::<u8>::empty() + index_rows_bytes(b) =~= index_rows_bytes(b));
    }
}

/// Appends the eight little-endian bytes of `n`.
fn push_u64(out: &mut Vec<u8>, n: u64)
    ensures
        final(out)@ == old(out)@ + u64_le(n),
{
    out.push((n & 0xff) as u8);
    out.push(((n >> 8u64) & 0xff) as u8);
    out.push(((n >> 16u64) & 0xff) as u8);
    out.push(((n >> 24u64) & 0xff) as u8);
    out.push(((n >> 32u64) & 0xff) as u8);
    out.push(((n >> 40u64) & 0xff) as u8);
    out.push(((n >> 48u64) & 0xff) as u8);
    out.push(((n >> 56u64) & 0xff) as u8);
    assert(final(out)@ =~= old(out)@ + u64_le(n));
}

/// Appends the four little-endian bytes of `n`.
fn push_u32(out: &mut Vec<u8>, n: u32)
    ensures
        final(out)@ == old(out)@ + u32_le(n),
{
    out.push((n & 0xff) as u8);
    out.push(((n >> 8u32) & 0xff) as u8);
    out.push(((n >> 16u32) & 0xff) as u8);
    out.push(((n >> 24u32) & 0xff) as u8);
    assert(final(out)@ =~= old(out)@ + u32_le(n));
}

/// Appends the bytes of the text `s`.
fn push_text(out: &mut Vec<u8>, s: &str)
    ensures
        final(out)@ == old(out)@ + text_bytes(s@),
{
    let cs = chars_of(s);
    let ghost base = out@;
    push_u64(out, cs.len() as u64);
    let mut i: usize = 0;
    assert(cs@.take(0) =~= Seq::<char>::empty());
    assert(out@ =~= base + u64_le(s@.len() as u64) + chars_bytes(cs@.take(0)));
    while i < cs.len()
        invariant
            i <= cs.len(),
            cs@ == s@,
            out@ == base + u64_le(s@.len() as u64) + chars_bytes(cs@.take(i as int)),
        decreases cs.len() - i,
    {
        let c = cs[i];
        push_u32(out, c as u32);
        proof {
            assert(cs@.take(i + 1) =~= cs@.take(i as int) + seq![c]);
            lemma_chars_bytes_concat(cs@.take(i as int), seq![c]);
            assert(seq![c].drop_first() =~= Seq::<char>::empty());
            assert(seq![c][0] == c);
            assert(chars_bytes(Seq::<char>::empty()) == Seq::<u8>::empty());
            assert(chars_bytes(seq![c]) =~= u32_le(c as u32));
        }
        i = i + 1;
    }
    assert(cs@.take(cs.len() as int) =~= cs@);
}

/// The views of stored index entries.
pub open spec fn index_rows_view(rows: Seq<(String, AreaCodeIndexInfo)>) -> Seq<(Seq<char>, IndexInfoView)> {
    Seq::new(rows.len(), |i: int| (rows[i].0@, rows[i].1@))
}

/// The bytes of an index table file of the entries `rows` saved as
/// `version` (`index_bytes`).
pub fn encode_index_data(rows: &Vec<(String, AreaCodeIndexInfo)>, version: &str) -> (r: Vec<u8>)
    ensures
        r@ == index_bytes(index_rows_view(rows@), version@),
{
    let ghost rv = index_rows_view(rows@);
    let mut out: Vec<u8> = Vec::new();
    push_u64(&mut out, rows.len() as u64);
    push_text(&mut out, version);
    let ghost head = out@;
    let mut i: usize = 0;
    assert(rv.take(0) =~= Seq::<(Seq<char>, IndexInfoView)>::empty());
    assert(out@ =~= head + index_rows_bytes(rv.take(0)));
    while i < rows.len()
        invariant
            i <= rows.len(),
            rv == index_rows_view(rows@),
            out@ == head + index_rows_bytes(rv.take(i as int)),
        decreases rows.len() - i,
    {
        let ghost before = out@;
        push_text(&mut out, rows[i].0.as_str());
        out.push(if rows[i].1.hide { 1u8 } else { 0u8 });
        push_text(&mut out, rows[i].1.name.as_str());
        proof {
            let row = rv[i as int];
            assert(row == (rows@[i as int].0@, rows@[i as int].1@));
            assert(out@ =~= before + index_row_bytes(row));
            assert(rv.take(i + 1) =~= rv.take(i as int) + seq![row]);
            lemma_index_rows_bytes_concat(rv.take(i as int), seq![row]);
            assert(seq![row].drop_first() =~= Seq::<(Seq<char>, IndexInfoView)>::empty());
            assert(seq![row][0] == row);
            assert(index_rows_bytes(Seq::<(Seq<char>, IndexInfoView)>::empty()) == Seq::<u8>::empty());
            assert(index_rows_bytes(seq![row]) =~= index_row_bytes(row));
        }
        i = i + 1;
    }
    assert(rv.take(rows.len() as int) =~= rv);
    out
}

/// The little-endian `u64` at byte `p` of `b`.
fn read_u64(b: &[u8], p: usize) -> (r: u64)
    requires
        p + 8 <= b.len(),
    ensures
        r == u64_at(b@, p as int),
{
    (b[p] as u64) | ((b[p + 1] as u64) << 8u64) | ((b[p + 2] as u64) << 16u64) | ((b[p + 3] as u64) << 24u64)
        | ((b[p + 4] as u64) << 32u64) | ((b[p + 5] as u64) << 40u64) | ((b[p + 6] as u64) << 48u64) | ((b[p
        + 7] as u64) << 56u64)
}

/// The little-endian `u32` at byte `p` of `b`.
fn read_u32(b: &[u8], p: usize) -> (r: u32)
    requires
        p + 4 <= b.len(),
    ensures
        r == u32_at(b@, p as int),
{
    (b[p] as u32) | ((b[p + 1] as u32) << 8u32) | ((b[p + 2] as u32) << 16u32) | ((b[p + 3] as u32) << 24u32)
}

/// The character with code point `n`, by `char::from_u32`, which gives none
/// exactly for surrogates and numbers past `0x10FFFF`.
#[verifier::external_body]
fn char_of_code(n: u32) -> (r: Option<char>)
    ensures
        match r {
            Some(c) => c as int == n as int,
            None => !valid_code(n),
        },
{
    char::from_u32(n)
}

/// `acc` before what `r` read, where it read anything.
pub open spec fn after(acc: Seq<char>, r: Option<Seq<char>>) -> Option<Seq<char>> {
    match r {
        Some(s) => Some(acc + s),
        None => None,
    }
}

/// The `n` characters at byte `p` of `b` (`read_chars`).
fn read_chars_exec(b: &[u8], p: usize, n: u64) -> (r: Option<Vec<char>>)
    ensures
        match r {
            Some(v) => read_chars(b@, p as int, n as nat) == Some(v@),
            None => read_chars(b@, p as int, n as nat) is None,
        },
{
    let mut acc: Vec<char> = Vec::new();
    let mut pos: usize = p;
    let mut k: u64 = 0;
    assert(after(acc@, read_chars(b@, pos as int, (n - k) as nat)) == read_chars(b@, p as int, n as nat)) by {
        match read_chars(b@, p as int, n as nat) {
            Some(s) => {
                assert(Seq::<char>::empty() + s =~= s);
            },
            None => {},
        }
    }
    while k < n
        invariant
            k <= n,
            after(acc@, read_chars(b@, pos as int, (n - k) as nat)) == read_chars(b@, p as int, n as nat),
        decreases n - k,
    {
        if b.len() < 4 || pos > b.len() - 4 {
            return None;
        }
        let v = read_u32(b, pos);
        match char_of_code(v) {
            None => {
                return None;
            },
            Some(c) => {
                proof {
                    lemma_char_code(c);
                    assert(c as u32 == v);
                }
                assert(c == v as char);
                proof {
                    match read_chars(b@, pos + 4, (n - k - 1) as nat) {
                        Some(rest) => {
                            assert(acc@ + (seq![c] + rest) =~= acc@.push(c) + rest);
                        },
                        None => {},
                    }
                }
                acc.push(c);
                pos = pos + 4;
                k = k + 1;
            },
        }
    }
    assert(read_chars(b@, pos as int, 0) == Some(Seq::<char>::empty()));
    assert(acc@ + Seq::<char>::empty() =~= acc@);
    Some(acc)
}

/// The text at byte `p` of `b` and the byte after it (`read_text`).
fn read_text_exec(b: &[u8], p: usize) -> (r: Option<(String, usize)>)
    ensures
        match r {
            Some((s, q)) => read_text(b@, p as int) == Some((s@, q as int)) && q <= b.len(),
            None => read_text(b@, p as int) is None,
        },
{
    if b.len() < 8 || p > b.len() - 8 {
        return None;
    }
    let n = read_u64(b, p);
    match read_chars_exec(b, p + 8, n) {
        None => None,
        Some(v) => {
            proof {
                lemma_read_chars_end(b@, (p + 8) as int, n as nat);
            }
            let q = p + 8 + 4 * v.len();
            Some((string_of(v.as_slice()), q))
        },
    }
}

/// Characters read from the bytes fit in them.
proof fn lemma_read_chars_end(b: Seq<u8>, p: int, n: nat)
    requires
        read_chars(b, p, n) is Some,
    ensures
        read_chars(b, p, n)->0.len() == n,
        n > 0 ==> 0 <= p && p + 4 * n <= b.len(),
    decreases n,
{
    if n > 0 {
        lemma_read_chars_end(b, p + 4, (n - 1) as nat);
    }
}

/// The view of an optional index entry.
pub open spec fn opt_info(r: Option<AreaCodeIndexInfo>) -> Option<IndexInfoView> {
    match r {
        Some(x) => Some(x@),
        None => None,
    }
}

/// The entry at byte `p` of `b` and the byte after it (`read_index_row`).
fn read_index_row_exec(b: &[u8], p: usize) -> (r: Option<(String, AreaCodeIndexInfo, usize)>)
    ensures
        match r {
            Some((k, info, q)) => read_index_row(b@, p as int) == Some(((k@, info@), q as int)) && q <= b.len(),
            None => read_index_row(b@, p as int) is None,
        },
{
    let (key, q) = match read_text_exec(b, p) {
        Some(x) => x,
        None => {
            return None;
        },
    };
    if q >= b.len() {
        return None;
    }
    let hide = b[q] != 0;
    let (name, e) = match read_text_exec(b, q + 1) {
        Some(x) => x,
        None => {
            return None;
        },
    };
    Some((key, AreaCodeIndexInfo { hide, name }, e))
}

/// What the index table file `bytes` holds for the code `key`
/// (`index_lookup`): the first entry of that code, read entry by entry.
pub fn index_data_lookup(bytes: &[u8], key: &str) -> (r: Option<AreaCodeIndexInfo>)
    ensures
        opt_info(r) == index_lookup(bytes@, key@),
{
    if bytes.len() < 8 {
        return None;
    }
    let n = read_u64(bytes, 0);
    let mut pos = match read_text_exec(bytes, 8) {
        Some((_, q)) => q,
        None => {
            return None;
        },
    };
    let k = String::from_str(key);
    let mut i: u64 = 0;
    while i < n
        invariant
            i <= n,
            pos <= bytes.len(),
            k@ == key@,
            index_lookup(bytes@, key@) == scan_index(bytes@, pos as int, (n - i) as nat, key@),
        decreases n - i,
    {
        match read_index_row_exec(bytes, pos) {
            None => {
                return None;
            },
            Some((rk, info, q)) => {
                if rk == k {
                    return Some(info);
                }
                pos = q;
            },
        }
        i = i + 1;
    }
    None
}


/// The bytes of the texts `ts`, one after the other.
pub open spec fn texts_bytes(ts: Seq<Seq<char>>) -> Seq<u8>
    decreases ts.len(),
{
    if ts.len() == 0 {
        seq![]
    } else {
        text_bytes(ts[0]) + texts_bytes(ts.drop_first())
    }
}

/// The bytes of a row of the children table: the parent code, the number of
/// children, the child codes.
pub open spec fn tree_row_bytes(row: (Seq<char>, Seq<Seq<char>>)) -> Seq<u8> {
    text_bytes(row.0) + u64_le(row.1.len() as u64) + texts_bytes(row.1)
}

/// The bytes of the rows `rows`, one after the other.
pub open spec fn tree_rows_bytes(rows: Seq<(Seq<char>, Seq<Seq<char>>)>) -> Seq<u8>
    decreases rows.len(),
{
    if rows.len() == 0 {
        seq![]
    } else {
        tree_row_bytes(rows[0]) + tree_rows_bytes(rows.drop_first())
    }
}

/// The bytes of a children table file of the rows `rows` saved as `version`.
pub open spec fn tree_bytes(rows: Seq<(Seq<char>, Seq<Seq<char>>)>, version: Seq<char>) -> Seq<u8> {
    u64_le(rows.len() as u64) + text_bytes(version) + tree_rows_bytes(rows)
}

/// The `n` texts at byte `p` of `b` and the byte after them.
pub open spec fn read_texts(b: Seq<u8>, p: int, n: nat) -> Option<(Seq<Seq<char>>, int)>
    decreases n,
{
    if n == 0 {
        Some((seq![], p))
    } else {
        match read_text(b, p) {
            None => None,
            Some((t, q)) => match read_texts(b, q, (n - 1) as nat) {
                None => None,
                Some((ts, e)) => Some((seq![t] + ts, e)),
            },
        }
    }
}

/// The row of the children table at byte `p` of `b` and the byte after it.
pub open spec fn read_tree_row(b: Seq<u8>, p: int) -> Option<((Seq<char>, Seq<Seq<char>>), int)> {
    match read_text(b, p) {
        None => None,
        Some((key, q)) => if q + 8 > b.len() {
            None
        } else {
            match read_texts(b, q + 8, u64_at(b, q) as nat) {
                None => None,
                Some((ts, e)) => Some(((key, ts), e)),
            }
        },
    }
}

/// The children of `key` among the `n` rows from byte `p` of `b`, read in
/// turn: those of its first row, none where the bytes give out first.
pub open spec fn scan_tree(b: Seq<u8>, p: int, n: nat, key: Seq<char>) -> Option<Seq<Seq<char>>>
    decreases n,
{
    if n == 0 {
        None
    } else {
        match read_tree_row(b, p) {
            None => None,
            Some((row, q)) => if row.0 == key {
                Some(row.1)
            } else {
                scan_tree(b, q, (n - 1) as nat, key)
            },
        }
    }
}

/// The row count of a table file and the byte where its rows start.
pub open spec fn table_start(b: Seq<u8>) -> Option<(nat, int)> {
    if b.len() < 8 {
        None
    } else {
        match read_text(b, 8) {
            None => None,
            Some((_, p)) => Some((u64_at(b, 0) as nat, p)),
        }
    }
}

/// Whether `c` is a leaf among the `n` rows from byte `p` of `b`: it has no
/// row, or no children in its row.
pub open spec fn leaf_at(b: Seq<u8>, p: int, n: nat, c: Seq<char>) -> bool {
    match scan_tree(b, p, n, c) {
        None => true,
        Some(k) => k.len() == 0,
    }
}

/// What the children table file `b` answers for the parent code `index`: its
/// children, each with whether it is a leaf; none where `index` has no row.
pub open spec fn tree_lookup(b: Seq<u8>, index: Seq<char>) -> Option<Seq<(Seq<char>, bool)>> {
    match table_start(b) {
        None => None,
        Some((n, p)) => match scan_tree(b, p, n, index) {
            None => None,
            Some(kids) => Some(Seq::new(kids.len(), |i: int| (kids[i], leaf_at(b, p, n, kids[i])))),
        },
    }
}

/// The children in the first row of `rows` for `key`.
pub open spec fn first_children(rows: Seq<(Seq<char>, Seq<Seq<char>>)>, key: Seq<char>) -> Option<Seq<Seq<char>>>
    decreases rows.len(),
{
    if rows.len() == 0 {
        None
    } else if rows[0].0 == key {
        Some(rows[0].1)
    } else {
        first_children(rows.drop_first(), key)
    }
}

/// Whether `c` is a leaf in the rows: it has no row, or no children in its
/// first row.
pub open spec fn leaf_in(rows: Seq<(Seq<char>, Seq<Seq<char>>)>, c: Seq<char>) -> bool {
    match first_children(rows, c) {
        None => true,
        Some(k) => k.len() == 0,
    }
}

/// Whether every text of the rows fits the length fields.
pub open spec fn tree_rows_fit(rows: Seq<(Seq<char>, Seq<Seq<char>>)>) -> bool {
    forall|i: int|
        0 <= i < rows.len() ==> (#[trigger] rows[i]).0.len() <= u64::MAX && rows[i].1.len() <= u64::MAX && forall|
            j: int,
        | 0 <= j < rows[i].1.len() ==> (#[trigger] rows[i].1[j]).len() <= u64::MAX
}

/// The bytes of texts read back as the texts.
proof fn lemma_read_texts(b: Seq<u8>, p: int, ts: Seq<Seq<char>>)
    requires
        0 <= p,
        forall|j: int| 0 <= j < ts.len() ==> (#[trigger] ts[j]).len() <= u64::MAX,
        p + texts_bytes(ts).len() <= b.len(),
        b.subrange(p, p + texts_bytes(ts).len()) == texts_bytes(ts),
    ensures
        read_texts(b, p, ts.len()) == Some((ts, p + texts_bytes(ts).len())),
    decreases ts.len(),
{
    if ts.len() > 0 {
        let x = text_bytes(ts[0]);
        let y = texts_bytes(ts.drop_first());
        lemma_split(b, p, x, y);
        lemma_read_text(b, p, ts[0]);
        assert forall|j: int| 0 <= j < ts.drop_first().len() implies (#[trigger] ts.drop_first()[j]).len() <= u64::MAX by {
            assert(ts.drop_first()[j] == ts[j + 1]);
        }
        lemma_read_texts(b, p + x.len(), ts.drop_first());
        assert(seq![ts[0]] + ts.drop_first() =~= ts);
    }
}

/// The bytes of a row read back as the row.
proof fn lemma_read_tree_row(b: Seq<u8>, p: int, row: (Seq<char>, Seq<Seq<char>>))
    requires
        0 <= p,
        row.0.len() <= u64::MAX,
        row.1.len() <= u64::MAX,
        forall|j: int| 0 <= j < row.1.len() ==> (#[trigger] row.1[j]).len() <= u64::MAX,
        p + tree_row_bytes(row).len() <= b.len(),
        b.subrange(p, p + tree_row_bytes(row).len()) == tree_row_bytes(row),
    ensures
        read_tree_row(b, p) == Some((row, p + tree_row_bytes(row).len())),
{
    let kb = text_bytes(row.0);
    let cb = u64_le(row.1.len() as u64);
    let tb = texts_bytes(row.1);
    lemma_split(b, p, kb + cb, tb);
    lemma_split(b, p, kb, cb);
    lemma_read_text(b, p, row.0);
    lemma_u64_at(b, p + kb.len(), row.1.len() as u64);
    lemma_read_texts(b, p + kb.len() + 8, row.1);
}

/// Scanning the bytes of rows finds the first row of a parent code.
proof fn lemma_scan_tree(b: Seq<u8>, p: int, rows: Seq<(Seq<char>, Seq<Seq<char>>)>, key: Seq<char>)
    requires
        0 <= p,
        tree_rows_fit(rows),
        p + tree_rows_bytes(rows).len() <= b.len(),
        b.subrange(p, p + tree_rows_bytes(rows).len()) == tree_rows_bytes(rows),
    ensures
        scan_tree(b, p, rows.len(), key) == first_children(rows, key),
    decreases rows.len(),
{
    if rows.len() > 0 {
        let x = tree_row_bytes(rows[0]);
        let y = tree_rows_bytes(rows.drop_first());
        lemma_split(b, p, x, y);
        assert(rows[0].0.len() <= u64::MAX && rows[0].1.len() <= u64::MAX);
        assert forall|j: int| 0 <= j < rows[0].1.len() implies (#[trigger] rows[0].1[j]).len() <= u64::MAX by {}
        lemma_read_tree_row(b, p, rows[0]);
        assert(tree_rows_fit(rows.drop_first())) by {
            assert forall|i: int| 0 <= i < rows.drop_first().len() implies (#[trigger] rows.drop_first()[i]).0.len()
                <= u64::MAX && rows.drop_first()[i].1.len() <= u64::MAX && forall|j: int|
                0 <= j < rows.drop_first()[i].1.len() ==> (#[trigger] rows.drop_first()[i].1[j]).len() <= u64::MAX by {
                assert(rows.drop_first()[i] == rows[i + 1]);
            }
        }
        lemma_scan_tree(b, p + x.len(), rows.drop_first(), key);
    }
}

/// Asking the children table file of `rows` for a parent code gives the
/// children of its first row, each marked a leaf where it has no row or no
/// children in its row; none where the code has no row.
pub proof fn law_tree_file_read_after_write(
    rows: Seq<(Seq<char>, Seq<Seq<char>>)>,
    version: Seq<char>,
    index: Seq<char>,
)
    requires
        rows.len() <= u64::MAX,
        version.len() <= u64::MAX,
        tree_rows_fit(rows),
    ensures
        table_version(tree_bytes(rows, version)) == Some(version),
        tree_lookup(tree_bytes(rows, version), index) == match first_children(rows, index) {
            None => None,
            Some(kids) => Some(Seq::new(kids.len(), |i: int| (kids[i], leaf_in(rows, kids[i])))),
        },
{
    let b = tree_bytes(rows, version);
    let h = u64_le(rows.len() as u64);
    let t = text_bytes(version);
    let r = tree_rows_bytes(rows);
    assert(b.subrange(0, b.len() as int) =~= h + t + r);
    lemma_split(b, 0, h + t, r);
    lemma_split(b, 0, h, t);
    lemma_u64_at(b, 0, rows.len() as u64);
    lemma_read_text(b, 8, version);
    let p = (8 + t.len()) as int;
    assert(table_start(b) == Some((rows.len(), p)));
    lemma_scan_tree(b, p, rows, index);
    if let Some(kids) = first_children(rows, index) {
        assert forall|i: int| 0 <= i < kids.len() implies leaf_at(b, p, rows.len(), kids[i]) == leaf_in(rows, kids[i]) by {
            lemma_scan_tree(b, p, rows, kids[i]);
        }
        assert(Seq::new(kids.len(), |i: int| (kids[i], leaf_at(b, p, rows.len(), kids[i]))) =~= Seq::new(
            kids.len(),
            |i: int| (kids[i], leaf_in(rows, kids[i])),
        ));
    }
}


/// The bytes of the texts `a` then `b`.
proof fn lemma_texts_bytes_concat(a: Seq<Seq<char>>, b: Seq<Seq<char>>)
    ensures
        texts_bytes(a + b) == texts_bytes(a) + texts_bytes(b),
    decreases a.len(),
{
    if a.len() > 0 {
        lemma_texts_bytes_concat(a.drop_first(), b);
        assert((a + b).drop_first() =~= a.drop_first() + b);
        assert((a + b)[0] == a[0]);
        assert(text_bytes(a[0]) + (texts_bytes(a.drop_first()) + texts_bytes(b)) =~= (text_bytes(a[0])
            + texts_bytes(a.drop_first())) + texts_bytes(b));
    } else {
        assert(a + b =~= b);
        assert(Seq::<u8>::empty() + texts_bytes(b) =~= texts_bytes(b));
    }
}

/// The bytes of the rows `a` then `b`.
proof fn lemma_tree_rows_bytes_concat(a: Seq<(Seq<char>, Seq<Seq<char>>)>, b: Seq<(Seq<char>, Seq<Seq<char>>)>)
    ensures
        tree_rows_bytes(a + b) == tree_rows_bytes(a) + tree_rows_bytes(b),
    decreases a.len(),
{
    if a.len() > 0 {
        lemma_tree_rows_bytes_concat(a.drop_first(), b);
        assert((a + b).drop_first() =~= a.drop_first() + b);
        assert((a + b)[0] == a[0]);
        assert(tree_row_bytes(a[0]) + (tree_rows_bytes(a.drop_first()) + tree_rows_bytes(b)) =~= (
        tree_row_bytes(a[0]) + tree_rows_bytes(a.drop_first())) + tree_rows_bytes(b));
    } else {
        assert(a + b =~= b);
        assert(Seq::<u8>::empty() + tree_rows_bytes(b) =~= tree_rows_bytes(b));
    }
}

/// Appends the bytes of the texts `ts`.
fn push_texts(out: &mut Vec<u8>, ts: &Vec<String>)
    ensures
        final(out)@ == old(out)@ + texts_bytes(string_views(ts@)),
{
    let ghost sv = string_views(ts@);
    let ghost base = out@;
    let mut i: usize = 0;
    assert(sv.take(0) =~= Seq::<Seq<char>>::empty());
    assert(out@ =~= base + texts_bytes(sv.take(0)));
    while i < ts.len()
        invariant
            i <= ts.len(),
            sv == string_views(ts@),
            out@ == base + texts_bytes(sv.take(i as int)),
        decreases ts.len() - i,
    {
        push_text(out, ts[i].as_str());
        proof {
            let t = sv[i as int];
            assert(t == ts@[i as int]@);
            assert(sv.take(i + 1) =~= sv.take(i as int) + seq![t]);
            lemma_texts_bytes_concat(sv.take(i as int), seq![t]);
            assert(seq![t].drop_first() =~= Seq::<Seq<char>>::empty());
            assert(seq![t][0] == t);
            assert(texts_bytes(Seq::<Seq<char>>::empty()) == Seq::<u8>::empty());
            assert(texts_bytes(seq![t]) =~= text_bytes(t));
        }
        i = i + 1;
    }
    assert(sv.take(ts.len() as int) =~= sv);
}

/// The views of rows of a children table.
pub open spec fn tree_rows_view(rows: Seq<(String, Vec<String>)>) -> Seq<(Seq<char>, Seq<Seq<char>>)> {
    Seq::new(rows.len(), |i: int| (rows[i].0@, string_views(rows[i].1@)))
}

/// The bytes of a children table file of the rows `children` (a parent
/// code, the blank code for the top, and its child codes) saved as
/// `version` (`tree_bytes`).
pub fn encode_code_tree(children: &Vec<(String, Vec<String>)>, version: &str) -> (r: Vec<u8>)
    ensures
        r@ == tree_bytes(tree_rows_view(children@), version@),
{
    let ghost rv = tree_rows_view(children@);
    let mut out: Vec<u8> = Vec::new();
    push_u64(&mut out, children.len() as u64);
    push_text(&mut out, version);
    let ghost head = out@;
    let mut i: usize = 0;
    assert(rv.take(0) =~= Seq::<(Seq<char>, Seq<Seq<char>>)>::empty());
    assert(out@ =~= head + tree_rows_bytes(rv.take(0)));
    while i < children.len()
        invariant
            i <= children.len(),
            rv == tree_rows_view(children@),
            out@ == head + tree_rows_bytes(rv.take(i as int)),
        decreases children.len() - i,
    {
        let ghost before = out@;
        push_text(&mut out, children[i].0.as_str());
        push_u64(&mut out, children[i].1.len() as u64);
        push_texts(&mut out, &children[i].1);
        proof {
            let row = rv[i as int];
            assert(row == (children@[i as int].0@, string_views(children@[i as int].1@)));
            assert(out@ =~= before + tree_row_bytes(row));
            assert(rv.take(i + 1) =~= rv.take(i as int) + seq![row]);
            lemma_tree_rows_bytes_concat(rv.take(i as int), seq![row]);
            assert(seq![row].drop_first() =~= Seq::<(Seq<char>, Seq<Seq<char>>)>::empty());
            assert(seq![row][0] == row);
            assert(tree_rows_bytes(Seq::<(Seq<char>, Seq<Seq<char>>)>::empty()) == Seq::<u8>::empty());
            assert(tree_rows_bytes(seq![row]) =~= tree_row_bytes(row));
        }
        i = i + 1;
    }
    assert(rv.take(children.len() as int) =~= rv);
    out
}

/// Texts before what `r` read, where it read anything.
pub open spec fn after_texts(acc: Seq<Seq<char>>, r: Option<(Seq<Seq<char>>, int)>) -> Option<(Seq<Seq<char>>, int)> {
    match r {
        Some((ts, e)) => Some((acc + ts, e)),
        None => None,
    }
}

/// The `n` texts at byte `p` of `b` and the byte after them (`read_texts`).
fn read_texts_exec(b: &[u8], p: usize, n: u64) -> (r: Option<(Vec<String>, usize)>)
    ensures
        match r {
            Some((ts, e)) => read_texts(b@, p as int, n as nat) == Some((string_views(ts@), e as int)),
            None => read_texts(b@, p as int, n as nat) is None,
        },
{
    let mut acc: Vec<String> = Vec::new();
    let mut pos: usize = p;
    let mut k: u64 = 0;
    assert(after_texts(string_views(acc@), read_texts(b@, pos as int, (n - k) as nat)) == read_texts(b@, p as int, n as nat)) by {
        match read_texts(b@, p as int, n as nat) {
            Some((ts, e)) => {
                assert(string_views(acc@) + ts =~= ts);
            },
            None => {},
        }
    }
    while k < n
        invariant
            k <= n,
            after_texts(string_views(acc@), read_texts(b@, pos as int, (n - k) as nat)) == read_texts(b@, p as int, n as nat),
        decreases n - k,
    {
        match read_text_exec(b, pos) {
            None => {
                return None;
            },
            Some((t, q)) => {
                proof {
                    match read_texts(b@, q as int, (n - k - 1) as nat) {
                        Some((ts, e)) => {
                            assert(string_views(acc@.push(t)) =~= string_views(acc@).push(t@));
                            assert(string_views(acc@) + (seq![t@] + ts) =~= string_views(acc@).push(t@) + ts);
                        },
                        None => {},
                    }
                }
                acc.push(t);
                pos = q;
                k = k + 1;
            },
        }
    }
    assert(string_views(acc@) + Seq::<Seq<char>>::empty() =~= string_views(acc@));
    Some((acc, pos))
}

/// The row of the children table at byte `p` of `b` and the byte after it
/// (`read_tree_row`).
fn read_tree_row_exec(b: &[u8], p: usize) -> (r: Option<(String, Vec<String>, usize)>)
    ensures
        match r {
            Some((k, ts, e)) => read_tree_row(b@, p as int) == Some(((k@, string_views(ts@)), e as int)),
            None => read_tree_row(b@, p as int) is None,
        },
{
    let (key, q) = match read_text_exec(b, p) {
        Some(x) => x,
        None => {
            return None;
        },
    };
    if b.len() < 8 || q > b.len() - 8 {
        return None;
    }
    let m = read_u64(b, q);
    match read_texts_exec(b, q + 8, m) {
        None => None,
        Some((ts, e)) => Some((key, ts, e)),
    }
}

/// The children of `key` among the `n` rows from byte `p` of `b`
/// (`scan_tree`).
fn scan_tree_exec(b: &[u8], p: usize, n: u64, key: &String) -> (r: Option<Vec<String>>)
    ensures
        match r {
            Some(ts) => scan_tree(b@, p as int, n as nat, key@) == Some(string_views(ts@)),
            None => scan_tree(b@, p as int, n as nat, key@) is None,
        },
{
    let mut pos = p;
    let mut i: u64 = 0;
    while i < n
        invariant
            i <= n,
            scan_tree(b@, p as int, n as nat, key@) == scan_tree(b@, pos as int, (n - i) as nat, key@),
        decreases n - i,
    {
        match read_tree_row_exec(b, pos) {
            None => {
                return None;
            },
            Some((rk, ts, q)) => {
                if rk == *key {
                    return Some(ts);
                }
                pos = q;
            },
        }
        i = i + 1;
    }
    None
}

/// The view of an optional list of (code, flag) pairs.
pub open spec fn opt_pairs(r: Option<Vec<(String, bool)>>) -> Option<Seq<(Seq<char>, bool)>> {
    match r {
        Some(v) => Some(Seq::new(v@.len(), |i: int| (v@[i].0@, v@[i].1))),
        None => None,
    }
}

/// What the children table file `bytes` answers for the parent code `index`
/// (`tree_lookup`): the children of its first row, each with whether it is a
/// leaf (no row of its own, or no children in it); none where `index` has
/// no row.
pub fn code_tree_lookup(bytes: &[u8], index: &str) -> (r: Option<Vec<(String, bool)>>)
    ensures
        opt_pairs(r) == tree_lookup(bytes@, index@),
{
    if bytes.len() < 8 {
        return None;
    }
    let n = read_u64(bytes, 0);
    let p = match read_text_exec(bytes, 8) {
        Some((_, q)) => q,
        None => {
            return None;
        },
    };
    let key = String::from_str(index);
    let kids = match scan_tree_exec(bytes, p, n, &key) {
        Some(k) => k,
        None => {
            return None;
        },
    };
    let ghost kv = string_views(kids@);
    let mut out: Vec<(String, bool)> = Vec::new();
    let mut i: usize = 0;
    while i < kids.len()
        invariant
            i <= kids.len(),
            kv == string_views(kids@),
            out.len() == i,
            forall|j: int|
                0 <= j < i ==> #[trigger] out@[j] == (out@[j].0, out@[j].1) && out@[j].0@ == kv[j] && out@[j].1
                    == leaf_at(bytes@, p as int, n as nat, kv[j]),
        decreases kids.len() - i,
    {
        let leaf = match scan_tree_exec(bytes, p, n, &kids[i]) {
            None => true,
            Some(k) => k.len() == 0,
        };
        out.push((kids[i].clone(), leaf));
        i = i + 1;
    }
    assert(Seq::new(out@.len(), |j: int| (out@[j].0@, out@[j].1)) =~= Seq::new(
        kv.len(),
        |j: int| (kv[j], leaf_at(bytes@, p as int, n as nat, kv[j])),
    ));
    Some(out)
}


/// The version a table file was saved as.
pub open spec fn table_version(b: Seq<u8>) -> Option<Seq<char>> {
    if b.len() < 8 {
        None
    } else {
        match read_text(b, 8) {
            None => None,
            Some((v, _)) => Some(v),
        }
    }
}

/// The version the table file `bytes` was saved as (`table_version`).
pub fn file_version(bytes: &[u8]) -> (r: Option<String>)
    ensures
        match r {
            Some(v) => table_version(bytes@) == Some(v@),
            None => table_version(bytes@) is None,
        },
{
    if bytes.len() < 8 {
        return None;
    }
    match read_text_exec(bytes, 8) {
        Some((v, _)) => Some(v),
        None => None,
    }
}


/// The children `kids` with `child` added at the end unless it is there.
pub open spec fn with_kid(kids: Seq<Seq<char>>, child: Seq<char>) -> Seq<Seq<char>> {
    if kids.contains(child) {
        kids
    } else {
        kids.push(child)
    }
}

/// The rows with `child` added under `parent`: in the first row of `parent`,
/// or in a new last row where `parent` has none.
pub open spec fn add_kid(rows: Seq<(Seq<char>, Seq<Seq<char>>)>, parent: Seq<char>, child: Seq<char>) -> Seq<
    (Seq<char>, Seq<Seq<char>>),
>
    decreases rows.len(),
{
    if rows.len() == 0 {
        seq![(parent, seq![child])]
    } else if rows[0].0 == parent {
        seq![(parent, with_kid(rows[0].1, child))] + rows.drop_first()
    } else {
        seq![rows[0]] + add_kid(rows.drop_first(), parent, child)
    }
}

/// The parent of level `j` of `lv`: the blank code for the first level.
pub open spec fn level_parent(lv: Seq<Seq<char>>, j: int) -> Seq<char> {
    if j <= 0 {
        seq![]
    } else {
        lv[j - 1]
    }
}

/// The rows with each of the first `k` levels of `lv` added under the level
/// before it.
pub open spec fn add_tree_levels(rows: Seq<(Seq<char>, Seq<Seq<char>>)>, lv: Seq<Seq<char>>, k: int) -> Seq<
    (Seq<char>, Seq<Seq<char>>),
>
    decreases k,
{
    if k <= 0 {
        rows
    } else {
        add_kid(add_tree_levels(rows, lv, k - 1), level_parent(lv, k - 1), lv[k - 1])
    }
}

/// Adding under the first row of `parent` updates that row; adding under a
/// parent without a row appends one.
proof fn lemma_add_kid_at(rows: Seq<(Seq<char>, Seq<Seq<char>>)>, parent: Seq<char>, child: Seq<char>, i: int)
    requires
        0 <= i <= rows.len(),
        forall|j: int| 0 <= j < i ==> #[trigger] rows[j].0 != parent,
        i < rows.len() ==> rows[i].0 == parent,
    ensures
        i < rows.len() ==> add_kid(rows, parent, child) == rows.update(i, (parent, with_kid(rows[i].1, child))),
        i == rows.len() ==> add_kid(rows, parent, child) == rows.push((parent, seq![child])),
    decreases rows.len(),
{
    if rows.len() > 0 {
        if i == 0 {
            if i < rows.len() {
                assert(add_kid(rows, parent, child) =~= rows.update(i, (parent, with_kid(rows[i].1, child))));
            }
        } else {
            let d = rows.drop_first();
            assert forall|j: int| 0 <= j < i - 1 implies #[trigger] d[j].0 != parent by {
                assert(d[j] == rows[j + 1]);
            }
            if i < rows.len() {
                assert(d[i - 1] == rows[i]);
            }
            lemma_add_kid_at(d, parent, child, i - 1);
            assert(rows[0].0 != parent);
            if i < rows.len() {
                assert(add_kid(rows, parent, child) =~= rows.update(i, (parent, with_kid(rows[i].1, child))));
            } else {
                assert(add_kid(rows, parent, child) =~= rows.push((parent, seq![child])));
            }
        }
    } else {
        assert(add_kid(rows, parent, child) =~= rows.push((parent, seq![child])));
    }
}

/// The index of the first row of `parent`, or the number of rows where it has none.
fn find_parent(rows: &Vec<(String, Vec<String>)>, parent: &String) -> (r: usize)
    ensures
        r <= rows.len(),
        forall|j: int| 0 <= j < r ==> #[trigger] rows@[j].0@ != parent@,
        r < rows.len() ==> rows@[r as int].0@ == parent@,
{
    let mut i: usize = 0;
    while i < rows.len()
        invariant
            i <= rows.len(),
            forall|j: int| 0 <= j < i ==> #[trigger] rows@[j].0@ != parent@,
        decreases rows.len() - i,
    {
        if rows[i].0 == *parent {
            return i;
        }
        i = i + 1;
    }
    i
}

/// Whether `child` is among `kids`.
fn has_kid(kids: &Vec<String>, child: &String) -> (r: bool)
    ensures
        r == string_views(kids@).contains(child@),
{
    let mut j: usize = 0;
    while j < kids.len()
        invariant
            j <= kids.len(),
            forall|m: int| 0 <= m < j ==> #[trigger] string_views(kids@)[m] != child@,
        decreases kids.len() - j,
    {
        if kids[j] == *child {
            assert(string_views(kids@)[j as int] == child@);
            return true;
        }
        j = j + 1;
    }
    proof {
        let kv = string_views(kids@);
        if kv.contains(child@) {
            let m = choose|m: int| 0 <= m < kv.len() && kv[m] == child@;
        }
    }
    false
}

/// Adds `child` under `parent` (`add_kid`).
fn add_kid_exec(rows: &mut Vec<(String, Vec<String>)>, parent: String, child: String)
    ensures
        tree_rows_view(final(rows)@) == add_kid(tree_rows_view(old(rows)@), parent@, child@),
{
    let ghost rv = tree_rows_view(rows@);
    let i = find_parent(rows, &parent);
    proof {
        assert forall|j: int| 0 <= j < i implies #[trigger] rv[j].0 != parent@ by {
            assert(rv[j].0 == rows@[j].0@);
        }
        lemma_add_kid_at(rv, parent@, child@, i as int);
    }
    if i == rows.len() {
        let mut kids: Vec<String> = Vec::new();
        kids.push(child);
        rows.push((parent, kids));
        assert(string_views(kids@) =~= seq![child@]);
        assert(tree_rows_view(rows@) =~= rv.push((parent@, seq![child@])));
    } else {
        let ghost before = rows@;
        let (k, mut kids) = rows.remove(i);
        let ghost kv = string_views(kids@);
        assert(kv == rv[i as int].1);
        if !has_kid(&kids, &child) {
            kids.push(child);
            assert(string_views(kids@) =~= kv.push(child@));
        }
        rows.insert(i, (k, kids));
        assert(rows@ =~= before.update(i as int, rows@[i as int]));
        assert(tree_rows_view(rows@) =~= rv.update(i as int, (parent@, with_kid(rv[i as int].1, child@))));
    }
}

/// Adds the levels `code_data` of a code to a children table: each level
/// under the level before it, the first under the blank code.
pub fn add_code_levels(children: &mut Vec<(String, Vec<String>)>, code_data: Vec<&str>) -> (r: AreaResult<()>)
    ensures
        r is Ok,
        tree_rows_view(final(children)@) == add_tree_levels(
            tree_rows_view(old(children)@),
            strs_view(code_data@),
            code_data@.len() as int,
        ),
{
    let ghost start = tree_rows_view(children@);
    let ghost lv = strs_view(code_data@);
    let mut parent = String::new();
    let mut k: usize = 0;
    while k < code_data.len()
        invariant
            k <= code_data.len(),
            lv == strs_view(code_data@),
            parent@ == level_parent(lv, k as int),
            tree_rows_view(children@) == add_tree_levels(start, lv, k as int),
        decreases code_data.len() - k,
    {
        let code = String::from_str(code_data[k]);
        let p = parent;
        add_kid_exec(children, p, code.clone());
        parent = code;
        k = k + 1;
    }
    Ok(())
}


/// Adding `child` under `parent` lists it there and keeps every child
/// listed under any parent.
proof fn lemma_add_kid_lists(rows: Seq<(Seq<char>, Seq<Seq<char>>)>, parent: Seq<char>, child: Seq<char>, q: Seq<char>, c: Seq<char>)
    ensures
        first_children(add_kid(rows, parent, child), parent) matches Some(k) && k.contains(child),
        (first_children(rows, q) matches Some(k) && k.contains(c)) ==> (first_children(add_kid(rows, parent, child), q) matches Some(k2) && k2.contains(c)),
    decreases rows.len(),
{
    let r = add_kid(rows, parent, child);
    if rows.len() == 0 {
        assert(r[0] == (parent, seq![child]));
        assert(seq![child][0] == child);
    } else if rows[0].0 == parent {
        assert(r[0] == (parent, with_kid(rows[0].1, child)));
        assert(r.drop_first() =~= rows.drop_first());
        let w = with_kid(rows[0].1, child);
        if !rows[0].1.contains(child) {
            assert(w[w.len() - 1] == child);
        }
        if rows[0].1.contains(c) && !rows[0].1.contains(child) {
            let i = choose|i: int| 0 <= i < rows[0].1.len() && rows[0].1[i] == c;
            assert(w[i] == c);
        }
    } else {
        lemma_add_kid_lists(rows.drop_first(), parent, child, q, c);
        assert(r[0] == rows[0]);
        assert(r.drop_first() =~= add_kid(rows.drop_first(), parent, child));
    }
}

/// Adding levels keeps every child listed under any parent.
proof fn lemma_add_tree_levels_keeps(rows: Seq<(Seq<char>, Seq<Seq<char>>)>, lv: Seq<Seq<char>>, j: int, k: int, q: Seq<char>, c: Seq<char>)
    requires
        0 <= j <= k <= lv.len(),
        first_children(add_tree_levels(rows, lv, j), q) matches Some(kd) && kd.contains(c),
    ensures
        first_children(add_tree_levels(rows, lv, k), q) matches Some(kd) && kd.contains(c),
    decreases k - j,
{
    if j < k {
        lemma_add_tree_levels_keeps(rows, lv, j, k - 1, q, c);
        lemma_add_kid_lists(add_tree_levels(rows, lv, k - 1), level_parent(lv, k - 1), lv[k - 1], q, c);
    }
}

/// Whether an answer of a children table lists `c`.
pub open spec fn lists_child(r: Option<Seq<(Seq<char>, bool)>>, c: Seq<char>) -> bool {
    match r {
        Some(pairs) => exists|i: int| 0 <= i < pairs.len() && (#[trigger] pairs[i]).0 == c,
        None => false,
    }
}

/// After the levels of a code are added to a children table and it is
/// saved, the file lists each level among the children of the level before
/// it (of the blank code for the first level).
pub proof fn law_tree_file_lists_added_levels(
    rows: Seq<(Seq<char>, Seq<Seq<char>>)>,
    lv: Seq<Seq<char>>,
    version: Seq<char>,
    k: int,
)
    requires
        0 <= k < lv.len(),
        add_tree_levels(rows, lv, lv.len() as int).len() <= u64::MAX,
        version.len() <= u64::MAX,
        tree_rows_fit(add_tree_levels(rows, lv, lv.len() as int)),
    ensures
        lists_child(tree_lookup(tree_bytes(add_tree_levels(rows, lv, lv.len() as int), version), level_parent(lv, k)), lv[k]),
{
    let all = add_tree_levels(rows, lv, lv.len() as int);
    lemma_add_kid_lists(add_tree_levels(rows, lv, k), level_parent(lv, k), lv[k], level_parent(lv, k), lv[k]);
    assert(add_tree_levels(rows, lv, k + 1) == add_kid(add_tree_levels(rows, lv, k), level_parent(lv, k), lv[k]));
    lemma_add_tree_levels_keeps(rows, lv, k + 1, lv.len() as int, level_parent(lv, k), lv[k]);
    law_tree_file_read_after_write(all, version, level_parent(lv, k));
    let kids = first_children(all, level_parent(lv, k))->0;
    let i = choose|i: int| 0 <= i < kids.len() && kids[i] == lv[k];
    let pairs = Seq::new(kids.len(), |m: int| (kids[m], leaf_in(all, kids[m])));
    assert(tree_lookup(tree_bytes(all, version), level_parent(lv, k)) == Some(pairs));
    assert(0 <= i < pairs.len() && pairs[i].0 == lv[k]);
    assert(exists|j: int| 0 <= j < pairs.len() && (#[trigger] pairs[j]).0 == lv[k]);
    let sp: Option<Seq<(Seq<char>, bool)>> = Some(pairs);
    assert(sp->0 == pairs);
    assert(sp->0[i].0 == lv[k]);
    assert(lists_child(sp, lv[k]));
    assert(lists_child(tree_lookup(tree_bytes(all, version), level_parent(lv, k)), lv[k]));
}

} // verus!
