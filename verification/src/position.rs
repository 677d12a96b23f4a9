//! The mathematical model of a source position: which line and column the
//! end of a run of characters falls on, and which characters precede a byte
//! offset.

use vstd::prelude::*;
use vstd::utf8::*;
use crate::encoding::{
    char_utf8_width, lemma_boundary_is_prefix_end, lemma_encode_push, lemma_encode_single,
    lemma_prefix_end_is_boundary, lemma_scalar_bytes, lemma_utf8_len_split,
    lemma_utf8_len_take_succ, utf8_len,
};

verus! {

broadcast use vstd::utf8::group_utf8_lib;

/// Number of UTF-16 code units that encode `c`: two for the characters
/// outside the basic multilingual plane, one for the others.
pub open spec fn utf16_width(c: char) -> nat {
    if (c as u32) < 0x10000 {
        1
    } else {
        2
    }
}

/// Number of UTF-16 code units that encode `cs`.
pub open spec fn utf16_len(cs: Seq<char>) -> nat
    decreases cs.len(),
{
    if cs.len() == 0 {
        0
    } else {
        utf16_len(cs.drop_last()) + utf16_width(cs.last())
    }
}

/// Number of line feeds in `cs`.
pub open spec fn newline_count(cs: Seq<char>) -> nat
    decreases cs.len(),
{
    if cs.len() == 0 {
        0
    } else {
        newline_count(cs.drop_last()) + if cs.last() == '\n' {
            1nat
        } else {
            0nat
        }
    }
}

/// Index of the first character of the last line of `cs`: just after its
/// last line feed, or 0 where it has none.
pub open spec fn line_start_index(cs: Seq<char>) -> nat
    decreases cs.len(),
{
    if cs.len() == 0 {
        0
    } else if cs.last() == '\n' {
        cs.len()
    } else {
        line_start_index(cs.drop_last())
    }
}

/// The 1-based line on which the end of `cs` falls.
pub open spec fn end_line(cs: Seq<char>) -> nat {
    newline_count(cs) + 1
}

/// The 1-based column, in UTF-16 code units, on which the end of `cs` falls.
pub open spec fn end_column(cs: Seq<char>) -> nat {
    utf16_len(cs.skip(line_start_index(cs) as int)) + 1
}

/// Number of leading characters of `text` whose UTF-8 bytes all lie before
/// byte `offset`: the characters that precede the offset, where an offset
/// inside a character counts from that character's first byte and an offset
/// past the end counts from the end.
pub open spec fn chars_before(text: Seq<char>, offset: int) -> nat
    decreases text.len(),
{
    if text.len() > 0 && char_utf8_width(text[0]) <= offset {
        1 + chars_before(text.drop_first(), offset - char_utf8_width(text[0]))
    } else {
        0
    }
}

/// The (line, column) of byte `offset` in `text`: where the end of the
/// characters before the offset falls.
pub open spec fn position_of(text: Seq<char>, offset: int) -> (nat, nat) {
    let before = text.take(chars_before(text, offset) as int);
    (end_line(before), end_column(before))
}

/// Byte offsets at which the lines of `cs` start: 0, then the offset just
/// after each line feed, in order.
pub open spec fn line_starts_of(cs: Seq<char>) -> Seq<int>
    decreases cs.len(),
{
    if cs.len() == 0 {
        seq![0int]
    } else if cs.last() == '\n' {
        line_starts_of(cs.drop_last()).push(utf8_len(cs) as int)
    } else {
        line_starts_of(cs.drop_last())
    }
}

/// Byte offsets at which the lines of the bytes `b` start: 0, then the
/// offset just after each byte 10, in order.
pub open spec fn byte_line_starts(b: Seq<u8>) -> Seq<int>
    decreases b.len(),
{
    if b.len() == 0 {
        seq![0int]
    } else if b.last() == 10 {
        byte_line_starts(b.drop_last()).push(b.len() as int)
    } else {
        byte_line_starts(b.drop_last())
    }
}

/// The characters before `offset` are the longest prefix that fits before it.
pub proof fn lemma_chars_before(text: Seq<char>, offset: int)
    requires
        offset >= 0,
    ensures
        chars_before(text, offset) <= text.len(),
        utf8_len(text.take(chars_before(text, offset) as int)) <= offset,
        chars_before(text, offset) < text.len() ==> utf8_len(
            text.take(chars_before(text, offset) + 1int),
        ) > offset,
    decreases text.len(),
{
    let m = chars_before(text, offset);
    if text.len() > 0 && char_utf8_width(text[0]) <= offset {
        let rest = text.drop_first();
        let w = char_utf8_width(text[0]) as int;
        lemma_chars_before(rest, offset - w);
        lemma_utf8_len_take_succ(text, m - 1);
        if m < text.len() {
            lemma_utf8_len_take_succ(text, m as int);
        }
    } else {
        assert(text.take(0) =~= Seq::<char>::empty());
        if text.len() > 0 {
            lemma_utf8_len_take_succ(text, 0);
            assert(text.drop_first().take(0) =~= Seq::<char>::empty());
        }
    }
}

/// No byte strictly between the end of the characters before `offset` and
/// `offset` itself starts a character.
pub proof fn lemma_no_boundary_after_chars_before(text: Seq<char>, offset: int, q: int)
    requires
        offset >= 0,
        utf8_len(text.take(chars_before(text, offset) as int)) < q <= offset,
    ensures
        !is_char_boundary(encode_utf8(text), q),
{
    let m = chars_before(text, offset) as int;
    lemma_chars_before(text, offset);
    if is_char_boundary(encode_utf8(text), q) {
        let m2 = lemma_boundary_is_prefix_end(text, q);
        if m2 <= m {
            lemma_utf8_len_split(text, m2, m);
        } else {
            lemma_utf8_len_split(text, m + 1, m2);
        }
    }
}

/// The shape of the line starts of `cs`: one more than its line feeds,
/// starting at 0, strictly increasing, none past the end, and the last one
/// the start of the last line.
pub proof fn lemma_line_starts_shape(cs: Seq<char>)
    ensures
        line_starts_of(cs).len() == newline_count(cs) + 1,
        line_starts_of(cs)[0] == 0,
        line_starts_of(cs).last() == utf8_len(cs.take(line_start_index(cs) as int)),
        line_start_index(cs) <= cs.len(),
        forall|k: int|
            0 <= k < line_starts_of(cs).len() ==> 0 <= #[trigger] line_starts_of(cs)[k]
                <= utf8_len(cs),
        forall|i: int, j: int|
            0 <= i < j < line_starts_of(cs).len() ==> #[trigger] line_starts_of(cs)[i]
                < #[trigger] line_starts_of(cs)[j],
    decreases cs.len(),
{
    if cs.len() == 0 {
        assert(cs.take(0) =~= Seq::<char>::empty());
    } else {
        let init = cs.drop_last();
        lemma_line_starts_shape(init);
        lemma_encode_push(init, cs.last());
        assert(init.push(cs.last()) =~= cs);
        lemma_scalar_bytes(cs.last());
        if cs.last() == '\n' {
            assert(cs.take(cs.len() as int) =~= cs);
        } else {
            assert(cs.take(line_start_index(init) as int) =~= init.take(
                line_start_index(init) as int,
            ));
        }
    }
}

/// The line starts of a prefix are the first line starts of the whole, and
/// the line starts that follow lie at or past the end of the next character.
pub proof fn lemma_line_starts_prefix(t: Seq<char>, m: int, n: int)
    requires
        0 <= m <= n <= t.len(),
    ensures
        line_starts_of(t.take(m)).len() <= line_starts_of(t.take(n)).len(),
        forall|k: int|
            0 <= k < line_starts_of(t.take(m)).len() ==> #[trigger] line_starts_of(t.take(n))[k]
                == line_starts_of(t.take(m))[k],
        m < n ==> forall|k: int|
            line_starts_of(t.take(m)).len() <= k < line_starts_of(t.take(n)).len()
                ==> #[trigger] line_starts_of(t.take(n))[k] >= utf8_len(t.take(m + 1)),
    decreases n - m,
{
    if m < n {
        lemma_line_starts_prefix(t, m, n - 1);
        let tn = t.take(n);
        assert(tn.drop_last() =~= t.take(n - 1));
        if m + 1 <= n {
            lemma_utf8_len_split(t, m + 1, n);
        }
    }
}

/// Line starts computed over the bytes of an encoding are the line starts
/// of the characters.
pub proof fn lemma_byte_line_starts_encode(cs: Seq<char>)
    ensures
        byte_line_starts(encode_utf8(cs)) == line_starts_of(cs),
    decreases cs.len(),
{
    if cs.len() == 0 {
    } else {
        let init = cs.drop_last();
        let c = cs.last();
        lemma_byte_line_starts_encode(init);
        assert(init.push(c) =~= cs);
        lemma_encode_push(init, c);
        lemma_scalar_bytes(c);
        if c == '\n' {
            let b = encode_utf8(cs);
            assert(b.drop_last() =~= encode_utf8(init));
        } else {
            lemma_byte_line_starts_no_newline(encode_utf8(init), encode_scalar(c as u32));
        }
    }
}

/// Appending bytes none of which is 10 adds no line start.
pub proof fn lemma_byte_line_starts_no_newline(x: Seq<u8>, y: Seq<u8>)
    requires
        forall|i: int| 0 <= i < y.len() ==> #[trigger] y[i] != 10u8,
    ensures
        byte_line_starts(x + y) == byte_line_starts(x),
    decreases y.len(),
{
    if y.len() == 0 {
        assert(x + y =~= x);
    } else {
        assert((x + y).drop_last() =~= x + y.drop_last());
        assert((x + y).last() == y[y.len() - 1]);
        lemma_byte_line_starts_no_newline(x, y.drop_last());
    }
}

/// A character never takes more UTF-16 code units than UTF-8 bytes.
pub proof fn lemma_utf16_len_le_utf8_len(cs: Seq<char>)
    ensures
        utf16_len(cs) <= utf8_len(cs),
    decreases cs.len(),
{
    if cs.len() > 0 {
        let init = cs.drop_last();
        lemma_utf16_len_le_utf8_len(init);
        assert(init.push(cs.last()) =~= cs);
        lemma_encode_push(init, cs.last());
        lemma_scalar_bytes(cs.last());
    }
}

/// The characters before the first byte of the character at index `m` are
/// exactly the first `m` characters.
pub proof fn lemma_chars_before_prefix_end(text: Seq<char>, m: int)
    requires
        0 <= m <= text.len(),
    ensures
        chars_before(text, utf8_len(text.take(m)) as int) == m,
{
    let q = utf8_len(text.take(m)) as int;
    let m2 = chars_before(text, q) as int;
    lemma_chars_before(text, q);
    if m2 < m {
        lemma_utf8_len_split(text, m2 + 1, m);
    } else if m2 > m {
        lemma_utf8_len_split(text, m, m2);
    }
}

/// More bytes never leave fewer characters before the offset.
pub proof fn lemma_chars_before_monotone(text: Seq<char>, off1: int, off2: int)
    requires
        0 <= off1 <= off2,
    ensures
        chars_before(text, off1) <= chars_before(text, off2),
{
    let m1 = chars_before(text, off1) as int;
    let m2 = chars_before(text, off2) as int;
    lemma_chars_before(text, off1);
    lemma_chars_before(text, off2);
    if m1 > m2 {
        lemma_utf8_len_split(text, m2 + 1, m1);
    }
}

/// Law: positions are 1-based, and byte 0 is line 1, column 1.
pub proof fn law_start_of_file(text: Seq<char>)
    ensures
        position_of(text, 0) == (1nat, 1nat),
{
    let m = chars_before(text, 0);
    if text.len() > 0 {
        lemma_scalar_bytes(text[0]);
    }
    assert(m == 0);
    assert(text.take(0) =~= Seq::<char>::empty());
    assert(Seq::<char>::empty().skip(0) =~= Seq::<char>::empty());
}

/// Law: the position of the first byte of the character at index `m` is
/// where the first `m` characters end.
pub proof fn law_position_at_char_start(text: Seq<char>, m: int)
    requires
        0 <= m <= text.len(),
    ensures
        position_of(text, utf8_len(text.take(m)) as int) == (
            end_line(text.take(m)),
            end_column(text.take(m)),
        ),
{
    lemma_chars_before_prefix_end(text, m);
}

/// Law: every byte of a character has the position of its first byte.
pub proof fn law_position_inside_char(text: Seq<char>, m: int, q: int)
    requires
        0 <= m < text.len(),
        utf8_len(text.take(m)) <= q < utf8_len(text.take(m + 1)),
    ensures
        position_of(text, q) == position_of(text, utf8_len(text.take(m)) as int),
{
    lemma_chars_before_prefix_end(text, m);
    lemma_chars_before(text, q);
    let m2 = chars_before(text, q) as int;
    if m2 < m {
        lemma_utf8_len_split(text, m2 + 1, m);
    } else if m2 > m {
        lemma_utf8_len_split(text, m + 1, m2);
    }
}

/// Law: every offset at or past the end of the text has the position of
/// the end of the text.
pub proof fn law_position_past_end(text: Seq<char>, offset: int)
    requires
        offset >= utf8_len(text),
    ensures
        position_of(text, offset) == position_of(text, utf8_len(text) as int),
{
    lemma_chars_before(text, offset);
    let m = chars_before(text, offset) as int;
    assert(text.take(text.len() as int) =~= text);
    if m < text.len() {
        lemma_utf8_len_split(text, m + 1, text.len() as int);
    }
    lemma_chars_before_prefix_end(text, text.len() as int);
}

/// Line starts of the characters are ends of prefixes: the `k`-th one ends
/// the prefix of `k` line feeds that closes with a line feed (or is empty).
pub proof fn lemma_line_start_is_prefix_end(t: Seq<char>, k: int) -> (j: int)
    requires
        0 <= k < line_starts_of(t).len(),
    ensures
        0 <= j <= t.len(),
        line_starts_of(t)[k] == utf8_len(t.take(j)),
        newline_count(t.take(j)) == k,
        line_start_index(t.take(j)) == j,
    decreases t.len(),
{
    if t.len() == 0 {
        assert(t.take(0) =~= Seq::<char>::empty());
        0
    } else {
        let init = t.drop_last();
        lemma_line_starts_shape(init);
        if k < line_starts_of(init).len() {
            let j = lemma_line_start_is_prefix_end(init, k);
            assert(init.take(j) =~= t.take(j));
            j
        } else {
            assert(t.take(t.len() as int) =~= t);
            t.len() as int
        }
    }
}

/// Law: the `k`-th line start that `SourceFile::new` records lies on line
/// `k + 1`, column 1.
pub proof fn law_line_start_position(text: Seq<char>, k: int)
    requires
        0 <= k < byte_line_starts(encode_utf8(text)).len(),
    ensures
        position_of(text, byte_line_starts(encode_utf8(text))[k]) == ((k + 1) as nat, 1nat),
{
    lemma_byte_line_starts_encode(text);
    let j = lemma_line_start_is_prefix_end(text, k);
    lemma_chars_before_prefix_end(text, j);
    let p = text.take(j);
    assert(p.skip(j) =~= Seq::<char>::empty());
}

/// Along the text, the line count never falls, and within a line the
/// column never falls.
pub proof fn lemma_end_position_monotone(t: Seq<char>, m1: int, m2: int)
    requires
        0 <= m1 <= m2 <= t.len(),
    ensures
        newline_count(t.take(m1)) <= newline_count(t.take(m2)),
        newline_count(t.take(m1)) == newline_count(t.take(m2)) ==> end_column(t.take(m1))
            <= end_column(t.take(m2)),
        newline_count(t.take(m1)) == newline_count(t.take(m2)) ==> line_start_index(t.take(m1))
            == line_start_index(t.take(m2)),
    decreases m2 - m1,
{
    if m1 < m2 {
        lemma_end_position_monotone(t, m1, m2 - 1);
        let a = t.take(m2 - 1);
        let b = t.take(m2);
        assert(b.drop_last() =~= a);
        lemma_line_starts_shape(a);
        if b.last() != '\n' {
            let j = line_start_index(a) as int;
            assert(b.skip(j).drop_last() =~= a.skip(j));
        }
    }
}

/// Law: a larger offset is never at an earlier position: its line is not
/// smaller, and on the same line its column is not smaller.
pub proof fn law_position_monotone(text: Seq<char>, off1: int, off2: int)
    requires
        0 <= off1 <= off2,
    ensures
        position_of(text, off1).0 <= position_of(text, off2).0,
        position_of(text, off1).0 == position_of(text, off2).0 ==> position_of(text, off1).1
            <= position_of(text, off2).1,
{
    lemma_chars_before_monotone(text, off1, off2);
    lemma_chars_before(text, off2);
    lemma_end_position_monotone(
        text,
        chars_before(text, off1) as int,
        chars_before(text, off2) as int,
    );
}

/// Number of bytes 10 (line feeds) in `b`.
pub open spec fn newline_byte_count(b: Seq<u8>) -> nat
    decreases b.len(),
{
    if b.len() == 0 {
        0
    } else {
        newline_byte_count(b.drop_last()) + if b.last() == 10 {
            1nat
        } else {
            0nat
        }
    }
}

/// The line starts of any bytes: 0 first, one more entry than line feeds,
/// strictly increasing, none past the end, each just after a line feed
/// (but the first), and one just after every line feed.
pub proof fn lemma_byte_line_starts_shape(b: Seq<u8>)
    ensures
        byte_line_starts(b)[0] == 0,
        byte_line_starts(b).len() == newline_byte_count(b) + 1,
        forall|i: int, j: int|
            0 <= i < j < byte_line_starts(b).len() ==> #[trigger] byte_line_starts(b)[i]
                < #[trigger] byte_line_starts(b)[j],
        forall|k: int|
            0 <= k < byte_line_starts(b).len() ==> 0 <= #[trigger] byte_line_starts(b)[k]
                <= b.len(),
        forall|k: int|
            1 <= k < byte_line_starts(b).len() ==> b[#[trigger] byte_line_starts(b)[k] - 1]
                == 10,
        forall|i: int|
            0 <= i < b.len() && #[trigger] b[i] == 10 ==> byte_line_starts(b).contains(i + 1),
    decreases b.len(),
{
    if b.len() > 0 {
        let init = b.drop_last();
        lemma_byte_line_starts_shape(init);
        let ls = byte_line_starts(b);
        let li = byte_line_starts(init);
        assert forall|i: int| 0 <= i < b.len() && #[trigger] b[i] == 10 implies ls.contains(
            i + 1,
        ) by {
            if i < init.len() {
                assert(init[i] == 10);
                let k = choose|k: int| 0 <= k < li.len() && li[k] == i + 1;
                assert(ls[k] == i + 1);
            } else {
                assert(ls[ls.len() - 1] == i + 1);
            }
        }
        assert forall|k: int| 1 <= k < ls.len() implies b[#[trigger] ls[k] - 1] == 10 by {
            if k < li.len() {
                assert(ls[k] == li[k]);
                assert(init[li[k] - 1] == 10);
            }
        }
    }
}

/// Law: the line index that `SourceFile::new` builds over the bytes of the
/// content holds 0 and then the offset just after each line feed byte, in
/// increasing order: one more entry than line feeds, none past the end, and
/// each on a character boundary.
pub proof fn law_line_index_shape(cs: Seq<char>)
    ensures
        ({
            let b = encode_utf8(cs);
            let ls = byte_line_starts(b);
            &&& ls[0] == 0
            &&& ls.len() == newline_byte_count(b) + 1
            &&& forall|i: int, j: int| 0 <= i < j < ls.len() ==> #[trigger] ls[i] < #[trigger] ls[j]
            &&& forall|k: int| 0 <= k < ls.len() ==> 0 <= #[trigger] ls[k] <= b.len()
            &&& forall|k: int| 1 <= k < ls.len() ==> b[#[trigger] ls[k] - 1] == 10
            &&& forall|i: int| 0 <= i < b.len() && #[trigger] b[i] == 10 ==> ls.contains(i + 1)
            &&& forall|k: int| 0 <= k < ls.len() ==> is_char_boundary(b, #[trigger] ls[k])
        }),
{
    let b = encode_utf8(cs);
    let ls = byte_line_starts(b);
    lemma_byte_line_starts_shape(b);
    lemma_byte_line_starts_encode(cs);
    assert forall|k: int| 0 <= k < ls.len() implies is_char_boundary(b, #[trigger] ls[k]) by {
        let j = lemma_line_start_is_prefix_end(cs, k);
        lemma_prefix_end_is_boundary(cs, j);
    }
}

/// The bytes of the character at index `m` sit in the encoding of `text`
/// right after the bytes of the characters before it.
proof fn lemma_bytes_of_char(text: Seq<char>, m: int, k: int)
    requires
        0 <= m < text.len(),
        utf8_len(text.take(m)) <= k < utf8_len(text.take(m + 1)),
    ensures
        utf8_len(text.take(m + 1)) == utf8_len(text.take(m)) + char_utf8_width(text[m]),
        k < encode_utf8(text).len(),
        encode_utf8(text)[k] == encode_scalar(text[m] as u32)[k - utf8_len(text.take(m))],
{
    lemma_utf8_len_split(text, m, m + 1);
    lemma_utf8_len_split(text, m + 1, text.len() as int);
    assert(text.take(text.len() as int) =~= text);
    assert(text.subrange(m, m + 1) =~= seq![text[m]]);
    lemma_encode_single(text[m]);
}

/// Law: stepping from byte `offset - 1` to byte `offset` of the text adds
/// one line exactly when the byte stepped over is a line feed, and after a
/// line feed the column is 1.
pub proof fn law_line_step(text: Seq<char>, offset: int)
    requires
        0 < offset <= utf8_len(text),
    ensures
        position_of(text, offset).0 == position_of(text, offset - 1).0 + if encode_utf8(
            text,
        )[offset - 1] == 10 {
            1nat
        } else {
            0nat
        },
        encode_utf8(text)[offset - 1] == 10 ==> position_of(text, offset).1 == 1,
{
    let m = chars_before(text, offset - 1) as int;
    let m2 = chars_before(text, offset) as int;
    lemma_chars_before(text, offset - 1);
    lemma_chars_before(text, offset);
    lemma_chars_before_monotone(text, offset - 1, offset);
    assert(text.take(text.len() as int) =~= text);
    if m == text.len() {
        assert(false);
    }
    if m2 >= m + 2 {
        lemma_utf8_len_split(text, m + 1, m2);
        assert(false);
    }
    lemma_bytes_of_char(text, m, offset - 1);
    lemma_scalar_bytes(text[m]);
    let c = text[m];
    let a = text.take(m);
    let a1 = text.take(m + 1);
    assert(a1.drop_last() =~= a);
    if m2 == m {
        // `offset - 1` is not the last byte of character `m`, which
        // therefore takes two bytes or more and holds no line feed byte.
        assert(encode_utf8(text)[offset - 1] != 10);
    } else {
        if c == '\n' {
            assert(a1.skip(m + 1) =~= Seq::<char>::empty());
        }
    }
}

/// Law: a character takes one UTF-16 code unit, or two exactly when it
/// takes four UTF-8 bytes (the characters outside the basic plane).
pub proof fn law_utf16_width(c: char)
    ensures
        1 <= utf16_width(c) <= 2,
        (utf16_width(c) == 2) == (char_utf8_width(c) == 4),
{
    lemma_scalar_bytes(c);
}

/// Law: each character moves the position on: a line feed to column 1 of
/// the next line, any other character along its line by its number of
/// UTF-16 code units.
pub proof fn law_column_step(text: Seq<char>, m: int)
    requires
        0 <= m < text.len(),
    ensures
        ({
            let here = position_of(text, utf8_len(text.take(m)) as int);
            let next = position_of(text, utf8_len(text.take(m + 1)) as int);
            &&& text[m] == '\n' ==> next == (here.0 + 1, 1nat)
            &&& text[m] != '\n' ==> next == (here.0, here.1 + utf16_width(text[m]))
        }),
{
    lemma_chars_before_prefix_end(text, m);
    lemma_chars_before_prefix_end(text, m + 1);
    let a = text.take(m);
    let a1 = text.take(m + 1);
    assert(a1.drop_last() =~= a);
    lemma_line_starts_shape(a);
    if text[m] == '\n' {
        assert(a1.skip(m + 1) =~= Seq::<char>::empty());
    } else {
        let j = line_start_index(a) as int;
        assert(a1.skip(j).drop_last() =~= a.skip(j));
    }
}

} // verus!
