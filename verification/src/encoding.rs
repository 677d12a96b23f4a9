//! Facts about the UTF-8 encoding of character sequences, over vstd's
//! `encode_utf8`.

use vstd::prelude::*;
use vstd::utf8::*;

verus! {

broadcast use vstd::utf8::group_utf8_lib;

/// Number of bytes that the UTF-8 encoding of `cs` occupies.
pub open spec fn utf8_len(cs: Seq<char>) -> nat {
    encode_utf8(cs).len()
}

/// Number of bytes that the UTF-8 encoding of `c` occupies.
pub open spec fn char_utf8_width(c: char) -> nat {
    encode_scalar(c as u32).len()
}

/// Encoding distributes over concatenation.
pub proof fn lemma_encode_concat(a: Seq<char>, b: Seq<char>)
    ensures
        encode_utf8(a + b) == encode_utf8(a) + encode_utf8(b),
    decreases a.len(),
{
    if a.len() == 0 {
        assert(a + b =~= b);
        assert(encode_utf8(a) + encode_utf8(b) =~= encode_utf8(b));
    } else {
        assert((a + b).drop_first() =~= a.drop_first() + b);
        assert((a + b)[0] == a[0]);
        lemma_encode_concat(a.drop_first(), b);
        assert(encode_utf8(a) + encode_utf8(b) =~= encode_scalar(a[0] as u32) + (encode_utf8(
            a.drop_first(),
        ) + encode_utf8(b)));
    }
}

/// The encoding of a single character is the encoding of its scalar value.
pub proof fn lemma_encode_single(c: char)
    ensures
        encode_utf8(seq![c]) == encode_scalar(c as u32),
{
    assert(seq![c].drop_first() =~= Seq::<char>::empty());
    assert(encode_scalar(c as u32) + encode_utf8(Seq::<char>::empty()) =~= encode_scalar(
        c as u32,
    ));
}

/// Appending one character appends its encoding.
pub proof fn lemma_encode_push(cs: Seq<char>, c: char)
    ensures
        encode_utf8(cs.push(c)) == encode_utf8(cs) + encode_scalar(c as u32),
        utf8_len(cs.push(c)) == utf8_len(cs) + char_utf8_width(c),
{
    assert(cs.push(c) =~= cs + seq![c]);
    lemma_encode_concat(cs, seq![c]);
    lemma_encode_single(c);
}

/// What the bytes of one character's encoding look like: between one and
/// four of them, a single byte 10 for a line feed and no byte 10 otherwise,
/// and four bytes exactly for the characters outside the basic plane.
pub proof fn lemma_scalar_bytes(c: char)
    ensures
        1 <= char_utf8_width(c) <= 4,
        c == '\n' ==> encode_scalar(c as u32) == seq![10u8],
        c != '\n' ==> forall|i: int|
            0 <= i < char_utf8_width(c) ==> #[trigger] encode_scalar(c as u32)[i] != 10u8,
        (char_utf8_width(c) == 4) == ((c as u32) >= 0x10000),
{
    let s = c as u32;
    char_is_scalar(c);
    if has_width_1_encoding(s) {
        assert(leading_byte_width_1(s) == s as u8) by (bit_vector)
            requires
                s <= 0x7f,
        ;
        if c != '\n' {
            assert(s != 10);
        }
    } else if has_width_2_encoding(s) {
        assert(leading_byte_width_2(s) >= 0xc0) by (bit_vector);
        assert(last_continuation_byte(s) >= 0x80) by (bit_vector);
    } else if has_width_3_encoding(s) {
        assert(leading_byte_width_3(s) >= 0xe0) by (bit_vector);
        assert(second_last_continuation_byte(s) >= 0x80) by (bit_vector);
        assert(last_continuation_byte(s) >= 0x80) by (bit_vector);
    } else {
        assert(leading_byte_width_4(s) >= 0xf0) by (bit_vector);
        assert(third_last_continuation_byte(s) >= 0x80) by (bit_vector);
        assert(second_last_continuation_byte(s) >= 0x80) by (bit_vector);
        assert(last_continuation_byte(s) >= 0x80) by (bit_vector);
    }
}

/// The bytes of a prefix followed by the bytes of the rest make up the
/// bytes of the whole.
pub proof fn lemma_utf8_len_split(cs: Seq<char>, i: int, j: int)
    requires
        0 <= i <= j <= cs.len(),
    ensures
        encode_utf8(cs.take(j)) == encode_utf8(cs.take(i)) + encode_utf8(cs.subrange(i, j)),
        utf8_len(cs.take(j)) == utf8_len(cs.take(i)) + utf8_len(cs.subrange(i, j)),
        utf8_len(cs.take(j)) >= utf8_len(cs.take(i)) + (j - i),
{
    assert(cs.take(j) =~= cs.take(i) + cs.subrange(i, j));
    lemma_encode_concat(cs.take(i), cs.subrange(i, j));
    lemma_utf8_len_at_least_len(cs.subrange(i, j));
}

/// Every character takes at least one byte.
pub proof fn lemma_utf8_len_at_least_len(cs: Seq<char>)
    ensures
        utf8_len(cs) >= cs.len(),
    decreases cs.len(),
{
    if cs.len() > 0 {
        lemma_utf8_len_at_least_len(cs.drop_first());
        lemma_scalar_bytes(cs[0]);
    }
}

/// The encoding of a sequence starts with the encoding of its first
/// character, which vstd's decoder reads back as one scalar.
pub proof fn lemma_first_scalar(t: Seq<char>)
    requires
        t.len() > 0,
    ensures
        length_of_first_scalar(encode_utf8(t)) == char_utf8_width(t[0]),
        pop_first_scalar(encode_utf8(t)) == encode_utf8(t.drop_first()),
        valid_utf8(encode_utf8(t)),
{
    encode_utf8_first_scalar(t);
    let b = encode_utf8(t);
    let w = char_utf8_width(t[0]) as int;
    assert(b =~= encode_scalar(t[0] as u32) + encode_utf8(t.drop_first()));
    assert(b.subrange(w, b.len() as int) =~= encode_utf8(t.drop_first()));
}

/// The number of bytes of the first `k + 1` characters.
pub proof fn lemma_utf8_len_take_succ(t: Seq<char>, k: int)
    requires
        0 <= k < t.len(),
    ensures
        utf8_len(t.take(k + 1)) == char_utf8_width(t[0]) + utf8_len(t.drop_first().take(k)),
{
    let p = t.take(k + 1);
    assert(p.drop_first() =~= t.drop_first().take(k));
    assert(p[0] == t[0]);
}

/// The end of every prefix of characters is a character boundary of the
/// encoding.
pub proof fn lemma_prefix_end_is_boundary(t: Seq<char>, m: int)
    requires
        0 <= m <= t.len(),
    ensures
        is_char_boundary(encode_utf8(t), utf8_len(t.take(m)) as int),
    decreases t.len(),
{
    if m == 0 {
        assert(t.take(0) =~= Seq::<char>::empty());
    } else {
        let rest = t.drop_first();
        lemma_first_scalar(t);
        lemma_utf8_len_take_succ(t, m - 1);
        lemma_prefix_end_is_boundary(rest, m - 1);
        lemma_utf8_len_split(t, m, t.len() as int);
        assert(t.take(t.len() as int) =~= t);
        lemma_scalar_bytes(t[0]);
    }
}

/// Every character boundary of the encoding is the end of some prefix of
/// characters.
pub proof fn lemma_boundary_is_prefix_end(t: Seq<char>, q: int) -> (m: int)
    requires
        is_char_boundary(encode_utf8(t), q),
    ensures
        0 <= m <= t.len(),
        utf8_len(t.take(m)) == q,
    decreases t.len(),
{
    encode_utf8_valid_utf8(t);
    if q == 0 {
        assert(t.take(0) =~= Seq::<char>::empty());
        0
    } else {
        let rest = t.drop_first();
        if t.len() == 0 {
            assert(false);
        }
        lemma_first_scalar(t);
        let w = char_utf8_width(t[0]) as int;
        assert(is_char_boundary(encode_utf8(rest), q - w));
        let m1 = lemma_boundary_is_prefix_end(rest, q - w);
        lemma_utf8_len_take_succ(t, m1);
        m1 + 1
    }
}

} // verus!
