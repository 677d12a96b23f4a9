//! A source file with an index of where its lines start, and the lookup of
//! the position that editors show for a byte offset.

use vstd::prelude::*;
use vstd::string::StringSliceAdditionalSpecFns;
use vstd::utf8::*;
use crate::encoding::{lemma_prefix_end_is_boundary, lemma_utf8_len_split, utf8_len};
use crate::position::{
    byte_line_starts, chars_before, lemma_byte_line_starts_encode, lemma_chars_before,
    lemma_line_starts_prefix, lemma_line_starts_shape, lemma_no_boundary_after_chars_before,
    lemma_utf16_len_le_utf8_len, line_start_index, line_starts_of, newline_count, position_of,
    utf16_len, utf16_width,
};
use crate::search::binary_search;

verus! {

broadcast use vstd::utf8::group_utf8_lib;

/// A single source file and the byte offsets at which its lines start.
pub struct SourceFile {
    content: String,
    line_starts: Vec<usize>,
}

impl View for SourceFile {
    type V = Seq<char>;

    /// The characters of the file.
    closed spec fn view(&self) -> Seq<char> {
        self.content@
    }
}

/// Number of UTF-16 code units that encode `c`.
fn char_utf16_len(c: char) -> (n: usize)
    ensures
        n == utf16_width(c),
{
    if (c as u32) < 0x10000 {
        1
    } else {
        2
    }
}

impl SourceFile {
    /// The line index holds exactly the line starts of the content, and the
    /// content fits in an allocation.
    #[verifier::type_invariant]
    spec fn well_formed(self) -> bool {
        &&& utf8_len(self.content@) < usize::MAX
        &&& self.line_starts@.len() == line_starts_of(self.content@).len()
        &&& forall|k: int|
            0 <= k < self.line_starts@.len() ==> self.line_starts@[k] as int == #[trigger] line_starts_of(
                self.content@,
            )[k]
    }

    /// The byte offsets at which the lines of the file start, in order.
    pub closed spec fn line_index(&self) -> Seq<int> {
        self.line_starts@.map_values(|s: usize| s as int)
    }

    /// Creates a new `SourceFile` and builds the line index: 0, then the
    /// offset just after each line feed byte of the content.
    ///
    /// A `String` never holds `usize::MAX` bytes (it holds at most
    /// `isize::MAX`); the `requires` states that limit.
    pub fn new(content: String) -> (file: SourceFile)
        requires
            utf8_len(content@) < usize::MAX,
        ensures
            file@ == content@,
            file.line_index() == byte_line_starts(encode_utf8(content@)),
    {
        let mut line_starts: Vec<usize> = vec![0];
        let bytes = content.as_str().as_bytes();
        let n = bytes.len();
        let mut i: usize = 0;
        while i < n
            invariant
                n == bytes@.len(),
                bytes@ == encode_utf8(content@),
                i <= n,
                line_starts@.len() == byte_line_starts(bytes@.take(i as int)).len(),
                forall|k: int|
                    0 <= k < line_starts@.len() ==> line_starts@[k] as int
                        == #[trigger] byte_line_starts(bytes@.take(i as int))[k],
            decreases n - i,
        {
            proof {
                assert(bytes@.take(i + 1).drop_last() =~= bytes@.take(i as int));
            }
            if bytes[i] == 10u8 {
                line_starts.push(i + 1);
            }
            i += 1;
        }
        proof {
            assert(bytes@.take(n as int) =~= bytes@);
            lemma_byte_line_starts_encode(content@);
        }
        let file = SourceFile { content, line_starts };
        assert(file.line_index() =~= byte_line_starts(encode_utf8(file.content@)));
        file
    }

    /// Returns the content of the source file, byte for byte.
    pub fn src(&self) -> (s: &str)
        ensures
            s@ == self@,
            s.spec_bytes() == encode_utf8(self@),
    {
        self.content.as_str()
    }

    /// Returns the position `(line, column)` of the byte `byte_offset` as IDEs
    /// show it. Both are 1-based; the column counts UTF-16 code units. An
    /// offset inside a character stands for that character's first byte,
    /// and an offset past the end for the end.
    pub fn lookup_pos(&self, byte_offset: usize) -> (pos: (usize, usize))
        ensures
            pos.0 >= 1,
            pos.1 >= 1,
            pos.0 == position_of(self@, byte_offset as int).0,
            pos.1 == position_of(self@, byte_offset as int).1,
    {
        proof {
            use_type_invariant(self);
        }
        let ghost t = self@;
        let ghost off = byte_offset as int;
        let ghost m = chars_before(t, off) as int;
        let ghost before = t.take(m);
        let ghost p = utf8_len(before) as int;
        let ghost k0 = newline_count(before) as int;
        proof {
            lemma_chars_before(t, off);
            lemma_line_starts_shape(t);
            lemma_line_starts_shape(before);
            lemma_line_starts_prefix(t, m, t.len() as int);
            assert(t.take(t.len() as int) =~= t);
            assert(self.line_starts@[0] as int == line_starts_of(t)[0]);
            assert forall|i: int, j: int|
                0 <= i <= j < self.line_starts@.len() implies self.line_starts@[i]
                <= self.line_starts@[j] by {
                assert(line_starts_of(t)[i] == self.line_starts@[i] as int);
                assert(line_starts_of(t)[j] == self.line_starts@[j] as int);
            }
        }
        let line_idx = match binary_search(&self.line_starts, byte_offset) {
            Ok(idx) => idx,
            Err(idx) => idx - 1,
        };
        proof {
            // `line_idx` is the last line that starts at or before the offset.
            let ls = line_starts_of(t);
            assert(ls[line_idx as int] == self.line_starts@[line_idx as int] as int);
            assert(ls[line_idx as int] <= off);
            if line_idx + 1 < ls.len() {
                assert(ls[line_idx + 1] == self.line_starts@[line_idx + 1] as int);
                assert(ls[line_idx + 1] > off);
            }
            assert(ls[k0] == line_starts_of(before)[k0]);
            if m == t.len() {
                assert(before =~= t);
            }
            if k0 + 1 < ls.len() {
                assert(ls[k0 + 1] >= utf8_len(t.take(m + 1)));
            }
            if line_idx < k0 {
                assert(ls[line_idx + 1] <= ls[k0]);
            } else if line_idx > k0 {
                assert(ls[k0 + 1] <= ls[line_idx as int]);
            }
            assert(line_idx == k0);
        }
        let line_start = self.line_starts[line_idx];
        let line_number = line_idx + 1;

        let text = self.content.as_str();
        let mut offset = byte_offset;
        proof {
            lemma_prefix_end_is_boundary(t, m);
        }
        while !text.is_char_boundary(offset)
            invariant
                text@ == t,
                p <= offset <= off,
                is_char_boundary(encode_utf8(t), p),
            decreases offset,
        {
            offset = offset - 1;
        }
        proof {
            if offset != p {
                lemma_no_boundary_after_chars_before(t, off, offset as int);
            }
            assert(offset == p);
            lemma_utf8_len_split(t, m, t.len() as int);
        }
        let (head, _) = text.split_at(offset);
        let ghost j = line_start_index(before) as int;
        proof {
            assert(encode_utf8(head@) == encode_utf8(before));
            assert(head@ == before) by {
                assert(decode_utf8(encode_utf8(head@)) == head@);
                assert(decode_utf8(encode_utf8(before)) == before);
            }
            lemma_prefix_end_is_boundary(before, j);
            lemma_utf8_len_split(before, j, before.len() as int);
            assert(before.take(before.len() as int) =~= before);
        }
        let (_, line) = head.split_at(line_start);
        proof {
            assert(encode_utf8(line@) == encode_utf8(before.subrange(j, before.len() as int)));
            assert(line@ == before.skip(j)) by {
                assert(decode_utf8(encode_utf8(line@)) == line@);
                assert(decode_utf8(encode_utf8(before.skip(j))) == before.skip(j));
                assert(before.skip(j) =~= before.subrange(j, before.len() as int));
            }
            lemma_utf16_len_le_utf8_len(line@);
        }
        let ghost chars = line@;
        let mut units: usize = 0;
        for c in it: line.chars()
            invariant
                chars == line@,
                it.seq() == chars,
                units == utf16_len(chars.take(it.index())),
                utf8_len(chars) < usize::MAX,
        {
            proof {
                let i = it.index();
                assert(chars.take(i + 1).drop_last() =~= chars.take(i));
                lemma_utf16_len_le_utf8_len(chars.take(i + 1));
                lemma_utf8_len_split(chars, i + 1, chars.len() as int);
                assert(chars.take(chars.len() as int) =~= chars);
            }
            units = units + char_utf16_len(c);
        }
        proof {
            assert(chars.take(chars.len() as int) =~= chars);
            lemma_utf16_len_le_utf8_len(chars);
        }
        (line_number, units + 1)
    }
}

} // verus!
