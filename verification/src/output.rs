//! Comparing the output of a compiled test program with the reference
//! output, where lines that report timings may differ.

use vstd::prelude::*;

verus! {

/// The pieces of `s` between line feeds, in order; the last one is what
/// follows the last line feed, possibly empty.
pub open spec fn newline_pieces(s: Seq<char>) -> Seq<Seq<char>>
    decreases s.len(),
{
    if s.len() == 0 {
        seq![Seq::<char>::empty()]
    } else {
        let p = newline_pieces(s.drop_last());
        if s.last() == '\n' {
            p.push(Seq::<char>::empty())
        } else {
            p.update(p.len() - 1, p.last().push(s.last()))
        }
    }
}

/// `l` without one carriage return at its end.
pub open spec fn strip_cr(l: Seq<char>) -> Seq<char> {
    if l.len() > 0 && l.last() == '\r' {
        l.drop_last()
    } else {
        l
    }
}

/// The lines of `s` as `str::lines` yields them: split at each `\n` or
/// `\r\n`, without the terminators, and with no empty line after a final
/// line ending.
pub open spec fn lines_of(s: Seq<char>) -> Seq<Seq<char>> {
    let p = newline_pieces(s);
    let ended = p.drop_last().map_values(|l: Seq<char>| strip_cr(l));
    if p.last().len() == 0 {
        ended
    } else {
        ended.push(p.last())
    }
}

/// The marker with which a test program starts a line that reports a timing.
pub open spec fn timer_marker() -> Seq<char> {
    seq!['T', 'i', 'm', 'e', 'r', '@']
}

/// A line that starts with the timing marker.
pub open spec fn is_timer_line(l: Seq<char>) -> bool {
    l.len() >= 6 && l.take(6) == timer_marker()
}

/// `lines` without the timing lines, in order.
pub open spec fn without_timer_lines(lines: Seq<Seq<char>>) -> Seq<Seq<char>>
    decreases lines.len(),
{
    if lines.len() == 0 {
        Seq::<Seq<char>>::empty()
    } else if is_timer_line(lines.last()) {
        without_timer_lines(lines.drop_last())
    } else {
        without_timer_lines(lines.drop_last()).push(lines.last())
    }
}

/// The characters of each string in `v`.
pub open spec fn str_views(v: Seq<&str>) -> Seq<Seq<char>> {
    v.map_values(|l: &str| l@)
}

/// Whether `line` starts with the timing marker.
fn starts_with_timer_marker(line: &str) -> (b: bool)
    ensures
        b == is_timer_line(line@),
{
    let n = line.unicode_len();
    if n < 6 {
        return false;
    }
    let b = line.get_char(0) == 'T' && line.get_char(1) == 'i' && line.get_char(2) == 'm'
        && line.get_char(3) == 'e' && line.get_char(4) == 'r' && line.get_char(5) == '@';
    proof {
        if b {
            assert(line@.take(6) =~= timer_marker());
        } else if is_timer_line(line@) {
            assert(line@.take(6)[0] == line@[0]);
            assert(line@.take(6)[1] == line@[1]);
            assert(line@.take(6)[2] == line@[2]);
            assert(line@.take(6)[3] == line@[3]);
            assert(line@.take(6)[4] == line@[4]);
            assert(line@.take(6)[5] == line@[5]);
        }
    }
    b
}

/// The lines of `output`, without those that start with `Timer@`.
pub fn filter_timer_lines(output: &str) -> (kept: Vec<&str>)
    ensures
        str_views(kept@) == without_timer_lines(lines_of(output@)),
{
    let ghost s = output@;
    let n = output.unicode_len();
    let mut kept: Vec<&str> = Vec::new();
    let mut start: usize = 0;
    let mut idx: usize = 0;
    let mut prev_cr = false;
    for c in it: output.chars()
        invariant
            it.seq() == s,
            s == output@,
            n == s.len(),
            idx == it.index(),
            start <= idx <= n,
            prev_cr == (idx > 0 && s[idx - 1] == '\r'),
            newline_pieces(s.take(idx as int)).len() > 0,
            newline_pieces(s.take(idx as int)).last() == s.subrange(start as int, idx as int),
            str_views(kept@) == without_timer_lines(
                newline_pieces(s.take(idx as int)).drop_last().map_values(
                    |l: Seq<char>| strip_cr(l),
                ),
            ),
    {
        let ghost old_pieces = newline_pieces(s.take(idx as int));
        let ghost old_kept = kept@;
        proof {
            assert(s.take(idx + 1).drop_last() =~= s.take(idx as int));
            assert(s.take(idx + 1).last() == c);
        }
        if c == '\n' {
            let end = if prev_cr && idx > start {
                idx - 1
            } else {
                idx
            };
            let line = output.substring_char(start, end);
            let ghost piece = s.subrange(start as int, idx as int);
            proof {
                assert(line@ == strip_cr(piece)) by {
                    if prev_cr && idx > start {
                        assert(piece.drop_last() =~= s.subrange(start as int, end as int));
                    }
                }
                let ended = old_pieces.drop_last().map_values(|l: Seq<char>| strip_cr(l));
                let new_pieces = newline_pieces(s.take(idx + 1));
                assert(new_pieces.drop_last().map_values(|l: Seq<char>| strip_cr(l))
                    =~= ended.push(strip_cr(piece))) by {
                    assert(new_pieces.drop_last() =~= old_pieces);
                    assert(old_pieces =~= old_pieces.drop_last().push(piece));
                }
                assert(ended.push(strip_cr(piece)).drop_last() =~= ended);
            }
            if !starts_with_timer_marker(line) {
                kept.push(line);
                proof {
                    assert(str_views(kept@) =~= str_views(old_kept).push(line@));
                }
            }
            start = idx + 1;
            proof {
                assert(s.subrange(start as int, idx + 1) =~= Seq::<char>::empty());
            }
        } else {
            proof {
                let new_pieces = newline_pieces(s.take(idx + 1));
                assert(new_pieces.drop_last() =~= old_pieces.drop_last());
                assert(new_pieces.last() =~= s.subrange(start as int, idx + 1));
            }
        }
        prev_cr = c == '\r';
        idx = idx + 1;
    }
    proof {
        assert(s.take(n as int) =~= s);
    }
    if start < idx {
        let line = output.substring_char(start, idx);
        let ghost ended = newline_pieces(s).drop_last().map_values(|l: Seq<char>| strip_cr(l));
        proof {
            assert(ended.push(line@).drop_last() =~= ended);
        }
        if !starts_with_timer_marker(line) {
            let ghost old_kept = kept@;
            kept.push(line);
            proof {
                assert(str_views(kept@) =~= str_views(old_kept).push(line@));
            }
        }
    }
    kept
}

/// Law: no line that the filter keeps is a timing line.
pub proof fn law_no_timer_line_kept(lines: Seq<Seq<char>>)
    ensures
        forall|i: int|
            0 <= i < without_timer_lines(lines).len() ==> !is_timer_line(
                #[trigger] without_timer_lines(lines)[i],
            ),
    decreases lines.len(),
{
    if lines.len() > 0 {
        let init = lines.drop_last();
        law_no_timer_line_kept(init);
        let w = without_timer_lines(lines);
        assert forall|i: int| 0 <= i < w.len() implies !is_timer_line(#[trigger] w[i]) by {
            if i < without_timer_lines(init).len() {
                assert(w[i] == without_timer_lines(init)[i]);
            }
        }
    }
}

/// Law: lines without any timing line pass the filter unchanged.
pub proof fn law_filter_keeps_other_lines(lines: Seq<Seq<char>>)
    requires
        forall|i: int| 0 <= i < lines.len() ==> !is_timer_line(#[trigger] lines[i]),
    ensures
        without_timer_lines(lines) == lines,
    decreases lines.len(),
{
    if lines.len() > 0 {
        law_filter_keeps_other_lines(lines.drop_last());
        assert(lines.drop_last().push(lines.last()) =~= lines);
    }
}

} // verus!
