//! Line boundaries in a file's bytes.
use vstd::prelude::*;

verus! {

/// The line terminator.
pub const NEWLINE: u8 = 10;

/// A carriage return, dropped when it comes just before the terminator.
pub const CARRIAGE_RETURN: u8 = 13;

/// The index just past the first newline at or after `from`, or -1 when there is none.
pub open spec fn line_end_from(b: Seq<u8>, from: int) -> int
    decreases b.len() - from,
{
    if from < 0 || from >= b.len() {
        -1
    } else if b[from] == NEWLINE {
        from + 1
    } else {
        line_end_from(b, from + 1)
    }
}

/// The largest index below `end` that holds a newline, or -1 when there is none.
pub open spec fn newline_before(b: Seq<u8>, end: int) -> int
    decreases end,
{
    if end <= 0 {
        -1
    } else if b[end - 1] == NEWLINE {
        end - 1
    } else {
        newline_before(b, end - 1)
    }
}

/// Where the last complete line of `b` begins: just past the newline that precedes the
/// last newline, or 0 when `b` holds no newline (an empty file included).
pub open spec fn last_line_start(b: Seq<u8>) -> int {
    let last = newline_before(b, b.len() as int);
    if last < 0 {
        0
    } else {
        newline_before(b, last) + 1
    }
}

/// The offset just past the first `k` complete lines of `b`, or -1 when `b` holds fewer.
pub open spec fn lines_end(b: Seq<u8>, k: nat) -> int
    decreases k,
{
    if k == 0 {
        0
    } else {
        let prev = lines_end(b, (k - 1) as nat);
        if prev < 0 {
            -1
        } else {
            line_end_from(b, prev)
        }
    }
}

/// The text of a line without its terminator: a trailing carriage return is dropped.
pub open spec fn strip_carriage_return(s: Seq<u8>) -> Seq<u8> {
    if s.len() > 0 && s.last() == CARRIAGE_RETURN {
        s.drop_last()
    } else {
        s
    }
}

/// The first complete line of `tail`: how many bytes it spans, terminator included, and its
/// text; `None` when `tail` holds no newline (nothing, or an unterminated fragment).
pub open spec fn first_line(tail: Seq<u8>) -> Option<(Seq<u8>, int)> {
    let end = line_end_from(tail, 0);
    if end < 0 {
        None
    } else {
        Some((strip_carriage_return(tail.subrange(0, end - 1)), end))
    }
}

/// A line end found from `from` lies past `from` and within `b`.
pub proof fn lemma_line_end_bounds(b: Seq<u8>, from: int)
    ensures
        line_end_from(b, from) < 0 || (from < line_end_from(b, from) <= b.len()
            && b[line_end_from(b, from) - 1] == NEWLINE),
    decreases b.len() - from,
{
    if 0 <= from < b.len() && b[from] != NEWLINE {
        lemma_line_end_bounds(b, from + 1);
    }
}

/// Bytes appended after a complete line do not move where that line ends.
pub proof fn lemma_line_end_extends(b: Seq<u8>, appended: Seq<u8>, from: int)
    requires
        line_end_from(b, from) >= 0,
    ensures
        line_end_from(b + appended, from) == line_end_from(b, from),
    decreases b.len() - from,
{
    if b[from] != NEWLINE {
        lemma_line_end_extends(b, appended, from + 1);
    }
}

/// Looking for a line end in a tail of `b` finds the same place, counted from the tail's start.
pub proof fn lemma_line_end_shift(b: Seq<u8>, start: int, from: int)
    requires
        0 <= start <= b.len(),
        0 <= from,
    ensures
        line_end_from(b, start + from) == ({
            let t = line_end_from(b.subrange(start, b.len() as int), from);
            if t < 0 {
                -1
            } else {
                start + t
            }
        }),
    decreases b.len() - start - from,
{
    if start + from < b.len() && b[start + from] != NEWLINE {
        lemma_line_end_shift(b, start, from + 1);
    }
}

/// The end of the first `k` lines lies within `b`.
pub proof fn lemma_lines_end_bounds(b: Seq<u8>, k: nat)
    ensures
        lines_end(b, k) <= b.len(),
        k > 0 && lines_end(b, k) >= 0 ==> lines_end(b, (k - 1) as nat) >= 0,
    decreases k,
{
    if k > 0 {
        lemma_lines_end_bounds(b, (k - 1) as nat);
        lemma_line_end_bounds(b, lines_end(b, (k - 1) as nat));
    }
}

/// Bytes appended to a file do not move where its first `k` complete lines end.
pub proof fn lemma_lines_end_extends(b: Seq<u8>, appended: Seq<u8>, k: nat)
    requires
        lines_end(b, k) >= 0,
    ensures
        lines_end(b + appended, k) == lines_end(b, k),
    decreases k,
{
    if k > 0 {
        lemma_lines_end_bounds(b, k);
        lemma_lines_end_extends(b, appended, (k - 1) as nat);
        lemma_line_end_extends(b, appended, lines_end(b, (k - 1) as nat));
    }
}

/// Tailing a growing file delivers its lines in order, skipping none and repeating none,
/// however appends and reads interleave. When the offset sits where the first `k` complete
/// lines of the file end, appending bytes leaves those `k` lines ending there, and reading the
/// first line of the tail from that offset consumes exactly line `k + 1` when the file holds it
/// complete, carrying the offset to where `k + 1` lines end; otherwise it consumes nothing.
pub proof fn lemma_lines_in_order(content: Seq<u8>, appended: Seq<u8>, k: nat)
    requires
        lines_end(content, k) >= 0,
    ensures
        ({
            let grown = content + appended;
            let at = lines_end(content, k);
            &&& lines_end(grown, k) == at
            &&& 0 <= at <= grown.len()
            &&& match first_line(grown.subrange(at, grown.len() as int)) {
                Some((_, n)) => lines_end(grown, k + 1) == at + n,
                None => lines_end(grown, k + 1) < 0,
            }
        }),
{
    let grown = content + appended;
    let at = lines_end(content, k);
    lemma_lines_end_bounds(content, k);
    lemma_lines_end_extends(content, appended, k);
    lemma_line_end_shift(grown, at, 0);
    assert(lines_end(grown, k + 1) == line_end_from(grown, at));
}

/// The index at which the last complete line of `bytes` begins.
fn last_line_index(bytes: &[u8]) -> (r: usize)
    ensures
        r == last_line_start(bytes@),
        r <= bytes@.len(),
{
    let ghost b = bytes@;
    let mut i: usize = bytes.len();
    while i > 0 && bytes[i - 1] != NEWLINE
        invariant
            b == bytes@,
            i <= b.len(),
            newline_before(b, b.len() as int) == newline_before(b, i as int),
        decreases i,
    {
        i = i - 1;
    }
    if i == 0 {
        return 0;
    }
    let last: usize = i - 1;
    let mut j: usize = last;
    while j > 0 && bytes[j - 1] != NEWLINE
        invariant
            b == bytes@,
            j <= last < b.len(),
            newline_before(b, b.len() as int) == last,
            newline_before(b, last as int) == newline_before(b, j as int),
        decreases j,
    {
        j = j - 1;
    }
    j
}

/// Where tailing begins in a file whose bytes are `bytes`: the start of its last complete
/// line, so that the first read delivers that line; 0 when it has no complete line.
pub fn find_last_line(bytes: &[u8]) -> (r: u64)
    requires
        bytes@.len() <= u64::MAX,
    ensures
        r == last_line_start(bytes@),
        r <= bytes@.len(),
{
    last_line_index(bytes) as u64
}

/// Reads the first complete line of `bytes` from index `from` on: its text without terminator
/// or trailing carriage return, and the number of bytes it spans, terminator included. `None`
/// when no newline follows `from` (nothing, or only an unterminated fragment).
pub fn take_line(bytes: &[u8], from: usize) -> (r: Option<(Vec<u8>, usize)>)
    requires
        from <= bytes@.len(),
    ensures
        match r {
            None => first_line(bytes@.subrange(from as int, bytes@.len() as int)) is None,
            Some((text, n)) => first_line(bytes@.subrange(from as int, bytes@.len() as int))
                == Some((text@, n as int)) && from + n <= bytes@.len(),
        },
{
    let ghost b = bytes@;
    let ghost tail = b.subrange(from as int, b.len() as int);
    let mut i: usize = from;
    while i < bytes.len() && bytes[i] != NEWLINE
        invariant
            b == bytes@,
            from <= i <= b.len(),
            line_end_from(b, from as int) == line_end_from(b, i as int),
        decreases b.len() - i,
    {
        i = i + 1;
    }
    proof {
        lemma_line_end_shift(b, from as int, 0);
    }
    if i == bytes.len() {
        return None;
    }
    let mut end: usize = i;
    if end > from && bytes[end - 1] == CARRIAGE_RETURN {
        end = end - 1;
    }
    let mut text: Vec<u8> = Vec::new();
    let mut k: usize = from;
    while k < end
        invariant
            b == bytes@,
            from <= k <= end,
            end <= i < b.len(),
            text@ == b.subrange(from as int, k as int),
        decreases end - k,
    {
        text.push(bytes[k]);
        k = k + 1;
        assert(text@ =~= b.subrange(from as int, k as int));
    }
    assert(tail.subrange(0, i - from) =~= b.subrange(from as int, i as int));
    assert(text@ =~= strip_carriage_return(tail.subrange(0, i - from)));
    Some((text, i + 1 - from))
}

} // verus!
