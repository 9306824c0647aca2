//! Locating the first complete line at or after a byte offset.

use vstd::prelude::*;

verus! {

/// The line terminator. No other byte ends a line.
pub const NEWLINE: u8 = 0x0a;

/// Index of the first newline of `data` at or after `from`, and `data.len()`
/// where there is none.
pub open spec fn newline_from(data: Seq<u8>, from: int) -> int
    decreases data.len() - from,
{
    if from >= data.len() {
        data.len() as int
    } else if from >= 0 && data[from] == NEWLINE {
        from
    } else {
        newline_from(data, from + 1)
    }
}

/// What `find_newline` returns: the first newline at or after `from`.
pub open spec fn first_newline(data: Seq<u8>, from: usize) -> Option<usize> {
    let at = newline_from(data, from as int);
    if at < data.len() {
        Some(at as usize)
    } else {
        None
    }
}

/// `at` is the least index from `from` on that holds a newline.
pub proof fn lemma_newline_from_found(data: Seq<u8>, from: int, at: int)
    requires
        0 <= from <= at < data.len(),
        data[at] == NEWLINE,
        forall|j: int| from <= j < at ==> data[j] != NEWLINE,
    ensures
        newline_from(data, from) == at,
    decreases at - from,
{
    if from < at {
        lemma_newline_from_found(data, from + 1, at);
    }
}

/// No index from `from` on holds a newline.
pub proof fn lemma_newline_from_absent(data: Seq<u8>, from: int)
    requires
        0 <= from,
        forall|j: int| from <= j < data.len() ==> data[j] != NEWLINE,
    ensures
        newline_from(data, from) == data.len(),
    decreases data.len() - from,
{
    if from < data.len() {
        lemma_newline_from_absent(data, from + 1);
    }
}

/// `newline_from` is the least newline position at or after `from`.
pub proof fn lemma_newline_from_least(data: Seq<u8>, from: int)
    requires
        0 <= from,
    ensures
        from <= newline_from(data, from) || data.len() <= from,
        newline_from(data, from) <= data.len(),
        newline_from(data, from) < data.len() ==> data[newline_from(data, from)] == NEWLINE,
        forall|j: int| from <= j < newline_from(data, from) ==> data[j] != NEWLINE,
    decreases data.len() - from,
{
    if from < data.len() && data[from] != NEWLINE {
        lemma_newline_from_least(data, from + 1);
    }
}

/// Finds the next newline at or after `offset` and returns its position.
pub fn find_newline(chunk: &[u8], offset: usize) -> (found: Option<usize>)
    requires
        offset <= chunk@.len(),
    ensures
        found == first_newline(chunk@, offset),
        match found {
            Some(at) => {
                &&& offset <= at < chunk@.len()
                &&& chunk@[at as int] == NEWLINE
                &&& forall|j: int| offset <= j < at ==> chunk@[j] != NEWLINE
            },
            None => forall|j: int| offset <= j < chunk@.len() ==> chunk@[j] != NEWLINE,
        },
{
    let tail = &chunk[offset..chunk.len()];
    match memchr::memchr(NEWLINE, tail) {
        Some(i) => {
            proof {
                assert forall|j: int| offset <= j < offset + i implies chunk@[j] != NEWLINE by {
                    assert(tail@[j - offset] == chunk@[j]);
                }
                assert(tail@[i as int] == chunk@[offset + i]);
                lemma_newline_from_found(chunk@, offset as int, offset + i);
            }
            Some(offset + i)
        },
        None => {
            proof {
                assert forall|j: int| offset <= j < chunk@.len() implies chunk@[j] != NEWLINE by {
                    assert(tail@[j - offset] == chunk@[j]);
                }
                lemma_newline_from_absent(chunk@, offset as int);
            }
            None
        },
    }
}

/// Where the first line at or after `offset` starts: at 0 for offset 0, else
/// just behind the first newline found from `offset - 1` on. The result is
/// beyond `data.len()` where no such newline exists.
pub open spec fn line_start(data: Seq<u8>, offset: int) -> int {
    if offset <= 0 {
        0
    } else {
        newline_from(data, offset - 1) + 1
    }
}

/// The span `(begin, end)` of the first complete line of `data` that starts at
/// or after `offset`; `None` where no terminated line starts there or later.
pub open spec fn line_at(data: Seq<u8>, offset: usize) -> Option<(usize, usize)> {
    let begin = line_start(data, offset as int);
    let stop = newline_from(data, begin);
    if stop < data.len() {
        Some((begin as usize, (stop + 1) as usize))
    } else {
        None
    }
}

/// `span` is one whole line of `data`: it starts at 0 or just behind a
/// newline, is not empty, and its only newline is its last byte.
pub open spec fn is_line(data: Seq<u8>, span: (usize, usize)) -> bool {
    &&& span.0 < span.1 <= data.len()
    &&& span.0 == 0 || data[span.0 - 1] == NEWLINE
    &&& data[span.1 - 1] == NEWLINE
    &&& forall|j: int| span.0 <= j < span.1 - 1 ==> data[j] != NEWLINE
}

/// A located span is a whole line that starts at the probe or after it, and
/// the first line to do so; where none is located, every line starts before
/// the probe.
pub proof fn lemma_line_at_first(data: Seq<u8>, offset: usize)
    requires
        data.len() <= usize::MAX,
    ensures
        match line_at(data, offset) {
            Some(span) => {
                &&& is_line(data, span)
                &&& offset <= span.0
                &&& forall|other: (usize, usize)|
                    #[trigger] is_line(data, other) && offset <= other.0 ==> span.0 <= other.0
            },
            None => forall|other: (usize, usize)|
                #[trigger] is_line(data, other) ==> other.0 < offset,
        },
{
    let begin = line_start(data, offset as int);
    if offset > 0 {
        lemma_newline_from_least(data, offset - 1);
    }
    lemma_newline_from_least(data, begin);
    assert forall|other: (usize, usize)| #[trigger]
        is_line(data, other) && offset <= other.0 implies line_at(data, offset) is Some
        && begin <= other.0 by {
        if offset > 0 {
            assert(data[other.0 - 1] == NEWLINE);
        }
        assert(data[other.1 - 1] == NEWLINE);
    }
}

/// Finds the first complete line from the given offset.
///
/// Offset 0 counts as the start of a line. A probe just behind a newline is
/// at the start of a line as well, so that line is the one returned; any
/// other probe lies inside a line and yields the line after it. A line
/// without a newline at its end is not complete.
pub fn maybe_extract_line(chunk: &[u8], offset: usize) -> (found: Option<(usize, usize)>)
    requires
        offset <= chunk@.len(),
    ensures
        found == line_at(chunk@, offset),
        match found {
            Some(span) => {
                &&& is_line(chunk@, span)
                &&& offset <= span.0
                &&& forall|other: (usize, usize)|
                    #[trigger] is_line(chunk@, other) && offset <= other.0 ==> span.0 <= other.0
            },
            None => forall|other: (usize, usize)|
                #[trigger] is_line(chunk@, other) ==> other.0 < offset,
        },
{
    proof {
        assert(chunk@.len() == chunk.len());
        lemma_line_at_first(chunk@, offset);
        if offset > 0 {
            lemma_newline_from_least(chunk@, offset - 1);
        }
    }
    let begin: usize = if offset == 0 {
        0
    } else {
        match find_newline(chunk, offset - 1) {
            Some(at) => at + 1,
            None => {
                proof {
                    lemma_newline_from_least(chunk@, chunk@.len() as int + 1);
                }
                return None;
            },
        }
    };
    proof {
        lemma_newline_from_least(chunk@, begin as int);
    }
    let end: usize = match find_newline(chunk, begin) {
        Some(at) => at + 1,
        None => {
            return None;
        },
    };
    Some((begin, end))
}

} // verus!
