//! The range of offsets from which every probe resolves to a complete line.

use vstd::prelude::*;
use crate::error::SampleError;
use crate::lines::{NEWLINE, lemma_newline_from_least, line_at};

verus! {

/// Index of the last newline of `data` before `upto`, and -1 where there is
/// none.
pub open spec fn newline_before(data: Seq<u8>, upto: int) -> int
    decreases upto,
{
    if upto <= 0 {
        -1
    } else if upto <= data.len() && data[upto - 1] == NEWLINE {
        upto - 1
    } else {
        newline_before(data, upto - 1)
    }
}

/// The last offset from which a probe resolves to a complete line: the start
/// of the last terminated line. `None` where `data` holds fewer than two
/// newlines.
pub open spec fn last_line_start(data: Seq<u8>) -> Option<usize> {
    let end = newline_before(data, data.len() as int);
    let previous = newline_before(data, end);
    if previous >= 0 {
        Some((previous + 1) as usize)
    } else {
        None
    }
}

/// `newline_before` is the greatest newline position below `upto`.
pub proof fn lemma_newline_before_greatest(data: Seq<u8>, upto: int)
    requires
        upto <= data.len(),
    ensures
        -1 <= newline_before(data, upto),
        newline_before(data, upto) < upto || upto <= 0,
        newline_before(data, upto) >= 0 ==> data[newline_before(data, upto)] == NEWLINE,
        forall|j: int| newline_before(data, upto) < j < upto && 0 <= j ==> data[j] != NEWLINE,
    decreases upto,
{
    if upto > 0 && data[upto - 1] != NEWLINE {
        lemma_newline_before_greatest(data, upto - 1);
    }
}

/// `at` is the greatest index below `upto` that holds a newline.
pub proof fn lemma_newline_before_found(data: Seq<u8>, upto: int, at: int)
    requires
        0 <= at < upto <= data.len(),
        data[at] == NEWLINE,
        forall|j: int| at < j < upto ==> data[j] != NEWLINE,
    ensures
        newline_before(data, upto) == at,
    decreases upto - at,
{
    if at < upto - 1 {
        lemma_newline_before_found(data, upto - 1, at);
    }
}

/// No index below `upto` holds a newline.
pub proof fn lemma_newline_before_absent(data: Seq<u8>, upto: int)
    requires
        upto <= data.len(),
        forall|j: int| 0 <= j < upto ==> data[j] != NEWLINE,
    ensures
        newline_before(data, upto) == -1,
    decreases upto,
{
    if upto > 0 {
        lemma_newline_before_absent(data, upto - 1);
    }
}

/// The start of the last terminated line bounds the probes that resolve: a
/// probe finds a line exactly when it is not beyond that start. Where no
/// bound exists, no two positions of the data hold a newline.
pub proof fn lemma_last_line_start_bounds_probes(data: Seq<u8>)
    requires
        data.len() <= usize::MAX,
    ensures
        match last_line_start(data) {
            Some(last) => {
                &&& 0 < last < data.len()
                &&& data[last - 1] == NEWLINE
                &&& forall|offset: usize|
                    offset <= data.len() ==> (#[trigger] line_at(data, offset) is Some <==> offset
                        <= last)
            },
            None => forall|i: int, j: int|
                0 <= i < j < data.len() ==> !(data[i] == NEWLINE && data[j] == NEWLINE),
        },
{
    let end = newline_before(data, data.len() as int);
    lemma_newline_before_greatest(data, data.len() as int);
    lemma_newline_before_greatest(data, end);
    let previous = newline_before(data, end);
    if previous >= 0 {
        let last = (previous + 1) as usize;
        assert forall|offset: usize| offset <= data.len() implies (#[trigger] line_at(data, offset)
            is Some <==> offset <= last) by {
            let begin = crate::lines::line_start(data, offset as int);
            if offset > 0 {
                lemma_newline_from_least(data, offset - 1);
            }
            lemma_newline_from_least(data, begin);
        }
    }
}

/// Finds the last position in the data from which a full line can be found.
///
/// The data must hold two newlines at least: a single line, terminated or
/// not, is refused like data without any newline.
pub fn last_valid_offset(chunk: &[u8]) -> (found: Result<usize, SampleError>)
    ensures
        match last_line_start(chunk@) {
            Some(last) => found == Ok::<usize, SampleError>(last),
            None => found == Err::<usize, SampleError>(SampleError::NoNewlines),
        },
        match found {
            Ok(last) => {
                &&& 0 < last < chunk@.len()
                &&& chunk@[last - 1] == NEWLINE
                &&& forall|offset: usize|
                    offset <= chunk@.len() ==> (#[trigger] line_at(chunk@, offset) is Some
                        <==> offset <= last)
            },
            Err(_) => forall|i: int, j: int|
                0 <= i < j < chunk@.len() ==> !(chunk@[i] == NEWLINE && chunk@[j] == NEWLINE),
        },
{
    proof {
        assert(chunk@.len() == chunk.len());
        lemma_last_line_start_bounds_probes(chunk@);
    }
    let end: usize = match memchr::memrchr(NEWLINE, chunk) {
        Some(at) => at,
        None => {
            proof {
                lemma_newline_before_absent(chunk@, chunk@.len() as int);
            }
            return Err(SampleError::NoNewlines);
        },
    };
    proof {
        lemma_newline_before_found(chunk@, chunk@.len() as int, end as int);
    }
    let head = &chunk[0..end];
    match memchr::memrchr(NEWLINE, head) {
        None => {
            proof {
                assert forall|j: int| 0 <= j < end implies chunk@[j] != NEWLINE by {
                    assert(head@[j] == chunk@[j]);
                }
                lemma_newline_before_absent(chunk@, end as int);
            }
            Err(SampleError::NoNewlines)
        },
        Some(begin) => {
            proof {
                assert forall|j: int| begin < j < end implies chunk@[j] != NEWLINE by {
                    assert(head@[j] == chunk@[j]);
                }
                assert(head@[begin as int] == chunk@[begin as int]);
                lemma_newline_before_found(chunk@, end as int, begin as int);
            }
            Ok(begin + 1)
        },
    }
}

} // verus!
