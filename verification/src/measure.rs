//! Lines that start at different offsets do not overlap, so together they are
//! no longer than the data and no more than its newlines.

use vstd::prelude::*;
use vstd::set_lib::{lemma_int_range, lemma_len_subset, lemma_set_disjoint_lens, set_int_range};
use crate::lines::{NEWLINE, is_line};
use crate::output::rendered;

verus! {

/// Every span is a line of `data`, and no two of them start at the same
/// offset.
pub open spec fn distinct_lines(data: Seq<u8>, spans: Seq<(usize, usize)>) -> bool {
    &&& forall|i: int| 0 <= i < spans.len() ==> is_line(data, #[trigger] spans[i])
    &&& forall|i: int, j: int|
        0 <= i < j < spans.len() ==> (#[trigger] spans[i]).0 != (#[trigger] spans[j]).0
}

/// The offsets at which the spans start.
pub open spec fn starts(spans: Seq<(usize, usize)>) -> Set<usize> {
    Set::new(|start: usize| exists|i: int| 0 <= i < spans.len() && (#[trigger] spans[i]).0 == start)
}

/// The lengths of the spans, added up.
pub open spec fn total_len(spans: Seq<(usize, usize)>) -> int
    decreases spans.len(),
{
    if spans.len() == 0 {
        0
    } else {
        total_len(spans.drop_last()) + (spans.last().1 - spans.last().0)
    }
}

/// The positions that lie in one of the spans.
pub open spec fn covered(spans: Seq<(usize, usize)>) -> Set<int>
    decreases spans.len(),
{
    if spans.len() == 0 {
        Set::empty()
    } else {
        covered(spans.drop_last()) + set_int_range(spans.last().0 as int, spans.last().1 as int)
    }
}

/// Two lines that start at different offsets share no position.
pub proof fn lemma_lines_apart(data: Seq<u8>, one: (usize, usize), other: (usize, usize))
    requires
        is_line(data, one),
        is_line(data, other),
        one.0 != other.0,
    ensures
        one.1 <= other.0 || other.1 <= one.0,
{
    if one.0 < other.0 {
        if other.0 < one.1 {
            assert(data[other.0 - 1] == NEWLINE);
        }
    } else {
        if one.0 < other.1 {
            assert(data[one.0 - 1] == NEWLINE);
        }
    }
}

/// A position lies in `covered(spans)` exactly when one of the spans holds
/// it.
pub proof fn lemma_covered_members(spans: Seq<(usize, usize)>, at: int)
    ensures
        covered(spans).contains(at) <==> exists|i: int|
            0 <= i < spans.len() && (#[trigger] spans[i]).0 <= at < spans[i].1,
    decreases spans.len(),
{
    if spans.len() > 0 {
        let front = spans.drop_last();
        lemma_covered_members(front, at);
        if covered(front).contains(at) {
            let i = choose|i: int|
                0 <= i < front.len() && (#[trigger] front[i]).0 <= at < front[i].1;
            assert(spans[i] == front[i]);
        }
        if exists|i: int| 0 <= i < spans.len() && (#[trigger] spans[i]).0 <= at < spans[i].1 {
            let i = choose|i: int|
                0 <= i < spans.len() && (#[trigger] spans[i]).0 <= at < spans[i].1;
            if i < spans.len() - 1 {
                assert(front[i] == spans[i]);
            }
        }
    }
}

/// Distinct lines cover as many positions as they are long together, all of
/// them positions of the data.
pub proof fn lemma_covered_len(data: Seq<u8>, spans: Seq<(usize, usize)>)
    requires
        distinct_lines(data, spans),
    ensures
        covered(spans).finite(),
        covered(spans).len() == total_len(spans),
        covered(spans).subset_of(set_int_range(0, data.len() as int)),
    decreases spans.len(),
{
    if spans.len() > 0 {
        let front = spans.drop_last();
        let last = spans.last();
        assert(distinct_lines(data, front)) by {
            assert forall|i: int| 0 <= i < front.len() implies is_line(
                data,
                #[trigger] front[i],
            ) by {
                assert(front[i] == spans[i]);
            }
            assert forall|i: int, j: int| 0 <= i < j < front.len() implies (#[trigger] front[i]).0
                != (#[trigger] front[j]).0 by {
                assert(front[i] == spans[i] && front[j] == spans[j]);
            }
        }
        lemma_covered_len(data, front);
        let range = set_int_range(last.0 as int, last.1 as int);
        lemma_int_range(last.0 as int, last.1 as int);
        assert(covered(front).disjoint(range)) by {
            assert forall|at: int| covered(front).contains(at) implies !range.contains(at) by {
                lemma_covered_members(front, at);
                let i = choose|i: int|
                    0 <= i < front.len() && (#[trigger] front[i]).0 <= at < front[i].1;
                assert(front[i] == spans[i]);
                lemma_lines_apart(data, spans[i], last);
            }
        }
        lemma_set_disjoint_lens(covered(front), range);
    }
}

/// Distinct lines are no longer, taken together, than the data.
pub proof fn lemma_distinct_lines_fit(data: Seq<u8>, spans: Seq<(usize, usize)>)
    requires
        distinct_lines(data, spans),
    ensures
        0 <= total_len(spans) <= data.len(),
{
    lemma_covered_len(data, spans);
    lemma_int_range(0, data.len() as int);
    lemma_len_subset(covered(spans), set_int_range(0, data.len() as int));
}

/// One more line, which starts where none of the others does, keeps the
/// lines distinct and adds its length and its start.
pub proof fn lemma_distinct_lines_push(
    data: Seq<u8>,
    spans: Seq<(usize, usize)>,
    span: (usize, usize),
)
    requires
        distinct_lines(data, spans),
        is_line(data, span),
        !starts(spans).contains(span.0),
    ensures
        distinct_lines(data, spans.push(span)),
        total_len(spans.push(span)) == total_len(spans) + (span.1 - span.0),
        starts(spans.push(span)) == starts(spans).insert(span.0),
{
    let more = spans.push(span);
    assert(more.drop_last() == spans);
    assert forall|i: int, j: int| 0 <= i < j < more.len() implies (#[trigger] more[i]).0
        != (#[trigger] more[j]).0 by {
        if j == spans.len() {
            assert(more[i] == spans[i]);
        } else {
            assert(more[i] == spans[i] && more[j] == spans[j]);
        }
    }
    assert forall|i: int| 0 <= i < more.len() implies is_line(data, #[trigger] more[i]) by {
        if i < spans.len() {
            assert(more[i] == spans[i]);
        }
    }
    assert forall|start: usize| starts(more).contains(start) <==> starts(spans).insert(
        span.0,
    ).contains(start) by {
        if starts(more).contains(start) {
            let i = choose|i: int| 0 <= i < more.len() && (#[trigger] more[i]).0 == start;
            if i < spans.len() {
                assert(spans[i] == more[i]);
            }
        }
        if starts(spans).contains(start) {
            let i = choose|i: int| 0 <= i < spans.len() && (#[trigger] spans[i]).0 == start;
            assert(more[i] == spans[i]);
        }
        if start == span.0 {
            assert(more[spans.len() as int] == span);
        }
    }
    assert(starts(more) =~= starts(spans).insert(span.0));
}

/// How many newlines `data` holds: the number of its terminated lines.
pub open spec fn newline_count(data: Seq<u8>) -> nat
    decreases data.len(),
{
    if data.len() == 0 {
        0
    } else {
        newline_count(data.drop_last()) + if data.last() == NEWLINE {
            1nat
        } else {
            0nat
        }
    }
}

/// The positions of `data` that hold a newline.
pub open spec fn newline_positions(data: Seq<u8>) -> Set<int> {
    Set::new(|at: int| 0 <= at < data.len() && data[at] == NEWLINE)
}

/// The positions at which the spans end: those of their last bytes.
pub open spec fn last_bytes(spans: Seq<(usize, usize)>) -> Set<int>
    decreases spans.len(),
{
    if spans.len() == 0 {
        Set::empty()
    } else {
        last_bytes(spans.drop_last()).insert(spans.last().1 - 1)
    }
}

/// The newlines of two pieces of data add up when one is put behind the
/// other.
pub proof fn lemma_newline_count_concat(front: Seq<u8>, back: Seq<u8>)
    ensures
        newline_count(front + back) == newline_count(front) + newline_count(back),
    decreases back.len(),
{
    if back.len() == 0 {
        assert(front + back == front);
    } else {
        assert((front + back).drop_last() == front + back.drop_last());
        lemma_newline_count_concat(front, back.drop_last());
    }
}

/// Data without a newline counts none.
pub proof fn lemma_newline_count_none(data: Seq<u8>)
    requires
        forall|at: int| 0 <= at < data.len() ==> data[at] != NEWLINE,
    ensures
        newline_count(data) == 0,
    decreases data.len(),
{
    if data.len() > 0 {
        lemma_newline_count_none(data.drop_last());
    }
}

/// The bytes of a line hold one newline.
pub proof fn lemma_line_newline_count(data: Seq<u8>, span: (usize, usize))
    requires
        is_line(data, span),
    ensures
        newline_count(data.subrange(span.0 as int, span.1 as int)) == 1,
{
    let line = data.subrange(span.0 as int, span.1 as int);
    lemma_newline_count_none(line.drop_last());
}

/// Lines written out one after the other hold one newline each.
pub proof fn lemma_rendered_newline_count(data: Seq<u8>, spans: Seq<(usize, usize)>)
    requires
        forall|i: int| 0 <= i < spans.len() ==> is_line(data, #[trigger] spans[i]),
    ensures
        newline_count(rendered(data, spans)) == spans.len(),
    decreases spans.len(),
{
    if spans.len() > 0 {
        let front = spans.drop_last();
        let last = spans.last();
        assert forall|i: int| 0 <= i < front.len() implies is_line(data, #[trigger] front[i]) by {
            assert(front[i] == spans[i]);
        }
        lemma_rendered_newline_count(data, front);
        lemma_line_newline_count(data, last);
        lemma_newline_count_concat(
            rendered(data, front),
            data.subrange(last.0 as int, last.1 as int),
        );
    }
}

/// The positions that hold a newline are as many as `newline_count` says.
pub proof fn lemma_newline_positions_len(data: Seq<u8>)
    ensures
        newline_positions(data).finite(),
        newline_positions(data).len() == newline_count(data),
    decreases data.len(),
{
    if data.len() == 0 {
        assert(newline_positions(data) =~= Set::empty());
    } else {
        let front = data.drop_last();
        lemma_newline_positions_len(front);
        if data.last() == NEWLINE {
            assert(newline_positions(data) =~= newline_positions(front).insert(data.len() - 1));
        } else {
            assert(newline_positions(data) =~= newline_positions(front));
        }
    }
}

/// A position is the last byte of one of the spans exactly when
/// `last_bytes` holds it.
pub proof fn lemma_last_bytes_members(spans: Seq<(usize, usize)>, at: int)
    ensures
        last_bytes(spans).contains(at) <==> exists|i: int|
            0 <= i < spans.len() && (#[trigger] spans[i]).1 - 1 == at,
    decreases spans.len(),
{
    if spans.len() > 0 {
        let front = spans.drop_last();
        lemma_last_bytes_members(front, at);
        if last_bytes(front).contains(at) {
            let i = choose|i: int| 0 <= i < front.len() && (#[trigger] front[i]).1 - 1 == at;
            assert(spans[i] == front[i]);
        }
        if exists|i: int| 0 <= i < spans.len() && (#[trigger] spans[i]).1 - 1 == at {
            let i = choose|i: int| 0 <= i < spans.len() && (#[trigger] spans[i]).1 - 1 == at;
            if i < spans.len() - 1 {
                assert(front[i] == spans[i]);
            }
        }
    }
}

/// Distinct lines end at as many newlines of the data as there are lines.
pub proof fn lemma_last_bytes_len(data: Seq<u8>, spans: Seq<(usize, usize)>)
    requires
        distinct_lines(data, spans),
    ensures
        last_bytes(spans).finite(),
        last_bytes(spans).len() == spans.len(),
        last_bytes(spans).subset_of(newline_positions(data)),
    decreases spans.len(),
{
    if spans.len() > 0 {
        let front = spans.drop_last();
        let last = spans.last();
        assert(distinct_lines(data, front)) by {
            assert forall|i: int| 0 <= i < front.len() implies is_line(
                data,
                #[trigger] front[i],
            ) by {
                assert(front[i] == spans[i]);
            }
            assert forall|i: int, j: int| 0 <= i < j < front.len() implies (#[trigger] front[i]).0
                != (#[trigger] front[j]).0 by {
                assert(front[i] == spans[i] && front[j] == spans[j]);
            }
        }
        lemma_last_bytes_len(data, front);
        assert(!last_bytes(front).contains(last.1 - 1)) by {
            lemma_last_bytes_members(front, last.1 - 1);
            if last_bytes(front).contains(last.1 - 1) {
                let i = choose|i: int|
                    0 <= i < front.len() && (#[trigger] front[i]).1 - 1 == last.1 - 1;
                assert(front[i] == spans[i]);
                lemma_lines_apart(data, spans[i], last);
            }
        }
    }
}

/// Distinct lines are no more than the data has newlines.
pub proof fn lemma_distinct_lines_count(data: Seq<u8>, spans: Seq<(usize, usize)>)
    requires
        distinct_lines(data, spans),
    ensures
        spans.len() <= newline_count(data),
{
    lemma_last_bytes_len(data, spans);
    lemma_newline_positions_len(data);
    lemma_len_subset(last_bytes(spans), newline_positions(data));
}

/// Distinct lines that are as many as the data has newlines are all the
/// lines of the data.
pub proof fn lemma_distinct_lines_census(
    data: Seq<u8>,
    spans: Seq<(usize, usize)>,
    line: (usize, usize),
)
    requires
        distinct_lines(data, spans),
        spans.len() == newline_count(data),
        is_line(data, line),
    ensures
        exists|i: int| 0 <= i < spans.len() && spans[i] == line,
{
    lemma_last_bytes_len(data, spans);
    lemma_newline_positions_len(data);
    vstd::set_lib::lemma_subset_equality(last_bytes(spans), newline_positions(data));
    assert(newline_positions(data).contains(line.1 - 1));
    lemma_last_bytes_members(spans, line.1 - 1);
    let i = choose|i: int| 0 <= i < spans.len() && (#[trigger] spans[i]).1 - 1 == line.1 - 1;
    if spans[i].0 != line.0 {
        lemma_lines_apart(data, spans[i], line);
    }
    assert(spans[i] == line);
}

} // verus!
