//! Data made of terminated lines that are all of one width, and what
//! sampling without replacement does on it.

use vstd::prelude::*;
use vstd::arithmetic::div_mod::{
    lemma_fundamental_div_mod, lemma_mod_add_multiples_vanish, lemma_mod_multiples_basic,
    lemma_mod_sub_multiples_vanish,
};
use vstd::set_lib::{lemma_int_range, lemma_subset_equality, set_int_range};
use crate::domain::{
    last_line_start, lemma_last_line_start_bounds_probes, lemma_newline_before_found,
};
use crate::laws::{lemma_unique_run, probes_resolve};
use crate::lines::{NEWLINE, is_line};
use crate::measure::{
    covered, distinct_lines, lemma_covered_len, lemma_covered_members, lemma_lines_apart,
    total_len,
};
use crate::runs::unique_run;

verus! {

/// `data` is `lines` lines of `width` bytes each and nothing else: its
/// newlines are the last bytes of its stretches of `width` bytes.
pub open spec fn uniform(data: Seq<u8>, lines: nat, width: nat) -> bool {
    &&& width >= 1
    &&& data.len() == lines * width
    &&& forall|at: int|
        0 <= at < data.len() ==> (data[at] == NEWLINE <==> (at + 1) % (width as int) == 0)
}

/// Two multiples of `width` are `width` apart at least.
pub proof fn lemma_multiples_apart(width: int, low: int, high: int)
    requires
        width > 0,
        low % width == 0,
        high % width == 0,
        low < high,
    ensures
        low + width <= high,
{
    lemma_fundamental_div_mod(low, width);
    lemma_fundamental_div_mod(high, width);
    let l = low / width;
    let h = high / width;
    assert(l < h) by (nonlinear_arith)
        requires
            width > 0,
            width * l < width * h,
    ;
    assert(width * l + width <= width * h) by (nonlinear_arith)
        requires
            width > 0,
            l + 1 <= h,
    ;
}

/// In uniform data a line starts at a multiple of the width and is as long
/// as the width.
pub proof fn lemma_uniform_line_width(data: Seq<u8>, lines: nat, width: nat, span: (usize, usize))
    requires
        uniform(data, lines, width),
        is_line(data, span),
    ensures
        (span.0 as int) % (width as int) == 0,
        span.1 == span.0 + width,
{
    let w = width as int;
    let begin = span.0 as int;
    let end = span.1 as int;
    assert(begin % w == 0) by {
        if begin == 0 {
            lemma_mod_multiples_basic(0, w);
        } else {
            assert(data[begin - 1] == NEWLINE);
        }
    }
    assert(end % w == 0) by {
        assert(data[end - 1] == NEWLINE);
    }
    lemma_multiples_apart(w, begin, end);
    lemma_mod_add_multiples_vanish(begin, w);
    if begin + w < end {
        assert(data[begin + w - 1] == NEWLINE);
    }
}

/// Uniform data of two lines or more can be sampled, from the probes up to
/// the start of its last line.
pub proof fn lemma_uniform_last_line_start(data: Seq<u8>, lines: nat, width: nat)
    requires
        uniform(data, lines, width),
        lines >= 2,
        data.len() <= usize::MAX,
    ensures
        2 * width <= data.len(),
        last_line_start(data) == Some((data.len() - width) as usize),
{
    let w = width as int;
    let len = data.len() as int;
    assert(len >= 2 * w) by (nonlinear_arith)
        requires
            len == lines * width,
            lines >= 2,
            w == width,
            w >= 1,
    ;
    lemma_mod_multiples_basic(lines as int, w);
    lemma_mod_sub_multiples_vanish(len, w);
    assert((len - w) % w == 0);
    assert(data[len - 1] == NEWLINE);
    lemma_newline_before_found(data, len, len - 1);
    assert(data[len - w - 1] == NEWLINE);
    assert forall|at: int| len - w - 1 < at < len - 1 implies data[at] != NEWLINE by {
        if data[at] == NEWLINE {
            lemma_multiples_apart(w, len - w, at + 1);
        }
    }
    lemma_newline_before_found(data, len - 1, len - w - 1);
}

/// Lines of uniform data are as long together as their number times the
/// width.
pub proof fn lemma_uniform_total_len(
    data: Seq<u8>,
    lines: nat,
    width: nat,
    spans: Seq<(usize, usize)>,
)
    requires
        uniform(data, lines, width),
        forall|i: int| 0 <= i < spans.len() ==> is_line(data, #[trigger] spans[i]),
    ensures
        total_len(spans) == spans.len() * width,
    decreases spans.len(),
{
    if spans.len() > 0 {
        let front = spans.drop_last();
        assert forall|i: int| 0 <= i < front.len() implies is_line(data, #[trigger] front[i]) by {
            assert(front[i] == spans[i]);
        }
        lemma_uniform_total_len(data, lines, width, front);
        lemma_uniform_line_width(data, lines, width, spans.last());
        assert(front.len() * width + width == spans.len() * width) by (nonlinear_arith)
            requires
                front.len() + 1 == spans.len(),
        ;
    } else {
        assert(0 * width == 0) by (nonlinear_arith);
    }
}

/// Sampling without replacement from uniform data of two lines or more, for
/// no more lines than it has, does not fail on a probe and does not run out
/// of bytes: it ends complete unless its draws stall. A complete run for as
/// many lines as the data has picks every line of the data, and each once.
/// A run for more lines than the data has does not end complete.
pub proof fn lemma_uniform_unique_run(
    data: Seq<u8>,
    lines: nat,
    width: nat,
    count: nat,
    state: u64,
)
    requires
        uniform(data, lines, width),
        lines >= 2,
        data.len() <= usize::MAX,
    ensures
        last_line_start(data) matches Some(last_offset) && ({
            let run = unique_run(data, count, last_offset, state);
            &&& distinct_lines(data, run.spans)
            &&& count <= lines ==> run.ending is Complete || run.ending is Stalled
            &&& count > lines ==> run.ending is OutOfBytes || run.ending is Stalled
            &&& count == lines && run.ending is Complete ==> forall|line: (usize, usize)|
                is_line(data, line) ==> exists|i: int|
                    0 <= i < run.spans.len() && #[trigger] run.spans[i] == line
        }),
{
    lemma_uniform_last_line_start(data, lines, width);
    let last_offset = (data.len() - width) as usize;
    let run = unique_run(data, count, last_offset, state);
    lemma_last_line_start_bounds_probes(data);
    assert(probes_resolve(data, last_offset));
    lemma_unique_run(data, count, last_offset, state);
    lemma_uniform_total_len(data, lines, width, run.spans);
    crate::measure::lemma_distinct_lines_fit(data, run.spans);
    let picked = run.spans.len();
    assert(picked <= lines) by (nonlinear_arith)
        requires
            picked * width <= lines * width,
            width >= 1,
    ;
    if run.ending is OutOfBytes && count <= lines {
        assert(false) by (nonlinear_arith)
            requires
                picked * width > lines * width - width,
                picked < lines,
                width >= 1,
        ;
    }
    if count == lines && run.ending is Complete {
        lemma_covered_len(data, run.spans);
        lemma_int_range(0, data.len() as int);
        lemma_subset_equality(covered(run.spans), set_int_range(0, data.len() as int));
        assert forall|line: (usize, usize)| is_line(data, line) implies exists|i: int|
            0 <= i < run.spans.len() && #[trigger] run.spans[i] == line by {
            assert(set_int_range(0, data.len() as int).contains(line.0 as int));
            lemma_covered_members(run.spans, line.0 as int);
            let i = choose|i: int|
                0 <= i < run.spans.len() && (#[trigger] run.spans[i]).0 <= line.0 < run.spans[i].1;
            if run.spans[i].0 != line.0 {
                lemma_lines_apart(data, run.spans[i], line);
            }
            lemma_uniform_line_width(data, lines, width, run.spans[i]);
            lemma_uniform_line_width(data, lines, width, line);
            assert(run.spans[i] == line);
        }
    }
}

} // verus!
