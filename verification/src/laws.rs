//! What holds of every sampling run.

use vstd::prelude::*;
use crate::domain::{last_line_start, lemma_last_line_start_bounds_probes};
use crate::error::SampleError;
use crate::generator::probe;
use crate::lines::{is_line, lemma_line_at_first, line_at};
use crate::measure::{
    distinct_lines, lemma_distinct_lines_census, lemma_distinct_lines_count,
    lemma_rendered_newline_count, newline_count, total_len,
};
use crate::runs::{
    Pick, REDRAWS, lemma_unseen_pick_fresh, rejection_run, replacement_run, unique_run,
    unseen_pick,
};
use crate::{sampled, samples, sampling_run};

verus! {

/// Every probe of `0..=last_offset` resolves to a line of `data`.
pub open spec fn probes_resolve(data: Seq<u8>, last_offset: usize) -> bool {
    forall|offset: usize| offset <= last_offset ==> #[trigger] line_at(data, offset) is Some
}

/// Each of `spans` is a line of `data` to which a probe of `0..=last_offset`
/// resolves.
pub open spec fn sampled_from(
    data: Seq<u8>,
    last_offset: usize,
    spans: Seq<(usize, usize)>,
) -> bool {
    forall|i: int|
        0 <= i < spans.len() ==> {
            &&& is_line(data, #[trigger] spans[i])
            &&& exists|offset: usize|
                offset <= last_offset && line_at(data, offset) == Some(spans[i])
        }
}

/// A run with replacement picks lines of the data to which probes of the
/// range resolve. It ends complete, with as many lines as were asked for, or
/// at a probe that resolves to no line, with fewer; where every probe of the
/// range resolves it ends complete.
pub proof fn lemma_replacement_run(data: Seq<u8>, count: nat, last_offset: usize, state: u64)
    requires
        data.len() <= usize::MAX,
    ensures
        ({
            let run = replacement_run(data, count, last_offset, state);
            &&& sampled_from(data, last_offset, run.spans)
            &&& run.ending is Complete || run.ending is Unresolved
            &&& run.ending is Complete ==> run.spans.len() == count
            &&& run.ending is Unresolved ==> run.spans.len() < count
            &&& probes_resolve(data, last_offset) ==> run.ending is Complete
        }),
    decreases count,
{
    if count > 0 {
        let (next, offset) = probe(state, last_offset);
        lemma_line_at_first(data, offset);
        if let Some(span) = line_at(data, offset) {
            let rest = replacement_run(data, (count - 1) as nat, last_offset, next);
            lemma_replacement_run(data, (count - 1) as nat, last_offset, next);
            let run = rest.after(span);
            assert forall|i: int| 0 <= i < run.spans.len() implies {
                &&& is_line(data, #[trigger] run.spans[i])
                &&& exists|offset: usize|
                    offset <= last_offset && line_at(data, offset) == Some(run.spans[i])
            } by {
                if i > 0 {
                    assert(run.spans[i] == rest.spans[i - 1]);
                }
            }
        }
    }
}

/// A run without replacement picks lines of the data to which probes of the
/// range resolve, no two of which start at the same offset and none of which
/// starts at an offset seen before. It ends complete exactly when it has
/// picked as many lines as were asked for. It ends out of bytes only when
/// the lines picked, with those picked before, are longer than the range;
/// where every probe of the range resolves it does not end unresolved.
pub proof fn lemma_rejection_run(
    data: Seq<u8>,
    count: nat,
    last_offset: usize,
    state: u64,
    seen: Set<usize>,
    bytes: nat,
)
    requires
        data.len() <= usize::MAX,
    ensures
        ({
            let run = rejection_run(data, count, last_offset, state, seen, bytes);
            &&& sampled_from(data, last_offset, run.spans)
            &&& distinct_lines(data, run.spans)
            &&& forall|i: int|
                0 <= i < run.spans.len() ==> !seen.contains((#[trigger] run.spans[i]).0)
            &&& run.ending is Complete ==> run.spans.len() == count
            &&& !(run.ending is Complete) ==> run.spans.len() < count
            &&& run.ending is OutOfBytes ==> bytes + total_len(run.spans) > last_offset
            &&& probes_resolve(data, last_offset) ==> !(run.ending is Unresolved)
        }),
    decreases count,
{
    if count > 0 && bytes <= last_offset {
        lemma_unseen_pick_fresh(data, last_offset, seen, state, REDRAWS as nat);
        if probes_resolve(data, last_offset) {
            lemma_unseen_pick_resolved(data, last_offset, seen, state, REDRAWS as nat);
        }
        if let Pick::Fresh { state: next, span } = unseen_pick(
            data,
            last_offset,
            seen,
            state,
            REDRAWS as nat,
        ) {
            let more = (bytes + span.1 - span.0) as nat;
            let rest = rejection_run(
                data,
                (count - 1) as nat,
                last_offset,
                next,
                seen.insert(span.0),
                more,
            );
            lemma_rejection_run(
                data,
                (count - 1) as nat,
                last_offset,
                next,
                seen.insert(span.0),
                more,
            );
            let run = rest.after(span);
            assert forall|i: int| 0 <= i < run.spans.len() implies {
                &&& is_line(data, #[trigger] run.spans[i])
                &&& !seen.contains(run.spans[i].0)
                &&& exists|offset: usize|
                    offset <= last_offset && line_at(data, offset) == Some(run.spans[i])
            } by {
                if i > 0 {
                    assert(run.spans[i] == rest.spans[i - 1]);
                }
            }
            assert forall|i: int, j: int| 0 <= i < j < run.spans.len() implies (
            #[trigger] run.spans[i]).0 != (#[trigger] run.spans[j]).0 by {
                assert(run.spans[j] == rest.spans[j - 1]);
                if i > 0 {
                    assert(run.spans[i] == rest.spans[i - 1]);
                }
            }
            lemma_total_len_after(rest.spans, span);
        }
    }
}

/// A run without replacement from nothing picked picks distinct lines of
/// the data, to which probes of the range resolve, and no more of them than
/// the data has newlines. It ends complete exactly when it has picked as
/// many lines as were asked for, so never when more were asked for than the
/// data has. It ends out of bytes only when the lines picked are longer
/// together than the range; where every probe of the range resolves it does
/// not end unresolved.
pub proof fn lemma_unique_run(data: Seq<u8>, count: nat, last_offset: usize, state: u64)
    requires
        data.len() <= usize::MAX,
    ensures
        ({
            let run = unique_run(data, count, last_offset, state);
            &&& sampled_from(data, last_offset, run.spans)
            &&& distinct_lines(data, run.spans)
            &&& run.spans.len() <= count
            &&& run.spans.len() <= newline_count(data)
            &&& run.ending is Complete <==> run.spans.len() == count
            &&& count > newline_count(data) ==> !(run.ending is Complete)
            &&& run.ending is OutOfBytes ==> total_len(run.spans) > last_offset
            &&& probes_resolve(data, last_offset) ==> !(run.ending is Unresolved)
        }),
{
    lemma_rejection_run(data, count, last_offset, state, Set::empty(), 0);
    lemma_distinct_lines_count(data, unique_run(data, count, last_offset, state).spans);
}

/// A complete run without replacement for as many lines as the data has
/// newlines picks every line of the data, and each once.
pub proof fn lemma_unique_run_census(
    data: Seq<u8>,
    last_offset: usize,
    state: u64,
    line: (usize, usize),
)
    requires
        data.len() <= usize::MAX,
        unique_run(data, newline_count(data), last_offset, state).ending is Complete,
        is_line(data, line),
    ensures
        ({
            let run = unique_run(data, newline_count(data), last_offset, state);
            &&& distinct_lines(data, run.spans)
            &&& exists|i: int| 0 <= i < run.spans.len() && run.spans[i] == line
        }),
{
    lemma_unique_run(data, newline_count(data), last_offset, state);
    lemma_distinct_lines_census(
        data,
        unique_run(data, newline_count(data), last_offset, state).spans,
        line,
    );
}

/// What a sampling call writes and returns, whatever state its generator
/// starts in. It fails for want of newlines exactly when the data has no
/// two of them, and then writes nothing. It never fails on a probe. With
/// replacement it succeeds on all other data. When it succeeds it has
/// written `count` lines; when it gives up, as only sampling without
/// replacement does, it has written the lines found, fewer than `count`.
/// Sampling without replacement gives up when asked for more lines than the
/// data has.
pub proof fn lemma_sampled(data: Seq<u8>, count: usize, allow_duplicates: bool, state: u64)
    requires
        data.len() <= usize::MAX,
    ensures
        ({
            let (written, outcome) = sampled(data, count, allow_duplicates, state);
            &&& outcome == Err::<(), SampleError>(SampleError::NoNewlines) <==> last_line_start(
                data,
            ) is None
            &&& last_line_start(data) is None ==> written.len() == 0
            &&& outcome != Err::<(), SampleError>(SampleError::Internal)
            &&& allow_duplicates && last_line_start(data) is Some ==> outcome is Ok
            &&& outcome is Ok ==> newline_count(written) == count
            &&& outcome matches Err(SampleError::Exhausted { requested, found }) ==> {
                &&& !allow_duplicates
                &&& requested == count
                &&& found < count
                &&& found <= newline_count(data)
                &&& newline_count(written) == found
            }
            &&& !allow_duplicates && count > newline_count(data) ==> outcome is Err
        }),
{
    lemma_last_line_start_bounds_probes(data);
    if let Some(last_offset) = last_line_start(data) {
        assert(probes_resolve(data, last_offset));
        let run = sampling_run(data, count, allow_duplicates, last_offset, state);
        lemma_replacement_run(data, count as nat, last_offset, state);
        lemma_unique_run(data, count as nat, last_offset, state);
        lemma_rendered_newline_count(data, run.spans);
    }
}

/// Two sampling calls on the same data with the same count, the same choice
/// of replacement and the same seed return the same and write the same.
pub proof fn lemma_seeded_sampling_repeats(
    data: Seq<u8>,
    count: usize,
    allow_duplicates: bool,
    seed: u64,
    one: (Seq<u8>, Seq<u8>, Result<(), SampleError>),
    other: (Seq<u8>, Seq<u8>, Result<(), SampleError>),
)
    requires
        samples(data, count, allow_duplicates, Some(seed), one.0, one.1, one.2),
        samples(data, count, allow_duplicates, Some(seed), other.0, other.1, other.2),
    ensures
        one.2 == other.2,
        one.1.skip(one.0.len() as int) == other.1.skip(other.0.len() as int),
{
    let written = sampled(data, count, allow_duplicates, seed).0;
    assert((one.0 + written).skip(one.0.len() as int) == written);
    assert((other.0 + written).skip(other.0.len() as int) == written);
}

/// Where every probe of the range resolves, the search for an unseen line
/// does not end unresolved.
pub proof fn lemma_unseen_pick_resolved(
    data: Seq<u8>,
    last_offset: usize,
    seen: Set<usize>,
    state: u64,
    redraws: nat,
)
    requires
        probes_resolve(data, last_offset),
    ensures
        !(unseen_pick(data, last_offset, seen, state, redraws) is Unresolved),
    decreases redraws,
{
    let (next, offset) = probe(state, last_offset);
    if redraws > 0 {
        lemma_unseen_pick_resolved(data, last_offset, seen, next, (redraws - 1) as nat);
    }
}

/// A span put in front adds its length to the total.
pub proof fn lemma_total_len_after(spans: Seq<(usize, usize)>, span: (usize, usize))
    ensures
        total_len(seq![span] + spans) == (span.1 - span.0) + total_len(spans),
    decreases spans.len(),
{
    let whole = seq![span] + spans;
    if spans.len() == 0 {
        assert(whole.drop_last() == spans);
        assert(whole.last() == span);
    } else {
        assert(whole.drop_last() == seq![span] + spans.drop_last());
        assert(whole.last() == spans.last());
        lemma_total_len_after(spans.drop_last(), span);
    }
}

} // verus!
