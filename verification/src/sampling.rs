//! The two sampling strategies: with replacement, and without it by
//! rejecting lines that were picked before.

use vstd::prelude::*;
use std::collections::HashSet;
use crate::error::SampleError;
use crate::generator::Generator;
use crate::lines::{line_at, maybe_extract_line};
use crate::laws::{lemma_replacement_run, lemma_unique_run, probes_resolve, sampled_from};
use crate::measure::{
    distinct_lines, lemma_distinct_lines_fit, lemma_distinct_lines_push, newline_count, starts,
    total_len,
};
use crate::runs::{
    Ending, Pick, REDRAWS, Run, lemma_unseen_pick_fresh, rejection_run, replacement_run, unique_run,
    unseen_pick,
};

verus! {

broadcast use vstd::std_specs::hash::group_hash_axioms;

/// Samples `count` lines with replacement and appends their spans to `lines`.
///
/// Each span is that of the line to which a fresh draw from `0..=last_offset`
/// resolves. The same line may be picked more than once. A draw that resolves
/// to no line ends the call with `SampleError::Internal`; the spans appended
/// before it stay.
#[verifier::loop_isolation(false)]
pub fn sample_with_replacement(
    chunk: &[u8],
    count: usize,
    last_offset: usize,
    generator: &mut Generator,
    lines: &mut Vec<(usize, usize)>,
) -> (outcome: Result<(), SampleError>)
    requires
        last_offset <= chunk@.len(),
    ensures
        ({
            let run = replacement_run(chunk@, count as nat, last_offset, old(generator)@);
            &&& final(generator)@ == run.state
            &&& final(lines)@ == old(lines)@ + run.spans
            &&& outcome == run.result(count)
        }),
        sampled_from(chunk@, last_offset, final(lines)@.skip(old(lines)@.len() as int)),
        outcome is Ok <==> final(lines)@.len() == old(lines)@.len() + count,
        outcome is Err ==> outcome == Err::<(), SampleError>(SampleError::Internal),
        probes_resolve(chunk@, last_offset) ==> outcome is Ok,
{
    let ghost before = lines@;
    let ghost whole = replacement_run(chunk@, count as nat, last_offset, generator@);
    proof {
        assert(chunk@.len() == chunk.len());
        lemma_replacement_run(chunk@, count as nat, last_offset, generator@);
        assert((before + whole.spans).skip(before.len() as int) == whole.spans);
    }
    let mut picked: usize = 0;
    while picked < count
        invariant
            picked <= count,
            lines@.len() == before.len() + picked,
            lines@.subrange(0, before.len() as int) == before,
            whole == replacement_run(
                chunk@,
                (count - picked) as nat,
                last_offset,
                generator@,
            ).after_all(lines@.skip(before.len() as int)),
        decreases count - picked,
    {
        let ghost rest = replacement_run(chunk@, (count - picked) as nat, last_offset, generator@);
        let ghost so_far = lines@.skip(before.len() as int);
        let offset: usize = generator.offset(last_offset);
        match maybe_extract_line(chunk, offset) {
            None => {
                proof {
                    assert(rest == Run::stop(generator@, Ending::Unresolved));
                    assert(so_far + Seq::<(usize, usize)>::empty() == so_far);
                    assert(lines@ == before + so_far);
                }
                return Err(SampleError::Internal);
            },
            Some(span) => {
                lines.push(span);
                proof {
                    let tail = replacement_run(
                        chunk@,
                        (count - picked - 1) as nat,
                        last_offset,
                        generator@,
                    );
                    assert(rest == tail.after(span));
                    assert(lines@.skip(before.len() as int) == so_far.push(span));
                    assert(so_far + (seq![span] + tail.spans) == so_far.push(span) + tail.spans);
                }
            },
        }
        picked += 1;
    }
    proof {
        let so_far = lines@.skip(before.len() as int);
        assert(so_far + Seq::<(usize, usize)>::empty() == so_far);
        assert(lines@ == before + so_far);
    }
    Ok(())
}

/// Resolves the probe `offset` and records in `seen` where its line starts.
///
/// Returns the line's span if no line starting there was recorded before,
/// `None` if one was, and `SampleError::Internal` if the probe resolves to no
/// line.
pub fn claim_line(chunk: &[u8], offset: usize, seen: &mut HashSet<usize>) -> (claimed: Result<
    Option<(usize, usize)>,
    SampleError,
>)
    requires
        offset <= chunk@.len(),
    ensures
        match line_at(chunk@, offset) {
            None => {
                &&& claimed == Err::<Option<(usize, usize)>, SampleError>(SampleError::Internal)
                &&& final(seen)@ == old(seen)@
            },
            Some(span) => {
                &&& claimed == Ok::<Option<(usize, usize)>, SampleError>(
                    if old(seen)@.contains(span.0) {
                        None
                    } else {
                        Some(span)
                    },
                )
                &&& final(seen)@ == old(seen)@.insert(span.0)
            },
        },
{
    match maybe_extract_line(chunk, offset) {
        None => Err(SampleError::Internal),
        Some((begin, end)) => {
            if seen.insert(begin) {
                Ok(Some((begin, end)))
            } else {
                Ok(None)
            }
        },
    }
}

/// Draws probes from `0..=last_offset` until one resolves to a line that
/// `seen` does not record, records it and returns its span.
///
/// Returns `None` when the first draw and `REDRAWS` more have all hit
/// recorded lines, and `SampleError::Internal` when a draw resolves to no
/// line.
pub fn pick_unseen(
    chunk: &[u8],
    last_offset: usize,
    generator: &mut Generator,
    seen: &mut HashSet<usize>,
) -> (picked: Result<Option<(usize, usize)>, SampleError>)
    requires
        last_offset <= chunk@.len(),
    ensures
        match unseen_pick(chunk@, last_offset, old(seen)@, old(generator)@, REDRAWS as nat) {
            Pick::Fresh { state, span } => {
                &&& picked == Ok::<Option<(usize, usize)>, SampleError>(Some(span))
                &&& final(generator)@ == state
                &&& final(seen)@ == old(seen)@.insert(span.0)
            },
            Pick::Unresolved { state } => {
                &&& picked == Err::<Option<(usize, usize)>, SampleError>(SampleError::Internal)
                &&& final(generator)@ == state
                &&& final(seen)@ == old(seen)@
            },
            Pick::Stalled { state } => {
                &&& picked == Ok::<Option<(usize, usize)>, SampleError>(None)
                &&& final(generator)@ == state
                &&& final(seen)@ == old(seen)@
            },
        },
{
    let mut redraws: u64 = REDRAWS;
    loop
        invariant
            last_offset <= chunk@.len(),
            seen@ == old(seen)@,
            unseen_pick(chunk@, last_offset, old(seen)@, old(generator)@, REDRAWS as nat)
                == unseen_pick(chunk@, last_offset, seen@, generator@, redraws as nat),
        decreases redraws,
    {
        let offset: usize = generator.offset(last_offset);
        match claim_line(chunk, offset, seen) {
            Err(error) => {
                return Err(error);
            },
            Ok(Some(span)) => {
                return Ok(Some(span));
            },
            Ok(None) => {
                assert(seen@ =~= old(seen)@);
            },
        }
        if redraws == 0 {
            return Ok(None);
        }
        redraws -= 1;
    }
}

/// Samples `count` lines without replacement and appends their spans to
/// `lines`.
///
/// Each span is that of a line to which a draw from `0..=last_offset`
/// resolves and which the call has not picked before; draws that hit a line
/// picked before are made again. Before each line the call gives up with
/// `SampleError::Exhausted` if the lines picked so far are longer together
/// than `last_offset`; it gives up in the same way when the draws for one
/// line stall. A draw that resolves to no line ends the call with
/// `SampleError::Internal`. The spans appended before a failure stay.
#[verifier::loop_isolation(false)]
pub fn sample_without_replacement(
    chunk: &[u8],
    count: usize,
    last_offset: usize,
    generator: &mut Generator,
    lines: &mut Vec<(usize, usize)>,
) -> (outcome: Result<(), SampleError>)
    requires
        last_offset <= chunk@.len(),
    ensures
        ({
            let run = unique_run(chunk@, count as nat, last_offset, old(generator)@);
            &&& final(generator)@ == run.state
            &&& final(lines)@ == old(lines)@ + run.spans
            &&& outcome == run.result(count)
        }),
        sampled_from(chunk@, last_offset, final(lines)@.skip(old(lines)@.len() as int)),
        distinct_lines(chunk@, final(lines)@.skip(old(lines)@.len() as int)),
        outcome is Ok <==> final(lines)@.len() == old(lines)@.len() + count,
        outcome matches Err(SampleError::Exhausted { requested, found }) ==> {
            &&& requested == count
            &&& found == final(lines)@.len() - old(lines)@.len()
        },
        probes_resolve(chunk@, last_offset) ==> outcome != Err::<(), SampleError>(
            SampleError::Internal,
        ),
        count > newline_count(chunk@) ==> outcome is Err,
{
    let ghost before = lines@;
    let ghost whole = unique_run(chunk@, count as nat, last_offset, generator@);
    proof {
        assert(chunk@.len() == chunk.len());
        lemma_unique_run(chunk@, count as nat, last_offset, generator@);
        assert((before + whole.spans).skip(before.len() as int) == whole.spans);
    }
    let mut covered_offsets: HashSet<usize> = HashSet::new();
    let mut extracted_size: usize = 0;
    let mut picked: usize = 0;
    assert(starts(lines@.skip(before.len() as int)) =~= Set::<usize>::empty());
    while picked < count
        invariant
            picked <= count,
            lines@.len() == before.len() + picked,
            lines@.subrange(0, before.len() as int) == before,
            distinct_lines(chunk@, lines@.skip(before.len() as int)),
            covered_offsets@ == starts(lines@.skip(before.len() as int)),
            extracted_size == total_len(lines@.skip(before.len() as int)),
            whole == rejection_run(
                chunk@,
                (count - picked) as nat,
                last_offset,
                generator@,
                covered_offsets@,
                extracted_size as nat,
            ).after_all(lines@.skip(before.len() as int)),
        decreases count - picked,
    {
        let ghost so_far = lines@.skip(before.len() as int);
        let ghost rest = rejection_run(
            chunk@,
            (count - picked) as nat,
            last_offset,
            generator@,
            covered_offsets@,
            extracted_size as nat,
        );
        proof {
            assert(so_far + Seq::<(usize, usize)>::empty() == so_far);
            assert(lines@ == before + so_far);
        }
        if extracted_size > last_offset {
            return Err(SampleError::Exhausted { requested: count, found: picked });
        }
        let ghost state = generator@;
        match pick_unseen(chunk, last_offset, generator, &mut covered_offsets) {
            Err(error) => {
                assert(rest == Run::stop(generator@, Ending::Unresolved));
                return Err(error);
            },
            Ok(None) => {
                assert(rest == Run::stop(generator@, Ending::Stalled));
                return Err(SampleError::Exhausted { requested: count, found: picked });
            },
            Ok(Some((begin, end))) => {
                proof {
                    let span = (begin, end);
                    lemma_unseen_pick_fresh(
                        chunk@,
                        last_offset,
                        starts(so_far),
                        state,
                        REDRAWS as nat,
                    );
                    lemma_distinct_lines_push(chunk@, so_far, span);
                    lemma_distinct_lines_fit(chunk@, so_far.push(span));
                }
                extracted_size += end - begin;
                lines.push((begin, end));
                proof {
                    let span = (begin, end);
                    let tail = rejection_run(
                        chunk@,
                        (count - picked - 1) as nat,
                        last_offset,
                        generator@,
                        covered_offsets@,
                        extracted_size as nat,
                    );
                    assert(rest == tail.after(span));
                    assert(lines@.skip(before.len() as int) == so_far.push(span));
                    assert(so_far + (seq![span] + tail.spans) == so_far.push(span) + tail.spans);
                }
            },
        }
        picked += 1;
    }
    proof {
        let so_far = lines@.skip(before.len() as int);
        assert(so_far + Seq::<(usize, usize)>::empty() == so_far);
        assert(lines@ == before + so_far);
    }
    Ok(())
}

} // verus!
