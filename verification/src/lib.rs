//! Sampling of whole lines from newline-delimited data by random byte probes.
//!
//! A probe is a byte offset. It resolves to the first complete line that starts
//! at or after it, so a line is never copied or indexed before it is chosen.

pub mod domain;
pub mod error;
pub mod generator;
pub mod laws;
pub mod lines;
pub mod measure;
pub mod output;
pub mod runs;
pub mod sampling;
pub mod scan;
pub mod stall;
pub mod uniform;

pub use crate::domain::last_valid_offset;
pub use crate::error::SampleError;
pub use crate::generator::Generator;
pub use crate::lines::{find_newline, maybe_extract_line};
pub use crate::sampling::{sample_with_replacement, sample_without_replacement};

use vstd::prelude::*;
use crate::domain::last_line_start;
use crate::laws::{lemma_replacement_run, lemma_sampled, lemma_unique_run};
use crate::measure::newline_count;
use crate::output::{rendered, write_lines};
use crate::runs::{Run, replacement_run, unique_run};

verus! {

/// The run that samples `count` lines from the probes `0..=last_offset`, with
/// or without replacement.
pub open spec fn sampling_run(
    data: Seq<u8>,
    count: usize,
    allow_duplicates: bool,
    last_offset: usize,
    state: u64,
) -> Run {
    if allow_duplicates {
        replacement_run(data, count as nat, last_offset, state)
    } else {
        unique_run(data, count as nat, last_offset, state)
    }
}

/// What sampling `count` lines of `data` writes and returns when the
/// generator starts in the state `state`.
pub open spec fn sampled(data: Seq<u8>, count: usize, allow_duplicates: bool, state: u64) -> (
    Seq<u8>,
    Result<(), SampleError>,
) {
    match last_line_start(data) {
        None => (Seq::empty(), Err(SampleError::NoNewlines)),
        Some(last_offset) => {
            let run = sampling_run(data, count, allow_duplicates, last_offset, state);
            (rendered(data, run.spans), run.result(count))
        },
    }
}

/// A call that finds `before` written, leaves `after` and returns `outcome`
/// has sampled `count` lines of `data`: from the state `seed` if there is
/// one, else from some state.
pub open spec fn samples(
    data: Seq<u8>,
    count: usize,
    allow_duplicates: bool,
    seed: Option<u64>,
    before: Seq<u8>,
    after: Seq<u8>,
    outcome: Result<(), SampleError>,
) -> bool {
    match seed {
        Some(state) => (after, outcome) == (
            before + sampled(data, count, allow_duplicates, state).0,
            sampled(data, count, allow_duplicates, state).1,
        ),
        None => exists|state: u64|
            (after, outcome) == (
                before + (#[trigger] sampled(data, count, allow_duplicates, state)).0,
                sampled(data, count, allow_duplicates, state).1,
            ),
    }
}

/// Writes `count` random lines of `chunk` to `writer`.
///
/// # Arguments
///
/// * `chunk` - the data to sample, lines terminated by newlines
/// * `count` - how many samples to take
/// * `allow_duplicates` - allow duplicate samples, i.e. sample with replacement
/// * `seed` - optional random seed to ensure deterministic behavior
/// * `writer` - where to write outputs
///
/// The lines written before a failure stay written.
pub fn quicklines(
    chunk: &[u8],
    count: usize,
    allow_duplicates: bool,
    seed: Option<u64>,
    writer: &mut Vec<u8>,
) -> (outcome: Result<(), SampleError>)
    ensures
        samples(chunk@, count, allow_duplicates, seed, old(writer)@, final(writer)@, outcome),
        old(writer)@.is_prefix_of(final(writer)@),
        outcome == Err::<(), SampleError>(SampleError::NoNewlines) <==> last_line_start(chunk@)
            is None,
        last_line_start(chunk@) is None ==> final(writer)@ == old(writer)@,
        outcome != Err::<(), SampleError>(SampleError::Internal),
        allow_duplicates && last_line_start(chunk@) is Some ==> outcome is Ok,
        outcome is Ok ==> newline_count(final(writer)@.skip(old(writer)@.len() as int)) == count,
        outcome matches Err(SampleError::Exhausted { requested, found }) ==> {
            &&& !allow_duplicates
            &&& requested == count
            &&& found < count
            &&& newline_count(final(writer)@.skip(old(writer)@.len() as int)) == found
        },
        !allow_duplicates && count > newline_count(chunk@) ==> outcome is Err,
{
    proof {
        assert(chunk@.len() == chunk.len());
    }
    let last_offset: usize = match last_valid_offset(chunk) {
        Ok(last_offset) => last_offset,
        Err(error) => {
            proof {
                assert(writer@ + Seq::<u8>::empty() == writer@);
                assert(sampled(chunk@, count, allow_duplicates, 0).0 == Seq::<u8>::empty());
                lemma_sampled(chunk@, count, allow_duplicates, 0);
            }
            return Err(error);
        },
    };
    let mut generator = match seed {
        Some(state) => Generator::with_seed(state),
        None => Generator::from_entropy(),
    };
    let ghost state = generator@;
    proof {
        lemma_replacement_run(chunk@, count as nat, last_offset, state);
        lemma_unique_run(chunk@, count as nat, last_offset, state);
        lemma_sampled(chunk@, count, allow_duplicates, state);
    }
    let mut lines: Vec<(usize, usize)> = Vec::new();
    let outcome = if allow_duplicates {
        sample_with_replacement(chunk, count, last_offset, &mut generator, &mut lines)
    } else {
        sample_without_replacement(chunk, count, last_offset, &mut generator, &mut lines)
    };
    proof {
        let run = sampling_run(chunk@, count, allow_duplicates, last_offset, state);
        assert(lines@ == run.spans);
        assert(sampled(chunk@, count, allow_duplicates, state) == (
            rendered(chunk@, run.spans),
            run.result(count),
        ));
    }
    let ghost before = writer@;
    write_lines(chunk, lines.as_slice(), writer);
    proof {
        let written = sampled(chunk@, count, allow_duplicates, state).0;
        assert((before + written).skip(before.len() as int) == written);
    }
    outcome
}

} // verus!
