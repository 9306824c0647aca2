//! What a sampling run does, stated as a function of the data, the range of
//! probes and the state of the generator.

use vstd::prelude::*;
use crate::error::SampleError;
use crate::generator::probe;
use crate::lines::{is_line, lemma_line_at_first, line_at};

verus! {

/// How a sampling run ends.
pub enum Ending {
    /// Every requested line was picked.
    Complete,
    /// A probe did not resolve to a line.
    Unresolved,
    /// The lines picked so far are longer, taken together, than the range of
    /// probes, so the run does not look for another one.
    OutOfBytes,
    /// Every draw that the run allows itself for one line hit a line that was
    /// picked before.
    Stalled,
}

/// What a sampling run does: the state it leaves the generator in, the lines
/// it picks, in the order picked, and how it ends.
pub struct Run {
    pub state: u64,
    pub spans: Seq<(usize, usize)>,
    pub ending: Ending,
}

impl Run {
    /// The run that stops at once.
    pub open spec fn stop(state: u64, ending: Ending) -> Run {
        Run { state, spans: Seq::empty(), ending }
    }

    /// This run, carried out after `span` was picked.
    pub open spec fn after(self, span: (usize, usize)) -> Run {
        Run { state: self.state, spans: seq![span] + self.spans, ending: self.ending }
    }

    /// This run, carried out after all of `spans` were picked.
    pub open spec fn after_all(self, spans: Seq<(usize, usize)>) -> Run {
        Run { state: self.state, spans: spans + self.spans, ending: self.ending }
    }

    /// What the caller of a run for `requested` lines is told.
    pub open spec fn result(self, requested: usize) -> Result<(), SampleError> {
        match self.ending {
            Ending::Complete => Ok(()),
            Ending::Unresolved => Err(SampleError::Internal),
            Ending::OutOfBytes | Ending::Stalled => Err(
                SampleError::Exhausted { requested, found: self.spans.len() as usize },
            ),
        }
    }
}

/// Sampling `count` lines with replacement from the probes `0..=last_offset`,
/// by a generator in the state `state`: each line is the one that the next
/// draw resolves to, and the run stops at the first draw that resolves to
/// none.
pub open spec fn replacement_run(data: Seq<u8>, count: nat, last_offset: usize, state: u64) -> Run
    decreases count,
{
    if count == 0 {
        Run::stop(state, Ending::Complete)
    } else {
        let (next, offset) = probe(state, last_offset);
        match line_at(data, offset) {
            None => Run::stop(next, Ending::Unresolved),
            Some(span) => replacement_run(data, (count - 1) as nat, last_offset, next).after(span),
        }
    }
}

/// How many times a run without replacement may draw again while it looks
/// for one more line, after a first draw that hit a line picked before.
///
/// The generator has this many states and one more. A search that has made
/// all these draws in vain has therefore met some state twice, and would go
/// on hitting lines picked before however long it drew: it is stopped, where
/// it would otherwise never end.
pub const REDRAWS: u64 = u64::MAX;

/// How the search for a line that was not picked before ends.
pub enum Pick {
    /// A draw resolved to `span`, which was not picked before.
    Fresh { state: u64, span: (usize, usize) },
    /// A draw did not resolve to a line.
    Unresolved { state: u64 },
    /// Every draw allowed hit a line that was picked before.
    Stalled { state: u64 },
}

/// The search for a line that starts at none of `seen`: draw and resolve,
/// again and again for up to `redraws` more times while the line drawn
/// starts at one of `seen`.
pub open spec fn unseen_pick(
    data: Seq<u8>,
    last_offset: usize,
    seen: Set<usize>,
    state: u64,
    redraws: nat,
) -> Pick
    decreases redraws,
{
    let (next, offset) = probe(state, last_offset);
    match line_at(data, offset) {
        None => Pick::Unresolved { state: next },
        Some(span) => if !seen.contains(span.0) {
            Pick::Fresh { state: next, span }
        } else if redraws == 0 {
            Pick::Stalled { state: next }
        } else {
            unseen_pick(data, last_offset, seen, next, (redraws - 1) as nat)
        },
    }
}

/// A line found by the search is a line of the data that starts at none of
/// `seen`, and some probe of the range resolves to it.
pub proof fn lemma_unseen_pick_fresh(
    data: Seq<u8>,
    last_offset: usize,
    seen: Set<usize>,
    state: u64,
    redraws: nat,
)
    requires
        data.len() <= usize::MAX,
    ensures
        unseen_pick(data, last_offset, seen, state, redraws) matches Pick::Fresh { span, .. } ==> {
            &&& is_line(data, span)
            &&& !seen.contains(span.0)
            &&& exists|offset: usize| offset <= last_offset && line_at(data, offset) == Some(span)
        },
    decreases redraws,
{
    let (next, offset) = probe(state, last_offset);
    lemma_line_at_first(data, offset);
    if let Some(span) = line_at(data, offset) {
        if seen.contains(span.0) && redraws > 0 {
            lemma_unseen_pick_fresh(data, last_offset, seen, next, (redraws - 1) as nat);
        }
    }
}

/// Sampling `count` more lines without replacement, when the lines that
/// start at `seen` were picked already and are `bytes` long together. Before
/// each line the run gives up if `bytes` has passed `last_offset`.
pub open spec fn rejection_run(
    data: Seq<u8>,
    count: nat,
    last_offset: usize,
    state: u64,
    seen: Set<usize>,
    bytes: nat,
) -> Run
    decreases count,
{
    if count == 0 {
        Run::stop(state, Ending::Complete)
    } else if bytes > last_offset {
        Run::stop(state, Ending::OutOfBytes)
    } else {
        match unseen_pick(data, last_offset, seen, state, REDRAWS as nat) {
            Pick::Fresh { state: next, span } => rejection_run(
                data,
                (count - 1) as nat,
                last_offset,
                next,
                seen.insert(span.0),
                (bytes + span.1 - span.0) as nat,
            ).after(span),
            Pick::Unresolved { state: next } => Run::stop(next, Ending::Unresolved),
            Pick::Stalled { state: next } => Run::stop(next, Ending::Stalled),
        }
    }
}

/// Sampling `count` lines without replacement from the probes
/// `0..=last_offset`, by a generator in the state `state`.
pub open spec fn unique_run(data: Seq<u8>, count: nat, last_offset: usize, state: u64) -> Run {
    rejection_run(data, count, last_offset, state, Set::empty(), 0)
}

} // verus!
