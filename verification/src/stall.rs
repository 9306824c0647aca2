//! Why a search for an unseen line may stop after `REDRAWS` draws in vain:
//! by then the generator has come back to a state it was in before, and more
//! draws would only repeat draws that were made.

use vstd::prelude::*;
use vstd::relations::injective_on;
use vstd::set_lib::{lemma_int_range, lemma_len_subset, lemma_map_size, set_int_range};
use crate::generator::probe;
use crate::lines::line_at;
use crate::runs::{REDRAWS, unseen_pick};

verus! {

/// The state of a generator that started in `state` after `draws` draws
/// from `0..=last_offset`.
pub open spec fn state_after(last_offset: usize, state: u64, draws: nat) -> u64
    decreases draws,
{
    if draws == 0 {
        state
    } else {
        state_after(last_offset, probe(state, last_offset).0, (draws - 1) as nat)
    }
}

/// The draw made in `state` resolves to a line that starts at one of `seen`.
pub open spec fn hits_seen(
    data: Seq<u8>,
    last_offset: usize,
    seen: Set<usize>,
    state: u64,
) -> bool {
    line_at(data, probe(state, last_offset).1) matches Some(span) && seen.contains(span.0)
}

/// Draws made one after the other add up.
pub proof fn lemma_state_after_sum(last_offset: usize, state: u64, first: nat, then: nat)
    ensures
        state_after(last_offset, state, first + then) == state_after(
            last_offset,
            state_after(last_offset, state, first),
            then,
        ),
    decreases first,
{
    if first > 0 {
        lemma_state_after_sum(
            last_offset,
            probe(state, last_offset).0,
            (first - 1) as nat,
            then,
        );
    }
}

/// The search stalls exactly when its first draw and all the draws it may
/// make again hit seen lines.
pub proof fn lemma_stalled_draws(
    data: Seq<u8>,
    last_offset: usize,
    seen: Set<usize>,
    state: u64,
    redraws: nat,
)
    ensures
        unseen_pick(data, last_offset, seen, state, redraws) is Stalled <==> forall|draws: nat|
            draws <= redraws ==> hits_seen(
                data,
                last_offset,
                seen,
                #[trigger] state_after(last_offset, state, draws),
            ),
    decreases redraws,
{
    let next = probe(state, last_offset).0;
    let all_hit = |state: u64, redraws: nat|
        forall|draws: nat|
            draws <= redraws ==> hits_seen(
                data,
                last_offset,
                seen,
                #[trigger] state_after(last_offset, state, draws),
            );
    assert(state_after(last_offset, state, 0) == state);
    if redraws > 0 {
        lemma_stalled_draws(data, last_offset, seen, next, (redraws - 1) as nat);
        if all_hit(state, redraws) {
            assert forall|draws: nat| draws <= redraws - 1 implies hits_seen(
                data,
                last_offset,
                seen,
                #[trigger] state_after(last_offset, next, draws),
            ) by {
                assert(state_after(last_offset, state, draws + 1) == state_after(
                    last_offset,
                    next,
                    draws,
                ));
            }
        }
        if hits_seen(data, last_offset, seen, state) && all_hit(next, (redraws - 1) as nat) {
            assert forall|draws: nat| draws <= redraws implies hits_seen(
                data,
                last_offset,
                seen,
                #[trigger] state_after(last_offset, state, draws),
            ) by {
                if draws > 0 {
                    assert(state_after(last_offset, state, draws) == state_after(
                        last_offset,
                        next,
                        (draws - 1) as nat,
                    ));
                }
            }
        }
    }
}

/// Among the states before each of the first `REDRAWS + 2` draws, two are
/// the same: there are no more states than `REDRAWS + 1`.
pub proof fn lemma_state_comes_back(last_offset: usize, state: u64) -> (pair: (nat, nat))
    ensures
        pair.0 < pair.1 <= REDRAWS + 1,
        state_after(last_offset, state, pair.0) == state_after(last_offset, state, pair.1),
{
    let states = REDRAWS + 1;
    let draws = set_int_range(0, states + 1);
    let state_of = |draw: int| state_after(last_offset, state, draw as nat) as int;
    lemma_int_range(0, states + 1);
    if injective_on(state_of, draws) {
        lemma_map_size(draws, draws.map(state_of), state_of);
        lemma_int_range(0, states as int);
        assert(draws.map(state_of).subset_of(set_int_range(0, states as int)));
        lemma_len_subset(draws.map(state_of), set_int_range(0, states as int));
        assert(false);
    }
    let (one, other) = choose|one: int, other: int|
        draws.contains(one) && draws.contains(other) && #[trigger] state_of(one)
            == #[trigger] state_of(other) && one != other;
    if one < other {
        (one as nat, other as nat)
    } else {
        (other as nat, one as nat)
    }
}

/// When the first `REDRAWS + 1` draws all hit seen lines, every later draw
/// does.
pub proof fn lemma_all_draws_hit_seen(
    data: Seq<u8>,
    last_offset: usize,
    seen: Set<usize>,
    state: u64,
    draws: nat,
)
    requires
        forall|early: nat|
            early <= REDRAWS ==> hits_seen(
                data,
                last_offset,
                seen,
                #[trigger] state_after(last_offset, state, early),
            ),
    ensures
        hits_seen(data, last_offset, seen, state_after(last_offset, state, draws)),
    decreases draws,
{
    if draws > REDRAWS {
        let (first, second) = lemma_state_comes_back(last_offset, state);
        let beyond = (draws - second) as nat;
        lemma_state_after_sum(last_offset, state, second, beyond);
        lemma_state_after_sum(last_offset, state, first, beyond);
        assert(second + beyond == draws);
        lemma_all_draws_hit_seen(data, last_offset, seen, state, first + beyond);
    }
}

/// A search that stalls would stall however many draws it were allowed.
pub proof fn lemma_stall_is_final(
    data: Seq<u8>,
    last_offset: usize,
    seen: Set<usize>,
    state: u64,
    redraws: nat,
)
    requires
        unseen_pick(data, last_offset, seen, state, REDRAWS as nat) is Stalled,
    ensures
        unseen_pick(data, last_offset, seen, state, redraws) is Stalled,
{
    lemma_stalled_draws(data, last_offset, seen, state, REDRAWS as nat);
    assert forall|draws: nat| draws <= redraws implies hits_seen(
        data,
        last_offset,
        seen,
        #[trigger] state_after(last_offset, state, draws),
    ) by {
        lemma_all_draws_hit_seen(data, last_offset, seen, state, draws);
    }
    lemma_stalled_draws(data, last_offset, seen, state, redraws);
}

} // verus!
