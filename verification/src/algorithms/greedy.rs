use vstd::prelude::*;
use crate::algorithms::traits::{GreedyState, SelectionStrategy};

verus! {

/// One round of the construction: `from` is unfinished, the strategy proposes
/// an item for it, and `to` is `from` with that item applied.
pub open spec fn greedy_step<P: GreedyState, S: SelectionStrategy<P>>(
    strategy: &S,
    from: P,
    to: P,
) -> bool {
    &&& !from.finished()
    &&& strategy.choice(&from) matches Some(item)
    &&& from.applied(item, &to)
}

/// The state at `k` leads to the state after it by one round of the
/// construction.
pub open spec fn greedy_step_at<P: GreedyState, S: SelectionStrategy<P>>(
    strategy: &S,
    states: Seq<P>,
    k: int,
) -> bool {
    greedy_step(strategy, states[k], states[k + 1])
}

/// `states` are the successive states of a construction driven by `strategy`.
pub open spec fn greedy_run<P: GreedyState, S: SelectionStrategy<P>>(
    strategy: &S,
    states: Seq<P>,
) -> bool {
    &&& states.len() > 0
    &&& forall|k: int| 0 <= k < states.len() - 1 ==> #[trigger] greedy_step_at(strategy, states, k)
}

/// The construction ends in `state`: it is finished, or the strategy has
/// nothing to propose for it.
pub open spec fn greedy_stops<P: GreedyState, S: SelectionStrategy<P>>(
    strategy: &S,
    state: P,
) -> bool {
    state.finished() || strategy.choice(&state) is None
}

/// Extends `problem` by the items that `strategy` proposes, one after the
/// other, until the state is finished or the strategy proposes nothing.
pub fn solve<P, S>(problem: &mut P, strategy: &mut S) where P: GreedyState, S: SelectionStrategy<P>
    requires
        old(problem).valid(),
    ensures
        final(problem).valid(),
        greedy_stops(old(strategy), *final(problem)),
        exists|states: Seq<P>|
            #[trigger] greedy_run(old(strategy), states) && states.first() == *old(problem)
                && states.last() == *final(problem),
        forall|q: &P| #[trigger] final(strategy).choice(q) == old(strategy).choice(q),
{
    let ghost mut states: Seq<P> = seq![*problem];
    loop
        invariant
            problem.valid(),
            greedy_run(old(strategy), states),
            states.first() == *old(problem),
            states.last() == *problem,
            forall|q: &P| #[trigger] strategy.choice(q) == old(strategy).choice(q),
        decreases problem.pending(),
    {
        if problem.is_finished() {
            return ;
        }
        let ghost before = *problem;
        match strategy.next_candidate(problem) {
            Some(candidate) => {
                problem.apply(candidate);
                proof {
                    let ghost grown = states.push(*problem);
                    assert(old(strategy).choice(&before) == Some(candidate));
                    assert(greedy_step(old(strategy), before, *problem));
                    assert forall|k: int| 0 <= k < grown.len() - 1 implies #[trigger] greedy_step_at(
                        old(strategy),
                        grown,
                        k,
                    ) by {
                        if k < states.len() - 1 {
                            assert(greedy_step_at(old(strategy), states, k));
                        }
                    }
                    states = grown;
                }
            },
            None => {
                assert(old(strategy).choice(&before) is None);
                return ;
            },
        }
    }
}

} // verus!
