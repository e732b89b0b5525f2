use vstd::prelude::*;
use crate::algorithms::traits::{Neighborhood, Solution};

verus! {

/// The neighbor at `index` is better than `cost` and none before it is.
pub open spec fn improves_first<S: Solution>(neighbors: Seq<S>, cost: S::Cost, index: int) -> bool {
    &&& 0 <= index < neighbors.len()
    &&& S::cost_below(neighbors[index].cost_of(), cost)
    &&& forall|j: int| 0 <= j < index ==> !S::cost_below((#[trigger] neighbors[j]).cost_of(), cost)
}

/// No neighbor is better than `cost`.
pub open spec fn none_improves<S: Solution>(neighbors: Seq<S>, cost: S::Cost) -> bool {
    forall|j: int|
        0 <= j < neighbors.len() ==> !S::cost_below((#[trigger] neighbors[j]).cost_of(), cost)
}

/// `to` is the first neighbor of `from`, in a list the neighborhood yields for
/// it, that is better than `from`.
pub open spec fn improving_move<S: Solution, N: Neighborhood<S>>(
    neighborhood: &N,
    from: S,
    to: S,
) -> bool {
    exists|neighbors: Seq<S>, index: int|
        neighborhood.yields(&from, neighbors) && #[trigger] improves_first(
            neighbors,
            from.cost_of(),
            index,
        ) && neighbors[index] == to
}

/// The solution after the one at `k` is reached from it by an improving move.
pub open spec fn improving_move_at<S: Solution, N: Neighborhood<S>>(
    neighborhood: &N,
    path: Seq<S>,
    k: int,
) -> bool {
    improving_move(neighborhood, path[k], path[k + 1])
}

/// Each solution of `path` but the first is reached from the one before it by
/// an improving move.
pub open spec fn descent<S: Solution, N: Neighborhood<S>>(neighborhood: &N, path: Seq<S>) -> bool {
    &&& path.len() > 0
    &&& forall|k: int| 0 <= k < path.len() - 1 ==> #[trigger] improving_move_at(neighborhood, path, k)
}

/// A list the neighborhood yields for `solution` holds nothing better.
pub open spec fn local_optimum<S: Solution, N: Neighborhood<S>>(
    neighborhood: &N,
    solution: S,
) -> bool {
    exists|neighbors: Seq<S>|
        #[trigger] neighborhood.yields(&solution, neighbors) && none_improves(
            neighbors,
            solution.cost_of(),
        )
}

/// `end` is reached from `start` by improving moves and is a local optimum.
pub open spec fn search_result<S: Solution, N: Neighborhood<S>>(
    neighborhood: &N,
    start: S,
    end: S,
) -> bool {
    &&& local_optimum(neighborhood, end)
    &&& exists|path: Seq<S>|
        #[trigger] descent(neighborhood, path) && path.first() == start && path.last() == end
}

/// Takes from `neighbors` the first solution that is better than
/// `current_cost`, if there is one.
pub fn first_improvement<S: Solution>(neighbors: Vec<S>, current_cost: &S::Cost) -> (found: Option<
    S,
>)
    requires
        forall|i: int| 0 <= i < neighbors@.len() ==> (#[trigger] neighbors@[i]).valid(),
    ensures
        match found {
            Some(better) => exists|index: int|
                #[trigger] improves_first(neighbors@, *current_cost, index) && neighbors@[index]
                    == better,
            None => none_improves(neighbors@, *current_cost),
        },
{
    let mut rest = neighbors;
    let mut i: usize = 0;
    while i < rest.len()
        invariant
            i <= rest.len(),
            rest@ == neighbors@,
            forall|k: int| 0 <= k < neighbors@.len() ==> (#[trigger] neighbors@[k]).valid(),
            forall|j: int|
                0 <= j < i ==> !S::cost_below((#[trigger] neighbors@[j]).cost_of(), *current_cost),
        decreases rest.len() - i,
    {
        let cost = rest[i].cost();
        if S::cost_less(&cost, current_cost) {
            let better = rest.swap_remove(i);
            assert(improves_first(neighbors@, *current_cost, i as int));
            return Some(better);
        }
        i += 1;
    }
    None
}

/// Hill climbing by first improvement: as long as the neighborhood yields a
/// solution better than the current one, moves to the first such solution.
pub fn solve<S, N>(current: S, neighborhood: &N) -> (best: S) where
    S: Solution,
    N: Neighborhood<S>,

    requires
        current.valid(),
        neighborhood.admits(&current),
    ensures
        best.valid(),
        neighborhood.admits(&best),
        search_result(neighborhood, current, best),
{
    let mut best = current;
    let ghost mut path: Seq<S> = seq![current];
    loop
        invariant
            best.valid(),
            neighborhood.admits(&best),
            descent(neighborhood, path),
            path.first() == current,
            path.last() == best,
        decreases S::cost_rank(best.cost_of()),
    {
        let best_cost = best.cost();
        let neighbors = neighborhood.neighbors(&best);
        let ghost yielded = neighbors@;
        match first_improvement(neighbors, &best_cost) {
            Some(improvement) => {
                proof {
                    let index = choose|index: int|
                        #[trigger] improves_first(yielded, best_cost, index) && yielded[index]
                            == improvement;
                    S::lemma_better_cost_ranks_lower(improvement.cost_of(), best.cost_of());
                    assert(improving_move(neighborhood, best, improvement));
                    let grown = path.push(improvement);
                    assert forall|k: int| 0 <= k < grown.len() - 1 implies #[trigger] improving_move_at(
                        neighborhood,
                        grown,
                        k,
                    ) by {
                        if k < path.len() - 1 {
                            assert(improving_move_at(neighborhood, path, k));
                        }
                    }
                    path = grown;
                }
                best = improvement;
            },
            None => {
                assert(local_optimum(neighborhood, best));
                return best;
            },
        }
    }
}

} // verus!
