use vstd::prelude::*;

verus! {

/// A candidate solution that local search can score and compare.
pub trait Solution: Sized + Clone {
    /// The score of a solution; lower is better.
    type Cost;

    /// The solution is one whose cost can be computed.
    spec fn valid(&self) -> bool;

    /// The cost of the solution.
    spec fn cost_of(&self) -> Self::Cost;

    /// The strict order on costs: `a` is better than `b`.
    spec fn cost_below(a: Self::Cost, b: Self::Cost) -> bool;

    /// A measure that falls whenever the cost gets better; it bounds the number
    /// of improvements a search can make.
    spec fn cost_rank(c: Self::Cost) -> nat;

    /// A better cost has a lower rank.
    proof fn lemma_better_cost_ranks_lower(a: Self::Cost, b: Self::Cost)
        requires
            Self::cost_below(a, b),
        ensures
            Self::cost_rank(a) < Self::cost_rank(b),
    ;

    /// Computes the cost of the solution.
    fn cost(&self) -> (c: Self::Cost)
        requires
            self.valid(),
        ensures
            c == self.cost_of(),
    ;

    /// Decides the strict order on costs.
    fn cost_less(a: &Self::Cost, b: &Self::Cost) -> (less: bool)
        ensures
            less == Self::cost_below(*a, *b),
    ;
}

/// A rule that lists the solutions reachable from a given one by one move.
pub trait Neighborhood<S: Solution> {
    /// The neighborhood can be asked about `solution`.
    spec fn admits(&self, solution: &S) -> bool;

    /// `neighbors` is a list that `neighbors` may return for `solution`, in
    /// the order in which it returns them.
    spec fn yields(&self, solution: &S, neighbors: Seq<S>) -> bool;

    /// Lists the neighbors of `solution` in the order in which the search is
    /// to try them. Each of them is again a solution the neighborhood can
    /// be asked about.
    fn neighbors(&self, solution: &S) -> (found: Vec<S>)
        requires
            solution.valid(),
            self.admits(solution),
        ensures
            self.yields(solution, found@),
            forall|i: int|
                0 <= i < found@.len() ==> (#[trigger] found@[i]).valid() && self.admits(
                    &found@[i],
                ),
    ;
}

/// A partial solution that a greedy construction extends item by item.
pub trait GreedyState: Sized {
    /// What the construction adds in one step.
    type Item;

    /// The state is one that the construction can work on.
    spec fn valid(&self) -> bool;

    /// Nothing is left to apply.
    spec fn finished(&self) -> bool;

    /// `item` may be applied to this state.
    spec fn admits(&self, item: Self::Item) -> bool;

    /// `next` is this state after `item` was applied to it.
    spec fn applied(&self, item: Self::Item, next: &Self) -> bool;

    /// How many items are still to be applied.
    spec fn pending(&self) -> nat;

    /// Whether nothing is left to apply.
    fn is_finished(&self) -> (done: bool)
        ensures
            done == self.finished(),
    ;

    /// Adds `item` to the partial solution.
    fn apply(&mut self, item: Self::Item)
        requires
            old(self).valid(),
            old(self).admits(item),
        ensures
            final(self).valid(),
            old(self).applied(item, final(self)),
            final(self).pending() < old(self).pending(),
    ;
}

/// A rule that picks the item a greedy construction applies next.
pub trait SelectionStrategy<P: GreedyState> {
    /// What the strategy proposes for `problem`: an item, or nothing when it
    /// has none to offer.
    spec fn choice(&self, problem: &P) -> Option<P::Item>;

    /// Proposes the next item. A proposal is an item the state admits, and
    /// proposing leaves unchanged what the strategy proposes for any state.
    fn next_candidate(&mut self, problem: &P) -> (candidate: Option<P::Item>)
        requires
            problem.valid(),
        ensures
            candidate == old(self).choice(problem),
            candidate matches Some(item) ==> problem.admits(item),
            forall|q: &P| #[trigger] final(self).choice(q) == old(self).choice(q),
    ;
}

} // verus!
