use vstd::prelude::*;
use crate::algorithms::local_search::{
    descent,
    improves_first,
    improving_move,
    improving_move_at,
    search_result,
};
use crate::algorithms::traits::{Neighborhood, Solution};
use crate::problem::move_laws::{
    all_moves_keep,
    conserved,
    consolidated,
    lemma_conserved_in_range,
    lemma_moves_keep,
};
use crate::problem::moves::{packing_views, relocation_moves, MoveRule};
use crate::problem::permutation::{PermutationSolution, PermutationView};
use crate::problem::rect::{areas_of, Rect};
use crate::problem::solution::{packing_cost_below, RectangleSolution};
use crate::problem::sums::lemma_sum_swap;
use crate::random::{random_between, thread_rng};

verus! {

/// The neighbors of a packing are the packings in which one rectangle has
/// moved to another bin, to a position where it intersects nothing.
pub struct GeometricNeighborhood;

/// The neighbors of a permutation solution are the sequences in which two
/// rectangles have changed places: all of them, or, where `max_swaps` is set,
/// those of that many pairs of positions drawn at random.
pub struct RuleBasedNeighborhood {
    pub max_swaps: Option<usize>,
}

/// The neighbors of a packing with a penalty factor are the packings in which
/// one rectangle has moved to another bin, to a position where it overlaps no
/// placement by more than `max_overlap_percent` hundredths of the larger of
/// the two rectangles, or, where no other bin has such a position, to a new
/// bin.
pub struct OverlappingNeighborhood {
    pub max_overlap_percent: u32,
}

impl Neighborhood<RectangleSolution> for GeometricNeighborhood {
    open spec fn admits(&self, solution: &RectangleSolution) -> bool {
        true
    }

    open spec fn yields(&self, solution: &RectangleSolution, neighbors: Seq<RectangleSolution>) -> bool {
        packing_views(neighbors) == MoveRule::Strict.moves(solution@)
    }

    fn neighbors(&self, solution: &RectangleSolution) -> (found: Vec<RectangleSolution>)
        ensures
            all_moves_keep(MoveRule::Strict, solution@, packing_views(found@)),
    {
        let found = relocation_moves(solution, MoveRule::Strict);
        proof {
            lemma_moves_keep(MoveRule::Strict, solution@);
            assert forall|i: int| 0 <= i < found@.len() implies (#[trigger] found@[i]).valid() by {
                assert(packing_views(found@)[i] == found@[i]@);
                lemma_conserved_in_range(solution@, found@[i]@);
            }
        }
        found
    }
}

impl Neighborhood<RectangleSolution> for OverlappingNeighborhood {
    open spec fn admits(&self, solution: &RectangleSolution) -> bool {
        solution@.penalty_factor is Some
    }

    open spec fn yields(&self, solution: &RectangleSolution, neighbors: Seq<RectangleSolution>) -> bool {
        packing_views(neighbors) == (MoveRule::Tolerant {
            percent: self.max_overlap_percent,
        }).moves(solution@)
    }

    fn neighbors(&self, solution: &RectangleSolution) -> (found: Vec<RectangleSolution>)
        ensures
            all_moves_keep(
                MoveRule::Tolerant { percent: self.max_overlap_percent },
                solution@,
                packing_views(found@),
            ),
    {
        let rule = MoveRule::Tolerant { percent: self.max_overlap_percent };
        let found = relocation_moves(solution, rule);
        proof {
            lemma_moves_keep(rule, solution@);
            assert forall|i: int| 0 <= i < found@.len() implies (#[trigger] found@[i]).valid()
                && self.admits(&found@[i]) by {
                assert(packing_views(found@)[i] == found@[i]@);
                lemma_conserved_in_range(solution@, found@[i]@);
            }
        }
        found
    }
}

/// An accepted move of the geometric neighborhood strictly lowers the cost.
/// It adds no bin, so that the number of bins never grows from one accepted
/// state to the next; it places the same rectangles as before, and it brings
/// no two placements of a bin to intersect or to overlap.
pub proof fn lemma_geometric_move(from: RectangleSolution, to: RectangleSolution)
    requires
        improving_move(&GeometricNeighborhood, from, to),
    ensures
        packing_cost_below(to@.cost(), from@.cost()),
        to@.boxes.len() <= from@.boxes.len(),
        conserved(from@, to@),
        consolidated(from@, to@),
{
    let (neighbors, index) = choose|neighbors: Seq<RectangleSolution>, index: int|
        GeometricNeighborhood.yields(&from, neighbors) && #[trigger] improves_first(
            neighbors,
            from.cost_of(),
            index,
        ) && neighbors[index] == to;
    lemma_moves_keep(MoveRule::Strict, from@);
    assert(packing_views(neighbors)[index] == to@);
    assert(conserved(from@, MoveRule::Strict.moves(from@)[index]));
}

/// Along a descent of the geometric neighborhood the number of bins never
/// grows, every packing places the rectangles of the first, and a packing
/// without overlap is followed by packings without overlap only.
pub proof fn lemma_geometric_descent(path: Seq<RectangleSolution>, k: int)
    requires
        descent(&GeometricNeighborhood, path),
        0 <= k < path.len(),
    ensures
        0 < k ==> path[k]@.boxes.len() <= path[k - 1]@.boxes.len(),
        0 < k ==> packing_cost_below(path[k]@.cost(), path[k - 1]@.cost()),
        conserved(path[0]@, path[k]@),
        consolidated(path[0]@, path[k]@),
    decreases k,
{
    if k > 0 {
        lemma_geometric_descent(path, k - 1);
        assert(improving_move_at(&GeometricNeighborhood, path, k - 1));
        lemma_geometric_move(path[k - 1], path[k]);
    }
}

/// A local search in the geometric neighborhood that starts from a packing
/// without overlap ends in a packing without overlap; it ends with no more
/// bins than it started with, and with the same rectangles placed.
pub proof fn lemma_geometric_search_keeps_overlap_free(
    start: RectangleSolution,
    end: RectangleSolution,
)
    requires
        search_result(&GeometricNeighborhood, start, end),
    ensures
        start@.overlap_free() ==> end@.overlap_free(),
        start@.packed() ==> end@.packed(),
        end@.boxes.len() <= start@.boxes.len(),
        conserved(start@, end@),
{
    let path = choose|path: Seq<RectangleSolution>| #[trigger]
        descent(&GeometricNeighborhood, path) && path.first() == start && path.last() == end;
    lemma_geometric_descent(path, path.len() - 1);
}

/// Along a descent of an overlap-tolerant neighborhood, from a packing whose
/// rectangles fit the bins, every packing places the rectangles of the first.
pub proof fn lemma_tolerant_descent(
    neighborhood: OverlappingNeighborhood,
    path: Seq<RectangleSolution>,
    k: int,
)
    requires
        descent(&neighborhood, path),
        path[0]@.rects_fit(),
        0 <= k < path.len(),
    ensures
        conserved(path[0]@, path[k]@),
    decreases k,
{
    if k > 0 {
        lemma_tolerant_descent(neighborhood, path, k - 1);
        let from = path[k - 1];
        let to = path[k];
        assert(improving_move_at(&neighborhood, path, k - 1));
        let (neighbors, index) = choose|neighbors: Seq<RectangleSolution>, index: int|
            neighborhood.yields(&from, neighbors) && #[trigger] improves_first(
                neighbors,
                from.cost_of(),
                index,
            ) && neighbors[index] == to;
        let rule = MoveRule::Tolerant { percent: neighborhood.max_overlap_percent };
        lemma_moves_keep(rule, from@);
        assert(packing_views(neighbors)[index] == to@);
        assert(conserved(from@, rule.moves(from@)[index]));
    }
}

/// The sequence with the rectangles at `i` and `j` exchanged.
pub open spec fn swapped(sequence: Seq<Rect>, i: int, j: int) -> Seq<Rect> {
    sequence.update(i, sequence[j]).update(j, sequence[i])
}

impl PermutationView {
    /// The solution with the rectangles at `i` and `j` exchanged.
    pub open spec fn swap(self, i: int, j: int) -> PermutationView {
        PermutationView { sequence: swapped(self.sequence, i, j), ..self }
    }

    /// The exchanges of the rectangle at `i` with those at the positions
    /// after `i` and before `upto`, in the order of these positions.
    pub open spec fn swaps_with(self, i: int, upto: int) -> Seq<PermutationView>
        decreases upto - i,
    {
        if upto <= i + 1 {
            Seq::empty()
        } else {
            self.swaps_with(i, upto - 1).push(self.swap(i, upto - 1))
        }
    }

    /// The exchanges of the rectangles before `upto` with the rectangles
    /// after them.
    pub open spec fn swaps_upto(self, upto: int) -> Seq<PermutationView>
        decreases upto,
    {
        if upto <= 0 {
            Seq::empty()
        } else {
            self.swaps_upto(upto - 1) + self.swaps_with(upto - 1, self.sequence.len() as int)
        }
    }

    /// Every exchange of two rectangles, the pairs of positions in
    /// lexicographic order.
    pub open spec fn all_swaps(self) -> Seq<PermutationView> {
        self.swaps_upto(self.sequence.len() as int)
    }

    /// The exchanges at those of `picks` that name two different positions,
    /// in the order of the picks.
    pub open spec fn picked_swaps(self, picks: Seq<(int, int)>) -> Seq<PermutationView>
        decreases picks.len(),
    {
        if picks.len() == 0 {
            Seq::empty()
        } else {
            let before = self.picked_swaps(picks.drop_last());
            let pick = picks.last();
            if pick.0 != pick.1 {
                before.push(self.swap(pick.0, pick.1))
            } else {
                before
            }
        }
    }

    /// Each of `picks` names two positions of the sequence.
    pub open spec fn picks_in_range(self, picks: Seq<(int, int)>) -> bool {
        forall|k: int|
            0 <= k < picks.len() ==> 0 <= (#[trigger] picks[k]).0 < self.sequence.len() && 0
                <= picks[k].1 < self.sequence.len()
    }
}

/// The contents of a list of permutation solutions.
pub open spec fn permutation_views(solutions: Seq<PermutationSolution>) -> Seq<PermutationView> {
    Seq::new(solutions.len(), |i: int| solutions[i]@)
}

/// Exchanging two rectangles changes neither the rectangles of the sequence
/// nor their summed area.
pub proof fn lemma_swap_keeps_area(perm: PermutationView, i: int, j: int)
    requires
        0 <= i < perm.sequence.len(),
        0 <= j < perm.sequence.len(),
    ensures
        perm.swap(i, j).sequence_area() == perm.sequence_area(),
        perm.swap(i, j).sequence.to_multiset() == perm.sequence.to_multiset(),
        perm.swap(i, j).instance == perm.instance,
        perm.in_range() ==> perm.swap(i, j).in_range(),
{
    broadcast use vstd::multiset::group_multiset_axioms;

    let areas = areas_of(perm.sequence);
    assert(areas_of(perm.swap(i, j).sequence) =~= areas.update(i, areas[j]).update(j, areas[i]));
    lemma_sum_swap(areas, i, j);
    let s = perm.sequence;
    let half = s.update(i, s[j]);
    vstd::seq_lib::to_multiset_update(s, i, s[j]);
    vstd::seq_lib::to_multiset_update(half, j, s[i]);
    vstd::seq_lib::to_multiset_contains(s, s[i]);
    vstd::seq_lib::to_multiset_contains(s, s[j]);
    assert(s.contains(s[i]));
    assert(s.contains(s[j]));
    assert(half[j] == if i == j { s[j] } else { s[j] });
    assert(perm.swap(i, j).sequence.to_multiset() =~= s.to_multiset());
}

impl RuleBasedNeighborhood {
    /// The neighborhood of all exchanges, or, with `max_swaps` set, of that
    /// many exchanges drawn at random.
    pub fn new(max_swaps: Option<usize>) -> (neighborhood: Self)
        ensures
            neighborhood.max_swaps == max_swaps,
    {
        Self { max_swaps }
    }
}

/// A copy of `solution` with the rectangles at `i` and `j` exchanged, if `i`
/// and `j` are two different positions of its sequence.
pub fn swap_neighbor(solution: &PermutationSolution, i: usize, j: usize) -> (neighbor: Option<
    PermutationSolution,
>)
    ensures
        match neighbor {
            Some(swapped) => i != j && i < solution@.sequence.len() && j < solution@.sequence.len()
                && swapped@ == solution@.swap(i as int, j as int),
            None => i == j || i >= solution@.sequence.len() || j >= solution@.sequence.len(),
        },
{
    if i == j || i >= solution.sequence.len() || j >= solution.sequence.len() {
        return None;
    }
    let mut swapped = solution.clone();
    let at_i = swapped.sequence[i];
    let at_j = swapped.sequence[j];
    swapped.sequence[i] = at_j;
    swapped.sequence[j] = at_i;
    assert(swapped@.sequence =~= solution@.swap(i as int, j as int).sequence);
    Some(swapped)
}

impl Neighborhood<PermutationSolution> for RuleBasedNeighborhood {
    open spec fn admits(&self, solution: &PermutationSolution) -> bool {
        true
    }

    open spec fn yields(
        &self,
        solution: &PermutationSolution,
        neighbors: Seq<PermutationSolution>,
    ) -> bool {
        if solution@.sequence.len() < 2 {
            neighbors.len() == 0
        } else {
            match self.max_swaps {
                None => permutation_views(neighbors) == solution@.all_swaps(),
                Some(count) => exists|picks: Seq<(int, int)>|
                    picks.len() == count && #[trigger] solution@.picks_in_range(picks)
                        && permutation_views(neighbors) == solution@.picked_swaps(picks),
            }
        }
    }

    fn neighbors(&self, solution: &PermutationSolution) -> (found: Vec<PermutationSolution>) {
        let n: usize = solution.sequence.len();
        let mut found: Vec<PermutationSolution> = Vec::new();
        if n < 2 {
            return found;
        }
        let ghost perm = solution@;
        assert(permutation_views(found@) =~= Seq::empty());
        match self.max_swaps {
            Some(k) => {
                let mut rng = thread_rng();
                let ghost mut picks: Seq<(int, int)> = Seq::empty();
                let mut round: usize = 0;
                while round < k
                    invariant
                        round <= k,
                        perm == solution@,
                        n == perm.sequence.len(),
                        n >= 2,
                        perm.in_range(),
                        picks.len() == round,
                        perm.picks_in_range(picks),
                        permutation_views(found@) == perm.picked_swaps(picks),
                        forall|m: int| 0 <= m < found@.len() ==> (#[trigger] found@[m]).valid(),
                    decreases k - round,
                {
                    let i: usize = random_between(&mut rng, 0, (n - 1) as u64) as usize;
                    let j: usize = random_between(&mut rng, 0, (n - 1) as u64) as usize;
                    let ghost grown = picks.push((i as int, j as int));
                    proof {
                        assert(grown.drop_last() =~= picks);
                        assert forall|m: int| 0 <= m < grown.len() implies 0 <= (
                        #[trigger] grown[m]).0 < perm.sequence.len() && 0 <= grown[m].1
                            < perm.sequence.len() by {
                            if m < picks.len() {
                                assert(grown[m] == picks[m]);
                            }
                        }
                    }
                    match swap_neighbor(solution, i, j) {
                        Some(swapped) => {
                            let ghost prior = found@;
                            let ghost view = swapped@;
                            proof {
                                lemma_swap_keeps_area(perm, i as int, j as int);
                            }
                            found.push(swapped);
                            assert(permutation_views(found@) =~= permutation_views(prior).push(
                                view,
                            ));
                            assert forall|m: int| 0 <= m < found@.len() implies (
                            #[trigger] found@[m]).valid() by {
                                if m < prior.len() {
                                    assert(found@[m] == prior[m]);
                                }
                            }
                        },
                        None => {},
                    }
                    proof {
                        picks = grown;
                    }
                    round += 1;
                }
                found
            },
            None => {
                let mut i: usize = 0;
                while i < n
                    invariant
                        i <= n,
                        perm == solution@,
                        n == perm.sequence.len(),
                        perm.in_range(),
                        permutation_views(found@) == perm.swaps_upto(i as int),
                        forall|m: int| 0 <= m < found@.len() ==> (#[trigger] found@[m]).valid(),
                    decreases n - i,
                {
                    let ghost done = permutation_views(found@);
                    assert(done + Seq::<PermutationView>::empty() =~= done);
                    let mut j: usize = i + 1;
                    while j < n
                        invariant
                            i < n,
                            i < j <= n,
                            perm == solution@,
                            n == perm.sequence.len(),
                            perm.in_range(),
                            permutation_views(found@) == done + perm.swaps_with(i as int, j as int),
                            forall|m: int| 0 <= m < found@.len() ==> (#[trigger] found@[m]).valid(),
                        decreases n - j,
                    {
                        let ghost part = perm.swaps_with(i as int, j as int);
                        match swap_neighbor(solution, i, j) {
                            Some(swapped) => {
                                let ghost prior = found@;
                                let ghost view = swapped@;
                                proof {
                                    lemma_swap_keeps_area(perm, i as int, j as int);
                                }
                                found.push(swapped);
                                assert(permutation_views(found@) =~= permutation_views(prior).push(
                                    view,
                                ));
                                assert(permutation_views(found@) =~= done + part.push(view));
                                assert forall|m: int| 0 <= m < found@.len() implies (
                                #[trigger] found@[m]).valid() by {
                                    if m < prior.len() {
                                        assert(found@[m] == prior[m]);
                                    }
                                }
                            },
                            None => {},
                        }
                        j += 1;
                    }
                    i += 1;
                }
                found
            },
        }
    }
}

} // verus!
