use vstd::prelude::*;
use crate::algorithms::greedy::{greedy_run, greedy_step_at, greedy_stops};
use crate::algorithms::traits::{GreedyState, SelectionStrategy};
use crate::problem::bin::{
    lemma_accepted_placement_keeps_packed,
    lemma_fit_keeps_packed,
    BinView,
    BoxBin,
};
use crate::problem::coverage::{lemma_first_fit_into_places, placed_rects};
use crate::problem::first_fit::{at_origin, first_accepting, first_fit_into, lemma_first_accepting};
use crate::problem::instance::{Instance, InstanceView};
use crate::problem::rect::{all_fit, areas_of, distinct_ids, longest_sides, Rect};
use crate::problem::solution::{PackingView, RectangleSolution};

verus! {

/// A packing under construction: the bins filled so far and the rectangles
/// still to be placed.
#[derive(Debug)]
pub struct RectangleGreedyState {
    pub solution: RectangleSolution,
    pub remaining_rects: Vec<Rect>,
}

/// The mathematical content of a packing under construction.
pub struct GreedyView {
    pub solution: PackingView,
    pub remaining: Seq<Rect>,
}

impl View for RectangleGreedyState {
    type V = GreedyView;

    open spec fn view(&self) -> GreedyView {
        GreedyView { solution: self.solution@, remaining: self.remaining_rects@ }
    }
}

/// The index of the first rectangle at or after `from` with identity `id`;
/// the length of the sequence if there is none.
pub open spec fn position_of_id(rects: Seq<Rect>, id: usize, from: int) -> int
    decreases rects.len() - from,
{
    if from < 0 || from >= rects.len() {
        rects.len() as int
    } else if rects[from].id == id {
        from
    } else {
        position_of_id(rects, id, from + 1)
    }
}

/// The sequence without its first rectangle of identity `id`.
pub open spec fn without_id(rects: Seq<Rect>, id: usize) -> Seq<Rect> {
    let k = position_of_id(rects, id, 0);
    if k < rects.len() {
        rects.remove(k)
    } else {
        rects
    }
}

/// The index of the first of the largest keys; zero for an empty sequence.
pub open spec fn first_max_index(keys: Seq<int>) -> int
    decreases keys.len(),
{
    if keys.len() <= 1 {
        0
    } else {
        let k = first_max_index(keys.drop_last());
        if keys.last() > keys[k] {
            keys.len() - 1
        } else {
            k
        }
    }
}

/// The first of the rectangles with the largest key, if there is a rectangle.
pub open spec fn first_largest(rects: Seq<Rect>, keys: Seq<int>) -> Option<Rect> {
    if rects.len() == 0 {
        None
    } else {
        Some(rects[first_max_index(keys)])
    }
}

/// The first maximum is a position of the sequence, no key is larger than the
/// key there, and every key before it is smaller.
pub proof fn lemma_first_max_index(keys: Seq<int>)
    requires
        keys.len() > 0,
    ensures
        0 <= first_max_index(keys) < keys.len(),
        forall|j: int| 0 <= j < keys.len() ==> #[trigger] keys[j] <= keys[first_max_index(keys)],
        forall|j: int|
            0 <= j < first_max_index(keys) ==> #[trigger] keys[j] < keys[first_max_index(keys)],
    decreases keys.len(),
{
    if keys.len() > 1 {
        let front = keys.drop_last();
        lemma_first_max_index(front);
        let k = first_max_index(front);
        assert(front[k] == keys[k]);
        assert forall|j: int| 0 <= j < keys.len() implies #[trigger] keys[j] <= keys[first_max_index(
            keys,
        )] by {
            if j < front.len() {
                assert(front[j] <= front[k]);
            }
        }
        assert forall|j: int| 0 <= j < first_max_index(keys) implies #[trigger] keys[j]
            < keys[first_max_index(keys)] by {
            assert(front[j] == keys[j]);
            if first_max_index(keys) == k {
                assert(front[j] < front[k]);
            } else {
                assert(front[j] <= front[k]);
            }
        }
    }
}

/// The position of an identity lies in the sequence or just past it; the
/// rectangle there has the identity, and none before it has.
pub proof fn lemma_position_of_id(rects: Seq<Rect>, id: usize, from: int)
    requires
        0 <= from <= rects.len(),
    ensures
        from <= position_of_id(rects, id, from) <= rects.len(),
        position_of_id(rects, id, from) < rects.len() ==> rects[position_of_id(
            rects,
            id,
            from,
        )].id == id,
        forall|j: int| from <= j < position_of_id(rects, id, from) ==> (#[trigger] rects[j]).id != id,
    decreases rects.len() - from,
{
    if from < rects.len() && rects[from].id != id {
        lemma_position_of_id(rects, id, from + 1);
    }
}

impl GreedyView {
    /// The state from which the construction for `instance` starts: no bins,
    /// every rectangle still to be placed.
    pub open spec fn start(instance: InstanceView) -> GreedyView {
        GreedyView {
            solution: PackingView { instance, boxes: Seq::empty(), penalty_factor: None },
            remaining: instance.rects,
        }
    }

    /// The state after `rect` was applied: the first remaining rectangle of
    /// its identity is struck off, and `rect` is placed by first fit.
    pub open spec fn apply(self, rect: Rect) -> GreedyView {
        GreedyView {
            solution: PackingView {
                boxes: first_fit_into(self.solution.boxes, rect, self.solution.instance.box_size),
                ..self.solution
            },
            remaining: without_id(self.remaining, rect.id),
        }
    }

    /// The rectangles placed and those remaining are together the rectangles
    /// of the instance, each once.
    pub open spec fn covers_instance(self) -> bool {
        placed_rects(self.solution.boxes).add(self.remaining.to_multiset())
            == self.solution.instance.rects.to_multiset()
    }

    /// The state is one that the construction reaches from the start for an
    /// instance whose rectangles fit the bins and have distinct identities:
    /// the bins are packed, and every rectangle of the instance is either
    /// placed once or remains to be placed.
    pub open spec fn consistent(self) -> bool {
        &&& distinct_ids(self.remaining)
        &&& all_fit(self.remaining, self.solution.instance.box_size)
        &&& self.covers_instance()
        &&& self.solution.packed()
    }

    /// `to` is this state after one of its remaining rectangles was applied.
    pub open spec fn steps_to(self, to: GreedyView) -> bool {
        exists|item: Rect| #[trigger] self.remaining.contains(item) && to == self.apply(item)
    }
}

/// The start state of a well-formed instance is consistent.
pub proof fn lemma_start_is_consistent(instance: InstanceView)
    requires
        instance.well_formed(),
    ensures
        GreedyView::start(instance).consistent(),
{
    broadcast use vstd::multiset::group_multiset_axioms;

    let state = GreedyView::start(instance);
    assert(placed_rects(state.solution.boxes).add(state.remaining.to_multiset())
        =~= instance.rects.to_multiset());
}

/// Applying a rectangle that fits the bins keeps the bins packed.
pub proof fn lemma_apply_keeps_packed(state: GreedyView, rect: Rect)
    requires
        rect.fits_within(state.solution.instance.box_size),
    ensures
        state.solution.packed() ==> state.apply(rect).solution.packed(),
{
    let boxes = state.solution.boxes;
    let capacity = state.solution.instance.box_size;
    let after = state.apply(rect);
    if state.solution.packed() {
        let j = first_accepting(boxes, rect, 0);
        lemma_first_accepting(boxes, rect, 0);
        if j < boxes.len() {
            assert(boxes[j].packed());
            lemma_fit_keeps_packed(boxes[j], rect);
            assert forall|b: int| 0 <= b < after.solution.boxes.len() implies (
            #[trigger] after.solution.boxes[b]).packed() by {
                if b != j {
                    assert(boxes[b].packed());
                }
            }
        } else {
            lemma_accepted_placement_keeps_packed(BinView::empty(capacity), at_origin(rect));
            assert forall|b: int| 0 <= b < after.solution.boxes.len() implies (
            #[trigger] after.solution.boxes[b]).packed() by {
                if b < boxes.len() {
                    assert(boxes[b].packed());
                }
            }
        }
    }
}

/// Applying a remaining rectangle keeps the state consistent and leaves one
/// rectangle less to place.
pub proof fn lemma_apply_keeps_consistent(state: GreedyView, rect: Rect)
    requires
        state.consistent(),
        state.remaining.contains(rect),
    ensures
        state.apply(rect).consistent(),
        state.apply(rect).remaining.len() + 1 == state.remaining.len(),
{
    broadcast use vstd::multiset::group_multiset_axioms;

    let remaining = state.remaining;
    let boxes = state.solution.boxes;
    let capacity = state.solution.instance.box_size;
    let after = state.apply(rect);
    let m = choose|m: int| 0 <= m < remaining.len() && remaining[m] == rect;
    let k = position_of_id(remaining, rect.id, 0);
    lemma_position_of_id(remaining, rect.id, 0);
    assert(k == m) by {
        if k < m {
            assert(remaining[k].id != remaining[m].id);
        }
    }
    assert(after.remaining == remaining.remove(k));
    assert forall|i: int, j: int| 0 <= i < j < after.remaining.len() implies (
    #[trigger] after.remaining[i]).id != (#[trigger] after.remaining[j]).id by {
        let si = if i < k { i } else { i + 1 };
        let sj = if j < k { j } else { j + 1 };
        assert(remaining[si].id != remaining[sj].id);
    }
    assert forall|i: int| 0 <= i < after.remaining.len() implies (
    #[trigger] after.remaining[i]).fits_within(capacity) by {
        let si = if i < k { i } else { i + 1 };
        assert(remaining[si].fits_within(capacity));
    }
    assert(after.covers_instance()) by {
        vstd::seq_lib::to_multiset_remove(remaining, k);
        vstd::seq_lib::to_multiset_contains(remaining, rect);
        lemma_first_fit_into_places(boxes, rect, capacity);
        assert(placed_rects(after.solution.boxes).add(after.remaining.to_multiset())
            =~= placed_rects(boxes).add(remaining.to_multiset()));
    }
    assert(remaining[m].fits_within(capacity));
    lemma_apply_keeps_packed(state, rect);
}

/// What a strategy picks as the first of the largest is one of the remaining
/// rectangles.
pub proof fn lemma_first_largest_remains(rects: Seq<Rect>, keys: Seq<int>)
    requires
        keys.len() == rects.len(),
    ensures
        first_largest(rects, keys) matches Some(item) ==> rects.contains(item),
        first_largest(rects, keys) is None <==> rects.len() == 0,
{
    if rects.len() > 0 {
        lemma_first_max_index(keys);
    }
}

/// The state at `k` leads to the state after it by the application of one of
/// its remaining rectangles.
pub open spec fn steps_at(states: Seq<GreedyView>, k: int) -> bool {
    states[k].steps_to(states[k + 1])
}

/// Along a construction in which every step applies a remaining rectangle, a
/// consistent state is followed by consistent states only.
pub proof fn lemma_steps_keep_consistent(states: Seq<GreedyView>, k: int)
    requires
        states.len() > 0,
        states[0].consistent(),
        forall|i: int| 0 <= i < states.len() - 1 ==> #[trigger] steps_at(states, i),
        0 <= k < states.len(),
    ensures
        states[k].consistent(),
        states[k].solution.instance == states[0].solution.instance,
        states[k].solution.penalty_factor == states[0].solution.penalty_factor,
    decreases k,
{
    if k > 0 {
        lemma_steps_keep_consistent(states, k - 1);
        assert(steps_at(states, k - 1));
        let item = choose|item: Rect| #[trigger]
            states[k - 1].remaining.contains(item) && states[k] == states[k - 1].apply(item);
        lemma_apply_keeps_consistent(states[k - 1], item);
    }
}

/// The contents of a list of states.
pub open spec fn greedy_views(states: Seq<RectangleGreedyState>) -> Seq<GreedyView> {
    Seq::new(states.len(), |i: int| states[i]@)
}

/// The strategy proposes a remaining rectangle as long as there is one.
#[verifier::opaque]
pub open spec fn picks_remaining<S: SelectionStrategy<RectangleGreedyState>>(strategy: &S) -> bool {
    forall|problem: RectangleGreedyState|
        match #[trigger] strategy.choice(&problem) {
            Some(item) => problem@.remaining.contains(item),
            None => problem@.remaining.len() == 0,
        }
}

/// Both strategies of this module propose a remaining rectangle as long as
/// there is one.
pub proof fn lemma_strategies_pick_remaining()
    ensures
        picks_remaining(&SortByAreaStrategy),
        picks_remaining(&SortByMaxSideStrategy),
{
    reveal(picks_remaining);
    assert forall|problem: RectangleGreedyState|
        match #[trigger] SortByAreaStrategy.choice(&problem) {
            Some(item) => problem@.remaining.contains(item),
            None => problem@.remaining.len() == 0,
        } by {
        lemma_first_largest_remains(problem@.remaining, areas_of(problem@.remaining));
    }
    assert forall|problem: RectangleGreedyState|
        match #[trigger] SortByMaxSideStrategy.choice(&problem) {
            Some(item) => problem@.remaining.contains(item),
            None => problem@.remaining.len() == 0,
        } by {
        lemma_first_largest_remains(problem@.remaining, longest_sides(problem@.remaining));
    }
}

/// A construction that starts from the start state of an instance whose
/// rectangles fit the bins and have distinct identities, driven by a
/// strategy that proposes a remaining rectangle as long as there is one, ends
/// only when nothing remains to be placed. The packing it ends with places
/// every rectangle of the instance exactly once, none twice and none left
/// out, and no two rectangles of a bin intersect.
pub proof fn lemma_greedy_places_every_rectangle_once<S: SelectionStrategy<RectangleGreedyState>>(
    strategy: &S,
    states: Seq<RectangleGreedyState>,
)
    requires
        picks_remaining(strategy),
        greedy_run(strategy, states),
        greedy_stops(strategy, states.last()),
        states.first()@.solution.instance.well_formed(),
        states.first()@ == GreedyView::start(states.first()@.solution.instance),
    ensures
        states.last()@.remaining.len() == 0,
        placed_rects(states.last()@.solution.boxes)
            == states.first()@.solution.instance.rects.to_multiset(),
        states.last()@.solution.packed(),
        states.last()@.solution.instance == states.first()@.solution.instance,
        states.last()@.solution.penalty_factor is None,
{
    broadcast use vstd::multiset::group_multiset_axioms;

    reveal(picks_remaining);
    let views = greedy_views(states);
    lemma_start_is_consistent(states.first()@.solution.instance);
    assert forall|i: int| 0 <= i < views.len() - 1 implies #[trigger] steps_at(views, i) by {
        let from = states[i];
        assert(greedy_step_at(strategy, states, i));
        let item = strategy.choice(&from).unwrap();
        assert(from@.remaining.contains(item) && views[i + 1] == views[i].apply(item));
    }
    lemma_steps_keep_consistent(views, views.len() - 1);
    let last = states.last()@;
    assert(views[views.len() - 1] == last);
    assert(strategy.choice(&states.last()) is None ==> last.remaining.len() == 0);
    vstd::seq_lib::to_multiset_len(last.remaining);
    vstd::multiset::lemma_multiset_empty_len(last.remaining.to_multiset());
    assert(placed_rects(last.solution.boxes).add(last.remaining.to_multiset()) =~= placed_rects(
        last.solution.boxes,
    ));
}

/// Packs the rectangles of `instance` one after the other, each by first fit,
/// in the order in which `strategy` proposes them. With a strategy that
/// proposes a remaining rectangle as long as there is one, the packing places
/// every rectangle of the instance exactly once, and no two rectangles of a
/// bin intersect.
pub fn solve_greedy<S: SelectionStrategy<RectangleGreedyState>>(
    instance: Instance,
    strategy: &mut S,
) -> (solution: RectangleSolution)
    requires
        instance@.well_formed(),
        picks_remaining(old(strategy)),
    ensures
        solution@.instance == instance@,
        solution@.penalty_factor is None,
        placed_rects(solution@.boxes) == instance@.rects.to_multiset(),
        solution@.packed(),
        exists|states: Seq<RectangleGreedyState>|
            #[trigger] greedy_run(old(strategy), states) && states.first()@ == GreedyView::start(
                instance@,
            ) && states.last()@.solution == solution@ && states.last()@.remaining.len() == 0,
{
    let mut state = RectangleGreedyState::new(instance);
    let ghost start = state;
    crate::algorithms::greedy::solve(&mut state, strategy);
    proof {
        let states = choose|states: Seq<RectangleGreedyState>|
            #[trigger] greedy_run(old(strategy), states) && states.first() == start
                && states.last() == state;
        lemma_greedy_places_every_rectangle_once(old(strategy), states);
    }
    state.solution
}

impl RectangleGreedyState {
    /// The state from which the construction for `instance` starts.
    pub fn new(instance: Instance) -> (state: Self)
        ensures
            state@ == GreedyView::start(instance@),
            instance@.fits() ==> state.valid(),
    {
        let rects = instance.rects.clone();
        Self { solution: RectangleSolution::new(instance), remaining_rects: rects }
    }
}

impl GreedyState for RectangleGreedyState {
    type Item = Rect;

    open spec fn valid(&self) -> bool {
        all_fit(self@.remaining, self@.solution.instance.box_size)
    }

    open spec fn finished(&self) -> bool {
        self@.remaining.len() == 0
    }

    open spec fn admits(&self, item: Rect) -> bool {
        &&& item.fits_within(self@.solution.instance.box_size)
        &&& position_of_id(self@.remaining, item.id, 0) < self@.remaining.len()
    }

    open spec fn applied(&self, item: Rect, next: &Self) -> bool {
        next@ == self@.apply(item)
    }

    open spec fn pending(&self) -> nat {
        self@.remaining.len()
    }

    fn is_finished(&self) -> (done: bool) {
        self.remaining_rects.is_empty()
    }

    fn apply(&mut self, rect: Rect)
        ensures
            final(self)@ == old(self)@.apply(rect),
            old(self)@.solution.packed() ==> final(self)@.solution.packed(),
            old(self)@.consistent() && old(self)@.remaining.contains(rect)
                ==> final(self)@.consistent(),
    {
        let ghost before = self@;
        proof {
            lemma_apply_keeps_packed(before, rect);
            if before.consistent() && before.remaining.contains(rect) {
                lemma_apply_keeps_consistent(before, rect);
            }
            lemma_position_of_id(before.remaining, rect.id, 0);
            let k = position_of_id(before.remaining, rect.id, 0);
            assert forall|i: int| 0 <= i < before.remaining.remove(k).len() implies (
            #[trigger] before.remaining.remove(k)[i]).fits_within(
                before.solution.instance.box_size,
            ) by {
                let si = if i < k { i } else { i + 1 };
                assert(before.remaining[si].fits_within(before.solution.instance.box_size));
            }
        }
        let mut pos: usize = 0;
        while pos < self.remaining_rects.len() && self.remaining_rects[pos].id != rect.id
            invariant
                pos <= self.remaining_rects.len(),
                self@ == before,
                position_of_id(before.remaining, rect.id, pos as int) == position_of_id(
                    before.remaining,
                    rect.id,
                    0,
                ),
            decreases self.remaining_rects.len() - pos,
        {
            pos += 1;
        }
        if pos < self.remaining_rects.len() {
            self.remaining_rects.remove(pos);
        }
        let capacity: u32 = self.solution.instance.box_size;
        let mut i: usize = 0;
        while i < self.solution.boxes.len()
            invariant
                i <= self.solution.boxes.len(),
                self@.solution == before.solution,
                before == old(self)@,
                before.solution.packed() ==> before.apply(rect).solution.packed(),
                before.consistent() && before.remaining.contains(rect) ==> before.apply(
                    rect,
                ).consistent(),
                rect.fits_within(capacity),
                capacity == before.solution.instance.box_size,
                self@.remaining == without_id(before.remaining, rect.id),
                self@.remaining.len() < before.remaining.len(),
                all_fit(self@.remaining, capacity),
                first_accepting(before.solution.boxes, rect, i as int) == first_accepting(
                    before.solution.boxes,
                    rect,
                    0,
                ),
            decreases self.solution.boxes.len() - i,
        {
            assert(before.solution.boxes[i as int] == self.solution.boxes@[i as int]@);
            if try_place_cp(&mut self.solution.boxes[i], rect) {
                assert(self@.solution.boxes =~= before.solution.boxes.update(
                    i as int,
                    before.solution.boxes[i as int].fit(rect),
                ));
                return ;
            }
            assert(self@.solution.boxes =~= before.solution.boxes);
            i += 1;
        }
        let mut new_bin = BoxBin::new(capacity);
        let placed = new_bin.try_place(rect, 0, 0, false);
        assert(placed);
        self.solution.boxes.push(new_bin);
        assert(self@.solution.boxes =~= before.solution.boxes.push(
            BinView::empty(capacity).with(at_origin(rect)),
        ));
    }
}

/// Puts `rect` into `bin` at the first candidate anchor, in trial order and
/// upright before turned, at which the bin accepts it; reports whether there
/// was one.
pub fn try_place_cp(bin: &mut BoxBin, rect: Rect) -> (placed: bool)
    ensures
        placed == (old(bin)@.find_position(rect) is Some),
        final(bin)@ == old(bin)@.fit(rect),
        old(bin)@.packed() ==> final(bin)@.packed(),
{
    let anchors = bin.candidate_anchors();
    proof {
        assert(anchors@.skip(0) =~= anchors@);
        if bin@.packed() {
            lemma_fit_keeps_packed(bin@, rect);
        }
    }
    let mut i: usize = 0;
    while i < anchors.len()
        invariant
            i <= anchors.len(),
            bin@ == old(bin)@,
            old(bin)@.first_fit(rect, anchors@.skip(i as int)) == old(bin)@.find_position(rect),
        decreases anchors.len() - i,
    {
        let x: u32 = anchors[i].0;
        let y: u32 = anchors[i].1;
        proof {
            assert(anchors@.skip(i as int)[0] == anchors@[i as int]);
            assert(anchors@.skip(i as int).skip(1) =~= anchors@.skip(i + 1));
        }
        if bin.try_place(rect, x, y, false) {
            return true;
        }
        if bin.try_place(rect, x, y, true) {
            return true;
        }
        i += 1;
    }
    false
}

/// Picks the remaining rectangle of the largest area; of several, the first.
pub struct SortByAreaStrategy;

/// Picks the remaining rectangle with the longest side; of several, the first.
pub struct SortByMaxSideStrategy;

/// The first position of the largest of `keys`.
fn first_maximum(keys: &Vec<u64>) -> (best: usize)
    requires
        keys@.len() > 0,
    ensures
        best == first_max_index(keys@.map_values(|k: u64| k as int)),
        best < keys@.len(),
{
    let ghost all = keys@.map_values(|k: u64| k as int);
    let mut best: usize = 0;
    let mut i: usize = 1;
    assert(all.take(1).len() == 1);
    while i < keys.len()
        invariant
            1 <= i <= keys.len(),
            all == keys@.map_values(|k: u64| k as int),
            best < i,
            best == first_max_index(all.take(i as int)),
        decreases keys.len() - i,
    {
        proof {
            assert(all.take(i + 1).drop_last() =~= all.take(i as int));
            assert(all.take(i + 1).last() == keys@[i as int]);
            assert(all.take(i + 1)[best as int] == keys@[best as int]);
        }
        if keys[i] > keys[best] {
            best = i;
        }
        i += 1;
    }
    assert(all.take(all.len() as int) =~= all);
    best
}

impl SelectionStrategy<RectangleGreedyState> for SortByAreaStrategy {
    open spec fn choice(&self, problem: &RectangleGreedyState) -> Option<Rect> {
        first_largest(problem@.remaining, areas_of(problem@.remaining))
    }

    fn next_candidate(&mut self, problem: &RectangleGreedyState) -> (candidate: Option<Rect>) {
        let rects = &problem.remaining_rects;
        if rects.len() == 0 {
            return None;
        }
        let mut keys: Vec<u64> = Vec::new();
        let mut i: usize = 0;
        while i < rects.len()
            invariant
                i <= rects.len(),
                keys@.len() == i,
                forall|k: int| 0 <= k < i ==> #[trigger] keys@[k] == rects@[k].spec_area(),
            decreases rects.len() - i,
        {
            let r = rects[i];
            assert(r.width * r.height <= 0xFFFF_FFFF * 0xFFFF_FFFF) by (nonlinear_arith)
                requires
                    0 <= r.width <= 0xFFFF_FFFF,
                    0 <= r.height <= 0xFFFF_FFFF,
            ;
            keys.push(r.width as u64 * r.height as u64);
            i += 1;
        }
        assert(keys@.map_values(|k: u64| k as int) =~= areas_of(rects@));
        let best = first_maximum(&keys);
        proof {
            lemma_position_of_id(rects@, rects@[best as int].id, 0);
            assert(rects@[best as int].fits_within(problem@.solution.instance.box_size));
        }
        Some(rects[best])
    }
}

impl SelectionStrategy<RectangleGreedyState> for SortByMaxSideStrategy {
    open spec fn choice(&self, problem: &RectangleGreedyState) -> Option<Rect> {
        first_largest(problem@.remaining, longest_sides(problem@.remaining))
    }

    fn next_candidate(&mut self, problem: &RectangleGreedyState) -> (candidate: Option<Rect>) {
        let rects = &problem.remaining_rects;
        if rects.len() == 0 {
            return None;
        }
        let mut keys: Vec<u64> = Vec::new();
        let mut i: usize = 0;
        while i < rects.len()
            invariant
                i <= rects.len(),
                keys@.len() == i,
                forall|k: int| 0 <= k < i ==> #[trigger] keys@[k] == longest_sides(rects@)[k],
            decreases rects.len() - i,
        {
            let r = rects[i];
            let side: u32 = if r.width >= r.height { r.width } else { r.height };
            keys.push(side as u64);
            i += 1;
        }
        assert(keys@.map_values(|k: u64| k as int) =~= longest_sides(rects@));
        let best = first_maximum(&keys);
        proof {
            lemma_position_of_id(rects@, rects@[best as int].id, 0);
            assert(rects@[best as int].fits_within(problem@.solution.instance.box_size));
        }
        Some(rects[best])
    }
}

} // verus!
