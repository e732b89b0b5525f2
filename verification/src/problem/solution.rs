use vstd::prelude::*;
use crate::algorithms::traits::Solution;
use crate::problem::bin::{BinView, BoxBin};
use crate::problem::instance::{Instance, InstanceView};
use crate::problem::measure::lemma_bin_measures;
use crate::problem::sums::{
    all_nonnegative,
    lemma_sum_at_least,
    lemma_sum_monotone,
    lemma_sum_nonnegative,
    lemma_sum_products,
    lemma_sum_squares,
    lemma_sum_take_next,
    products,
    squares,
    sum,
};

verus! {

/// The contents of a list of bins.
pub open spec fn bin_views(boxes: Seq<BoxBin>) -> Seq<BinView> {
    Seq::new(boxes.len(), |i: int| boxes[i]@)
}

/// The used area of each bin.
pub open spec fn used_areas(boxes: Seq<BinView>) -> Seq<int> {
    Seq::new(boxes.len(), |i: int| boxes[i].used_area())
}

/// The number of placements in each bin.
pub open spec fn placement_counts(boxes: Seq<BinView>) -> Seq<int> {
    Seq::new(boxes.len(), |i: int| boxes[i].placements.len() as int)
}

/// The pairwise overlap area of each bin.
pub open spec fn pair_overlaps(boxes: Seq<BinView>) -> Seq<int> {
    Seq::new(boxes.len(), |i: int| boxes[i].pair_overlap())
}

/// The summed area of all placed rectangles.
pub open spec fn total_area(boxes: Seq<BinView>) -> int {
    sum(used_areas(boxes))
}

/// The number of placements in all bins together.
pub open spec fn total_count(boxes: Seq<BinView>) -> int {
    sum(placement_counts(boxes))
}

/// The squares of the bins' used areas, summed: the fuller the single bins,
/// the larger.
pub open spec fn density(boxes: Seq<BinView>) -> int {
    sum(squares(used_areas(boxes)))
}

/// The overlap area summed over all pairs of placements that share a bin.
pub open spec fn total_overlap(boxes: Seq<BinView>) -> int {
    sum(pair_overlaps(boxes))
}

/// What one bin weighs in the cost of a solution that tolerates overlap: more
/// than any density a bin of this side can reach.
pub open spec fn box_weight(box_size: u32) -> int {
    box_size * box_size * box_size * box_size + 1
}

/// The absolute value.
pub open spec fn magnitude(v: int) -> int {
    if v < 0 { -v } else { v }
}

/// The order on costs: fewer bins are better, and among equal bin counts the
/// lower score.
pub open spec fn packing_cost_below(a: (usize, i64), b: (usize, i64)) -> bool {
    a.0 < b.0 || (a.0 == b.0 && a.1 < b.1)
}

/// A packing: the bins with their placements, the instance they belong to,
/// and the penalty factor whose presence makes overlap a matter of cost.
#[derive(Debug)]
pub struct RectangleSolution {
    pub instance: Instance,
    pub boxes: Vec<BoxBin>,
    pub penalty_factor: Option<i64>,
}

/// The mathematical content of a packing.
pub struct PackingView {
    pub instance: InstanceView,
    pub boxes: Seq<BinView>,
    pub penalty_factor: Option<i64>,
}

impl View for RectangleSolution {
    type V = PackingView;

    open spec fn view(&self) -> PackingView {
        PackingView {
            instance: self.instance@,
            boxes: bin_views(self.boxes@),
            penalty_factor: self.penalty_factor,
        }
    }
}

impl PackingView {
    /// The score of the packing. Without a penalty factor it is the negated
    /// density. With one it is the overlap weighted by the factor, less the
    /// density, plus the weight of the bins.
    pub open spec fn score(self) -> int {
        match self.penalty_factor {
            None => -density(self.boxes),
            Some(factor) => total_overlap(self.boxes) * factor - density(self.boxes)
                + self.boxes.len() * box_weight(self.instance.box_size),
        }
    }

    /// The cost by which packings are compared. With a penalty factor the bin
    /// count is part of the score and the first component is zero.
    pub open spec fn cost(self) -> (usize, i64) {
        match self.penalty_factor {
            None => (self.boxes.len() as usize, self.score() as i64),
            Some(_) => (0usize, self.score() as i64),
        }
    }

    /// No bin is empty.
    pub open spec fn no_empty_bin(self) -> bool {
        forall|b: int| 0 <= b < self.boxes.len() ==> (#[trigger] self.boxes[b]).placements.len() > 0
    }

    /// Every placed rectangle fits an empty bin of the instance.
    pub open spec fn rects_fit(self) -> bool {
        forall|b: int, i: int|
            0 <= b < self.boxes.len() && 0 <= i < self.boxes[b].placements.len() ==> (
            #[trigger] self.boxes[b].placements[i]).rect.fits_within(self.instance.box_size)
    }

    /// Every bin is packed: its placements lie inside it and do not intersect.
    pub open spec fn packed(self) -> bool {
        forall|b: int| 0 <= b < self.boxes.len() ==> (#[trigger] self.boxes[b]).packed()
    }

    /// No bin holds two placements that overlap in a region of positive area.
    pub open spec fn overlap_free(self) -> bool {
        forall|b: int| 0 <= b < self.boxes.len() ==> (#[trigger] self.boxes[b]).overlap_free()
    }

    /// The cost can be computed in 64-bit arithmetic, and so can that of any
    /// packing that holds the same rectangles in the same number of
    /// placements.
    pub open spec fn in_range(self) -> bool {
        let area = total_area(self.boxes);
        let count = total_count(self.boxes);
        match self.penalty_factor {
            None => area * area <= i64::MAX,
            Some(factor) => {
                &&& self.no_empty_bin()
                &&& self.rects_fit()
                &&& box_weight(self.instance.box_size) <= i64::MAX
                &&& count * area <= i64::MAX
                &&& count * area * magnitude(factor as int) + area * area + count * box_weight(
                    self.instance.box_size,
                ) <= i64::MAX
            },
        }
    }
}

/// Areas, counts and overlaps of bins are not negative; the density is at most
/// the square of the total area, and the total overlap at most the total area
/// times the number of placements.
pub proof fn lemma_packing_measures(boxes: Seq<BinView>)
    ensures
        all_nonnegative(used_areas(boxes)),
        all_nonnegative(placement_counts(boxes)),
        all_nonnegative(pair_overlaps(boxes)),
        all_nonnegative(squares(used_areas(boxes))),
        0 <= total_area(boxes),
        0 <= total_count(boxes),
        0 <= density(boxes) <= total_area(boxes) * total_area(boxes),
        0 <= total_overlap(boxes) <= total_count(boxes) * total_area(boxes),
{
    let areas = used_areas(boxes);
    let counts = placement_counts(boxes);
    let overlaps = pair_overlaps(boxes);
    assert forall|i: int| 0 <= i < boxes.len() implies 0 <= #[trigger] areas[i] by {
        lemma_bin_measures(boxes[i]);
    }
    assert forall|i: int| 0 <= i < boxes.len() implies 0 <= #[trigger] overlaps[i] <= products(
        counts,
        areas,
    )[i] by {
        lemma_bin_measures(boxes[i]);
    }
    lemma_sum_nonnegative(areas);
    lemma_sum_nonnegative(counts);
    lemma_sum_nonnegative(overlaps);
    lemma_sum_squares(areas);
    lemma_sum_products(counts, areas);
    lemma_sum_monotone(overlaps, products(counts, areas));
}

/// Where no bin is empty there are at most as many bins as placements.
pub proof fn lemma_bins_at_most_placements(boxes: Seq<BinView>)
    requires
        forall|b: int| 0 <= b < boxes.len() ==> (#[trigger] boxes[b]).placements.len() > 0,
    ensures
        boxes.len() <= total_count(boxes),
{
    let counts = placement_counts(boxes);
    assert forall|i: int| 0 <= i < counts.len() implies 1 <= #[trigger] counts[i] by {
        assert(boxes[i].placements.len() > 0);
    }
    lemma_sum_at_least(counts, 1);
}

/// A total area whose square fits 64 bits fits 32 bits.
pub proof fn lemma_area_fits(area: int)
    requires
        0 <= area,
        area * area <= i64::MAX,
    ensures
        area <= 3037000499,
{
    assert(area <= 3037000499) by (nonlinear_arith)
        requires
            0 <= area,
            area * area <= 9223372036854775807,
    ;
}

/// The negated density of a list of bins.
pub fn density_score(boxes: &Vec<BoxBin>) -> (score: i64)
    requires
        total_area(bin_views(boxes@)) * total_area(bin_views(boxes@)) <= i64::MAX,
    ensures
        score == -density(bin_views(boxes@)),
{
    let ghost views = bin_views(boxes@);
    let ghost areas = used_areas(views);
    let ghost terms = squares(areas);
    proof {
        lemma_packing_measures(views);
        lemma_area_fits(total_area(views));
        lemma_sum_nonnegative(areas);
        lemma_sum_nonnegative(terms);
        assert(terms.take(0) =~= Seq::<int>::empty());
    }
    let mut score: i64 = 0;
    let mut b: usize = 0;
    while b < boxes.len()
        invariant
            b <= boxes.len(),
            views == bin_views(boxes@),
            areas == used_areas(views),
            terms == squares(areas),
            score == -sum(terms.take(b as int)),
            sum(terms) <= i64::MAX,
            forall|k: int| 0 <= k < areas.len() ==> 0 <= #[trigger] areas[k] <= 3037000499,
            forall|count: int|
                0 <= count <= terms.len() ==> 0 <= #[trigger] sum(terms.take(count)) <= sum(terms),
        decreases boxes.len() - b,
    {
        proof {
            lemma_sum_take_next(terms, b as int);
            assert(sum(terms.take(b + 1)) <= sum(terms));
            assert(areas[b as int] == boxes@[b as int]@.used_area());
            assert(terms[b as int] == areas[b as int] * areas[b as int]);
        }
        let used_area: u32 = boxes[b].used_area();
        let used: i64 = used_area as i64;
        assert(used * used == terms[b as int]);
        score = score - used * used;
        b += 1;
    }
    proof {
        assert(terms.take(terms.len() as int) =~= terms);
    }
    score
}

/// The overlap area summed over all pairs of placements that share a bin.
pub fn overlap_score(boxes: &Vec<BoxBin>) -> (total: i64)
    requires
        total_overlap(bin_views(boxes@)) <= i64::MAX,
    ensures
        total == total_overlap(bin_views(boxes@)),
{
    let ghost views = bin_views(boxes@);
    let ghost terms = pair_overlaps(views);
    proof {
        lemma_packing_measures(views);
        lemma_sum_nonnegative(terms);
        assert(terms.take(0) =~= Seq::<int>::empty());
    }
    let mut total: i64 = 0;
    let mut b: usize = 0;
    while b < boxes.len()
        invariant
            b <= boxes.len(),
            views == bin_views(boxes@),
            terms == pair_overlaps(views),
            total == sum(terms.take(b as int)),
            sum(terms) <= i64::MAX,
            forall|k: int| 0 <= k < terms.len() ==> 0 <= #[trigger] terms[k] <= sum(terms),
            forall|count: int|
                0 <= count <= terms.len() ==> 0 <= #[trigger] sum(terms.take(count)) <= sum(terms),
        decreases boxes.len() - b,
    {
        proof {
            lemma_sum_take_next(terms, b as int);
            assert(sum(terms.take(b + 1)) <= sum(terms));
            assert(terms[b as int] == boxes@[b as int]@.pair_overlap());
        }
        let bin_penalty: i64 = boxes[b].overlap_penalty();
        total = total + bin_penalty;
        b += 1;
    }
    proof {
        assert(terms.take(terms.len() as int) =~= terms);
    }
    total
}

/// The bounds that make the score of a packing with a penalty factor
/// computable.
pub proof fn lemma_penalty_score_bounds(packing: PackingView, factor: i64)
    requires
        packing.in_range(),
        packing.penalty_factor == Some(factor),
    ensures
        0 <= total_overlap(packing.boxes) <= i64::MAX,
        -i64::MAX <= total_overlap(packing.boxes) * factor <= i64::MAX,
        total_area(packing.boxes) * total_area(packing.boxes) <= i64::MAX,
        0 <= density(packing.boxes) <= i64::MAX,
        -i64::MAX <= total_overlap(packing.boxes) * factor - density(packing.boxes) <= i64::MAX,
        packing.boxes.len() <= i64::MAX,
        0 <= packing.boxes.len() * box_weight(packing.instance.box_size) <= i64::MAX,
        -i64::MAX <= packing.score() <= i64::MAX,
{
    let boxes = packing.boxes;
    lemma_packing_measures(boxes);
    lemma_bins_at_most_placements(boxes);
    let area = total_area(boxes);
    let count = total_count(boxes);
    let overlap = total_overlap(boxes);
    let dense = density(boxes);
    let weight = box_weight(packing.instance.box_size);
    let n = boxes.len() as int;
    let f = factor as int;
    let m = magnitude(f);
    let reach = count * area * m;
    assert(1 <= weight) by (nonlinear_arith)
        requires
            weight == packing.instance.box_size * packing.instance.box_size
                * packing.instance.box_size * packing.instance.box_size + 1,
            0 <= packing.instance.box_size,
    ;
    assert(0 <= area * area) by (nonlinear_arith);
    assert(0 <= reach && -reach <= overlap * f <= reach && 0 <= overlap <= reach + count * area)
        by (nonlinear_arith)
        requires
            0 <= overlap <= count * area,
            0 <= count,
            0 <= area,
            m == if f < 0 { -f } else { f },
            reach == count * area * m,
    ;
    assert(0 <= n * weight <= count * weight && count <= count * weight) by (nonlinear_arith)
        requires
            0 <= n <= count,
            1 <= weight,
    ;
}

impl RectangleSolution {
    /// The packing of `instance` that has no bins yet.
    pub fn new(instance: Instance) -> (solution: Self)
        ensures
            solution@ == (PackingView {
                instance: instance@,
                boxes: Seq::empty(),
                penalty_factor: None,
            }),
    {
        let solution = Self { instance, boxes: Vec::new(), penalty_factor: None };
        assert(solution@.boxes =~= Seq::empty());
        solution
    }

    /// The same packing, scored with overlap penalized by `factor`.
    pub fn with_penalty(self, factor: i64) -> (solution: Self)
        ensures
            solution@ == (PackingView { penalty_factor: Some(factor), ..self@ }),
    {
        let mut solution = self;
        solution.penalty_factor = Some(factor);
        solution
    }
}

impl Clone for RectangleSolution {
    fn clone(&self) -> (copy: Self)
        ensures
            copy@ == self@,
    {
        let copy = RectangleSolution {
            instance: self.instance.clone(),
            boxes: self.boxes.clone(),
            penalty_factor: self.penalty_factor,
        };
        assert(copy@.boxes =~= self@.boxes);
        copy
    }
}

impl Solution for RectangleSolution {
    type Cost = (usize, i64);

    open spec fn valid(&self) -> bool {
        self@.in_range()
    }

    open spec fn cost_of(&self) -> (usize, i64) {
        self@.cost()
    }

    open spec fn cost_below(a: (usize, i64), b: (usize, i64)) -> bool {
        packing_cost_below(a, b)
    }

    open spec fn cost_rank(c: (usize, i64)) -> nat {
        (c.0 * 0x1_0000_0000_0000_0000 + (c.1 + 0x8000_0000_0000_0000)) as nat
    }

    proof fn lemma_better_cost_ranks_lower(a: (usize, i64), b: (usize, i64)) {
    }

    fn cost(&self) -> (c: (usize, i64)) {
        let num_boxes: usize = self.boxes.len();
        match self.penalty_factor {
            Some(penalty_factor) => {
                proof {
                    lemma_penalty_score_bounds(self@, penalty_factor);
                }
                let total_penalty: i64 = overlap_score(&self.boxes);
                let density_score: i64 = density_score(&self.boxes);
                let box_weight: i64 = weight_of(self.instance.box_size);
                let score: i64 = total_penalty * penalty_factor + density_score + (num_boxes as i64)
                    * box_weight;
                (0, score)
            },
            None => {
                proof {
                    lemma_packing_measures(self@.boxes);
                }
                (num_boxes, density_score(&self.boxes))
            },
        }
    }

    fn cost_less(a: &(usize, i64), b: &(usize, i64)) -> (less: bool) {
        a.0 < b.0 || (a.0 == b.0 && a.1 < b.1)
    }
}

/// The weight of one bin of side `box_size`.
pub fn weight_of(box_size: u32) -> (weight: i64)
    requires
        box_weight(box_size) <= i64::MAX,
    ensures
        weight == box_weight(box_size),
{
    let side: i64 = box_size as i64;
    proof {
        assert(0 <= side * side <= side * side * side * side && 0 <= side * side * side <= side
            * side * side * side) by (nonlinear_arith)
            requires
                0 <= side,
        ;
    }
    side * side * side * side + 1
}

/// The largest total area whose square fits 64 bits.
pub const AREA_LIMIT: u64 = 3_037_000_499;

/// The largest bin side for which the weight of a bin fits 64 bits.
pub const SIDE_LIMIT: u32 = 55_108;

/// A total area has a square that fits 64 bits exactly if it is within the
/// area limit, and a bin has a weight that fits 64 bits exactly if its side is
/// within the side limit.
pub proof fn lemma_limits(area: int, box_size: u32)
    requires
        0 <= area,
    ensures
        area * area <= i64::MAX <==> area <= AREA_LIMIT,
        box_weight(box_size) <= i64::MAX <==> box_size <= SIDE_LIMIT,
{
    assert(area * area <= 9223372036854775807 <==> area <= 3037000499) by (nonlinear_arith)
        requires
            0 <= area,
    ;
    let side = box_size as int;
    assert(side * side * side * side + 1 <= 9223372036854775807 <==> side <= 55108)
        by (nonlinear_arith)
        requires
            0 <= side,
    ;
}

/// The summed area of all placed rectangles, unless it is beyond the area
/// limit.
fn area_within_limit(boxes: &Vec<BoxBin>) -> (area: Option<u64>)
    ensures
        match area {
            Some(a) => a == total_area(bin_views(boxes@)) && a <= AREA_LIMIT,
            None => total_area(bin_views(boxes@)) > AREA_LIMIT,
        },
{
    let ghost views = bin_views(boxes@);
    let ghost areas = used_areas(views);
    proof {
        lemma_packing_measures(views);
        lemma_sum_nonnegative(areas);
        assert(areas.take(0) =~= Seq::<int>::empty());
    }
    let mut total: u64 = 0;
    let mut b: usize = 0;
    while b < boxes.len()
        invariant
            b <= boxes.len(),
            views == bin_views(boxes@),
            areas == used_areas(views),
            total == sum(areas.take(b as int)),
            total <= AREA_LIMIT,
            forall|k: int| 0 <= k < areas.len() ==> 0 <= #[trigger] areas[k] <= sum(areas),
            forall|count: int|
                0 <= count <= areas.len() ==> 0 <= #[trigger] sum(areas.take(count)) <= sum(areas),
        decreases boxes.len() - b,
    {
        proof {
            lemma_sum_take_next(areas, b as int);
            assert(sum(areas.take(b + 1)) <= sum(areas));
            assert(areas[b as int] == boxes@[b as int]@.used_area());
        }
        match boxes[b].used_area_within(AREA_LIMIT) {
            Some(used) => {
                if used > AREA_LIMIT - total {
                    return None;
                }
                total = total + used;
            },
            None => {
                return None;
            },
        }
        b += 1;
    }
    proof {
        assert(areas.take(areas.len() as int) =~= areas);
    }
    Some(total)
}

/// The number of placements in all bins, unless it is beyond what 63 bits
/// hold.
fn count_within_limit(boxes: &Vec<BoxBin>) -> (count: Option<u64>)
    ensures
        match count {
            Some(c) => c == total_count(bin_views(boxes@)) && c <= i64::MAX,
            None => total_count(bin_views(boxes@)) > i64::MAX,
        },
{
    let ghost views = bin_views(boxes@);
    let ghost counts = placement_counts(views);
    proof {
        lemma_packing_measures(views);
        lemma_sum_nonnegative(counts);
        assert(counts.take(0) =~= Seq::<int>::empty());
    }
    let mut total: u64 = 0;
    let mut b: usize = 0;
    while b < boxes.len()
        invariant
            b <= boxes.len(),
            views == bin_views(boxes@),
            counts == placement_counts(views),
            total == sum(counts.take(b as int)),
            total <= i64::MAX,
            forall|count: int|
                0 <= count <= counts.len() ==> 0 <= #[trigger] sum(counts.take(count)) <= sum(
                    counts,
                ),
        decreases boxes.len() - b,
    {
        proof {
            lemma_sum_take_next(counts, b as int);
            assert(sum(counts.take(b + 1)) <= sum(counts));
            assert(counts[b as int] == boxes@[b as int]@.placements.len());
        }
        let here: u64 = boxes[b].placements.len() as u64;
        if here > 0x7FFF_FFFF_FFFF_FFFF - total {
            return None;
        }
        total = total + here;
        b += 1;
    }
    proof {
        assert(counts.take(counts.len() as int) =~= counts);
    }
    Some(total)
}

impl RectangleSolution {
    /// Whether no bin is empty.
    pub fn has_no_empty_bin(&self) -> (none: bool)
        ensures
            none == self@.no_empty_bin(),
    {
        let mut b: usize = 0;
        while b < self.boxes.len()
            invariant
                b <= self.boxes.len(),
                forall|k: int| 0 <= k < b ==> (#[trigger] self@.boxes[k]).placements.len() > 0,
            decreases self.boxes.len() - b,
        {
            if self.boxes[b].placements.len() == 0 {
                assert(self@.boxes[b as int].placements.len() == 0);
                return false;
            }
            assert(self@.boxes[b as int] == self.boxes@[b as int]@);
            b += 1;
        }
        true
    }

    /// Whether every placed rectangle fits an empty bin of the instance.
    pub fn rects_fit_bins(&self) -> (fit: bool)
        ensures
            fit == self@.rects_fit(),
    {
        let capacity: u32 = self.instance.box_size;
        let mut b: usize = 0;
        while b < self.boxes.len()
            invariant
                b <= self.boxes.len(),
                capacity == self@.instance.box_size,
                forall|k: int, i: int|
                    0 <= k < b && 0 <= i < self@.boxes[k].placements.len() ==> (
                    #[trigger] self@.boxes[k].placements[i]).rect.fits_within(capacity),
            decreases self.boxes.len() - b,
        {
            assert(self@.boxes[b as int] == self.boxes@[b as int]@);
            let mut i: usize = 0;
            while i < self.boxes[b].placements.len()
                invariant
                    b < self.boxes.len(),
                    i <= self.boxes[b as int].placements.len(),
                    capacity == self@.instance.box_size,
                    self@.boxes[b as int] == self.boxes@[b as int]@,
                    forall|k: int|
                        0 <= k < i ==> (#[trigger] self@.boxes[b as int].placements[k]).rect.fits_within(
                            capacity,
                        ),
                decreases self.boxes[b as int].placements.len() - i,
            {
                let rect = self.boxes[b].placements[i].rect;
                if rect.width > capacity || rect.height > capacity {
                    assert(!self@.boxes[b as int].placements[i as int].rect.fits_within(capacity));
                    return false;
                }
                i += 1;
            }
            b += 1;
        }
        true
    }

    /// Whether the cost of the packing can be computed in 64-bit arithmetic,
    /// as `cost` and the neighborhoods require.
    pub fn cost_in_range(&self) -> (fits: bool)
        ensures
            fits == self@.in_range(),
    {
        let ghost boxes = self@.boxes;
        let ghost area_total = total_area(boxes);
        let ghost count_total = total_count(boxes);
        let ghost weight_total = box_weight(self@.instance.box_size);
        proof {
            lemma_packing_measures(boxes);
            lemma_limits(area_total, self@.instance.box_size);
            assert(0 <= area_total * area_total) by (nonlinear_arith);
            assert(1 <= weight_total) by (nonlinear_arith)
                requires
                    weight_total == self@.instance.box_size * self@.instance.box_size
                        * self@.instance.box_size * self@.instance.box_size + 1,
                    0 <= self@.instance.box_size,
            ;
            assert(0 <= count_total * weight_total && count_total <= count_total * weight_total)
                by (nonlinear_arith)
                requires
                    0 <= count_total,
                    1 <= weight_total,
            ;
            if self@.penalty_factor is Some {
                let m = magnitude(self@.penalty_factor.unwrap() as int);
                assert(0 <= count_total * area_total * m) by (nonlinear_arith)
                    requires
                        0 <= count_total,
                        0 <= area_total,
                        0 <= m,
                ;
            }
        }
        let area: u64 = match area_within_limit(&self.boxes) {
            Some(a) => a,
            None => {
                return false;
            },
        };
        match self.penalty_factor {
            None => true,
            Some(factor) => {
                if !self.has_no_empty_bin() || !self.rects_fit_bins() {
                    return false;
                }
                if self.instance.box_size > SIDE_LIMIT {
                    return false;
                }
                let count: u64 = match count_within_limit(&self.boxes) {
                    Some(c) => c,
                    None => {
                        return false;
                    },
                };
                let weight: u128 = weight_of(self.instance.box_size) as u128;
                let magnitude: u128 = if factor < 0 {
                    (-(factor as i128)) as u128
                } else {
                    factor as u128
                };
                assert((count as u128) * (area as u128) <= 0x7FFF_FFFF_FFFF_FFFF
                    * 0xFFFF_FFFF) by (nonlinear_arith)
                    requires
                        count <= 0x7FFF_FFFF_FFFF_FFFF,
                        area <= 0xFFFF_FFFF,
                ;
                let spread: u128 = (count as u128) * (area as u128);
                if spread > 0x7FFF_FFFF_FFFF_FFFF {
                    return false;
                }
                assert(spread * magnitude <= 0x7FFF_FFFF_FFFF_FFFF * 0x8000_0000_0000_0000
                    && (area as u128) * (area as u128) <= 0xFFFF_FFFF * 0xFFFF_FFFF && (
                count as u128) * weight <= 0x7FFF_FFFF_FFFF_FFFF * 0x7FFF_FFFF_FFFF_FFFF)
                    by (nonlinear_arith)
                    requires
                        spread <= 0x7FFF_FFFF_FFFF_FFFF,
                        magnitude <= 0x8000_0000_0000_0000,
                        area <= 0xFFFF_FFFF,
                        count <= 0x7FFF_FFFF_FFFF_FFFF,
                        weight <= 0x7FFF_FFFF_FFFF_FFFF,
                ;
                let bound: u128 = spread * magnitude + (area as u128) * (area as u128) + (
                count as u128) * weight;
                bound <= 0x7FFF_FFFF_FFFF_FFFF
            },
        }
    }
}

} // verus!
