use vstd::prelude::*;
use crate::problem::bin::{BinView, BoxBin};
use crate::problem::placement::{lemma_overlap_bounds, Placement};
use crate::problem::sums::{
    all_nonnegative,
    lemma_sum_bounded,
    lemma_sum_monotone,
    lemma_sum_nonnegative,
    lemma_sum_push,
    lemma_sum_swap_remove,
    lemma_sum_take_next,
    sum,
};

verus! {

impl BinView {
    /// The areas of the rectangles in the bin, in placement order.
    pub open spec fn rect_areas(self) -> Seq<int> {
        Seq::new(self.placements.len(), |i: int| self.placements[i].rect.spec_area())
    }

    /// The summed area of the rectangles in the bin, counting regions that
    /// several of them cover once for each.
    pub open spec fn used_area(self) -> int {
        sum(self.rect_areas())
    }

    /// The overlap areas of the placement at `index` with each later one.
    pub open spec fn overlaps_after(self, index: int) -> Seq<int> {
        Seq::new(
            (self.placements.len() - index - 1) as nat,
            |k: int| self.placements[index].overlap_area(self.placements[index + 1 + k]),
        )
    }

    /// For each placement, its summed overlap area with the later ones.
    pub open spec fn row_overlaps(self) -> Seq<int> {
        Seq::new(self.placements.len(), |i: int| sum(self.overlaps_after(i)))
    }

    /// The overlap area summed over all unordered pairs of placements.
    pub open spec fn pair_overlap(self) -> int {
        sum(self.row_overlaps())
    }
}

/// Areas and overlaps are not negative, and the pairwise overlap of a bin is
/// at most its used area times the number of its placements.
pub proof fn lemma_bin_measures(bin: BinView)
    ensures
        all_nonnegative(bin.rect_areas()),
        all_nonnegative(bin.row_overlaps()),
        forall|i: int|
            0 <= i < bin.placements.len() ==> all_nonnegative(#[trigger] bin.overlaps_after(i)),
        0 <= bin.used_area(),
        0 <= bin.pair_overlap() <= bin.placements.len() * bin.used_area(),
{
    let n = bin.placements.len() as int;
    let areas = bin.rect_areas();
    assert forall|i: int| 0 <= i < areas.len() implies 0 <= #[trigger] areas[i] by {
        assert(0 <= bin.placements[i].rect.width * bin.placements[i].rect.height)
            by (nonlinear_arith);
    }
    lemma_sum_nonnegative(areas);
    let rows = bin.row_overlaps();
    let scaled = Seq::new(bin.placements.len(), |i: int| n * areas[i]);
    assert forall|i: int| 0 <= i < n implies all_nonnegative(#[trigger] bin.overlaps_after(i))
        && 0 <= rows[i] <= scaled[i] by {
        let row = bin.overlaps_after(i);
        assert forall|k: int| 0 <= k < row.len() implies 0 <= #[trigger] row[k] <= areas[i] by {
            lemma_overlap_bounds(bin.placements[i], bin.placements[i + 1 + k]);
        }
        lemma_sum_nonnegative(row);
        lemma_sum_bounded(row, areas[i]);
        assert(row.len() * areas[i] <= n * areas[i]) by (nonlinear_arith)
            requires
                0 <= row.len() <= n,
                0 <= areas[i],
        ;
    }
    lemma_sum_nonnegative(rows);
    lemma_sum_monotone(rows, scaled);
    lemma_sum_scaled(areas, n);
}

/// Scaling every term scales the sum.
pub proof fn lemma_sum_scaled(terms: Seq<int>, factor: int)
    ensures
        sum(Seq::new(terms.len(), |i: int| factor * terms[i])) == factor * sum(terms),
    decreases terms.len(),
{
    let scaled = Seq::new(terms.len(), |i: int| factor * terms[i]);
    if terms.len() == 0 {
        assert(factor * sum(terms) == 0) by (nonlinear_arith)
            requires
                sum(terms) == 0,
        ;
    } else {
        let front = terms.drop_last();
        assert(scaled.drop_last() =~= Seq::new(front.len(), |i: int| factor * front[i]));
        lemma_sum_scaled(front, factor);
        assert(factor * sum(front) + factor * terms.last() == factor * (sum(front)
            + terms.last())) by (nonlinear_arith);
    }
}

/// Adding a placement adds its rectangle's area to the used area.
pub proof fn lemma_used_area_with(bin: BinView, p: Placement)
    ensures
        bin.with(p).used_area() == bin.used_area() + p.rect.spec_area(),
{
    assert(bin.with(p).rect_areas() =~= bin.rect_areas().push(p.rect.spec_area()));
    lemma_sum_push(bin.rect_areas(), p.rect.spec_area());
}

/// Taking a placement out takes its rectangle's area off the used area.
pub proof fn lemma_used_area_without(bin: BinView, index: int)
    requires
        0 <= index < bin.placements.len(),
    ensures
        bin.without(index).used_area() == bin.used_area() - bin.placements[index].rect.spec_area(),
{
    let areas = bin.rect_areas();
    assert(bin.without(index).rect_areas() =~= areas.update(index, areas.last()).drop_last());
    lemma_sum_swap_remove(areas, index);
}

impl BoxBin {
    /// The summed area of the rectangles in the bin.
    pub fn used_area(&self) -> (area: u32)
        requires
            self@.used_area() <= u32::MAX,
        ensures
            area == self@.used_area(),
    {
        let ghost areas = self@.rect_areas();
        proof {
            lemma_bin_measures(self@);
            lemma_sum_nonnegative(areas);
            assert(areas.take(0) =~= Seq::<int>::empty());
        }
        let mut area: u32 = 0;
        let mut i: usize = 0;
        while i < self.placements.len()
            invariant
                i <= self.placements.len(),
                areas == self@.rect_areas(),
                all_nonnegative(areas),
                area == sum(areas.take(i as int)),
                sum(areas) <= u32::MAX,
                forall|k: int| 0 <= k < areas.len() ==> #[trigger] areas[k] <= sum(areas),
                forall|count: int|
                    0 <= count <= areas.len() ==> 0 <= #[trigger] sum(areas.take(count)) <= sum(
                        areas,
                    ),
            decreases self.placements.len() - i,
        {
            proof {
                lemma_sum_take_next(areas, i as int);
                assert(areas[i as int] == self.placements@[i as int].rect.spec_area());
                assert(sum(areas.take(i + 1)) <= sum(areas));
            }
            area = area + self.placements[i].rect.area();
            i += 1;
        }
        proof {
            assert(areas.take(areas.len() as int) =~= areas);
        }
        area
    }

    /// The overlap area summed over all pairs of placements in the bin.
    pub fn overlap_penalty(&self) -> (penalty: i64)
        requires
            self@.pair_overlap() <= i64::MAX,
        ensures
            penalty == self@.pair_overlap(),
    {
        let ghost rows = self@.row_overlaps();
        proof {
            lemma_bin_measures(self@);
            lemma_sum_nonnegative(rows);
            assert(rows.take(0) =~= Seq::<int>::empty());
        }
        let mut penalty: i64 = 0;
        let mut i: usize = 0;
        while i < self.placements.len()
            invariant
                i <= self.placements.len(),
                rows == self@.row_overlaps(),
                all_nonnegative(rows),
                forall|k: int|
                    0 <= k < self@.placements.len() ==> all_nonnegative(
                        #[trigger] self@.overlaps_after(k),
                    ),
                penalty == sum(rows.take(i as int)),
                sum(rows) <= i64::MAX,
                forall|count: int|
                    0 <= count <= rows.len() ==> 0 <= #[trigger] sum(rows.take(count)) <= sum(rows),
            decreases self.placements.len() - i,
        {
            let ghost row = self@.overlaps_after(i as int);
            proof {
                lemma_sum_take_next(rows, i as int);
                assert(rows[i as int] == sum(row));
                assert(sum(rows.take(i + 1)) <= sum(rows));
                lemma_sum_nonnegative(row);
                assert(row.take(0) =~= Seq::<int>::empty());
            }
            let ghost base = penalty;
            let mut j: usize = i + 1;
            while j < self.placements.len()
                invariant
                    i < j <= self.placements.len(),
                    row == self@.overlaps_after(i as int),
                    all_nonnegative(row),
                    0 <= base,
                    penalty == base + sum(row.take(j - i - 1)),
                    base + sum(row) <= i64::MAX,
                    forall|count: int|
                        0 <= count <= row.len() ==> 0 <= #[trigger] sum(row.take(count)) <= sum(
                            row,
                        ),
                decreases self.placements.len() - j,
            {
                proof {
                    lemma_sum_take_next(row, j - i - 1);
                    assert(sum(row.take(j - i)) <= sum(row));
                    assert(row[j - i - 1] == self@.placements[i as int].overlap_area(
                        self@.placements[j as int],
                    ));
                }
                let intersect: u64 = self.placements[i].overlap(&self.placements[j]);
                if intersect > 0 {
                    penalty = penalty + intersect as i64;
                }
                j += 1;
            }
            proof {
                assert(row.take(row.len() as int) =~= row);
            }
            i += 1;
        }
        proof {
            assert(rows.take(rows.len() as int) =~= rows);
        }
        penalty
    }
}

impl BoxBin {
    /// The summed area of the rectangles in the bin, unless it is beyond
    /// `limit`.
    pub fn used_area_within(&self, limit: u64) -> (area: Option<u64>)
        ensures
            match area {
                Some(a) => a == self@.used_area() && a <= limit,
                None => self@.used_area() > limit,
            },
    {
        let ghost areas = self@.rect_areas();
        proof {
            lemma_bin_measures(self@);
            lemma_sum_nonnegative(areas);
            assert(areas.take(0) =~= Seq::<int>::empty());
        }
        let mut total: u64 = 0;
        let mut i: usize = 0;
        while i < self.placements.len()
            invariant
                i <= self.placements.len(),
                areas == self@.rect_areas(),
                total == sum(areas.take(i as int)),
                total <= limit,
                forall|count: int|
                    0 <= count <= areas.len() ==> 0 <= #[trigger] sum(areas.take(count)) <= sum(
                        areas,
                    ),
            decreases self.placements.len() - i,
        {
            let rect = self.placements[i].rect;
            proof {
                lemma_sum_take_next(areas, i as int);
                assert(sum(areas.take(i + 1)) <= sum(areas));
                assert(areas[i as int] == rect.spec_area());
                assert(rect.width * rect.height <= 0xFFFF_FFFF * 0xFFFF_FFFF) by (nonlinear_arith)
                    requires
                        0 <= rect.width <= 0xFFFF_FFFF,
                        0 <= rect.height <= 0xFFFF_FFFF,
                ;
            }
            let area: u64 = rect.width as u64 * rect.height as u64;
            if area > limit - total {
                return None;
            }
            total = total + area;
            i += 1;
        }
        proof {
            assert(areas.take(areas.len() as int) =~= areas);
        }
        Some(total)
    }
}

} // verus!
