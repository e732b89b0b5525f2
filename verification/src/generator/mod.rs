//! Random instances and random starting sequences.
use vstd::prelude::*;
use crate::problem::instance::Instance;
use crate::problem::permutation::PermutationSolution;
use crate::problem::rect::Rect;
use crate::random::{random_between, shuffle_rects, thread_rng};

verus! {

/// Draws instances at random.
pub struct Generator;

impl Generator {
    /// An instance of `num_rects` rectangles for bins of side `box_size`.
    /// Each width is drawn from `width_range` and each height from
    /// `height_range`, both bounds included; the rectangles are numbered in
    /// the order in which they are drawn. The ranges must not be empty, and
    /// where a rectangle is drawn at all they must not reach beyond the
    /// bins.
    pub fn generate_instance(
        num_rects: usize,
        width_range: (u32, u32),
        height_range: (u32, u32),
        box_size: u32,
    ) -> (instance: Instance)
        requires
            width_range.0 <= width_range.1,
            height_range.0 <= height_range.1,
            num_rects > 0 ==> width_range.1 <= box_size && height_range.1 <= box_size,
        ensures
            instance@.box_size == box_size,
            instance@.rects.len() == num_rects,
            forall|i: int|
                0 <= i < num_rects ==> {
                    &&& (#[trigger] instance@.rects[i]).id == i
                    &&& width_range.0 <= instance@.rects[i].width <= width_range.1
                    &&& height_range.0 <= instance@.rects[i].height <= height_range.1
                },
            instance@.well_formed(),
    {
        let mut rng = thread_rng();
        let mut rects: Vec<Rect> = Vec::new();
        let min_w: u32 = width_range.0;
        let max_w: u32 = width_range.1;
        let min_h: u32 = height_range.0;
        let max_h: u32 = height_range.1;
        let mut i: usize = 0;
        while i < num_rects
            invariant
                i <= num_rects,
                min_w <= max_w,
                min_h <= max_h,
                num_rects > 0 ==> max_w <= box_size && max_h <= box_size,
                rects@.len() == i,
                forall|k: int|
                    0 <= k < i ==> {
                        &&& (#[trigger] rects@[k]).id == k
                        &&& min_w <= rects@[k].width <= max_w
                        &&& min_h <= rects@[k].height <= max_h
                    },
            decreases num_rects - i,
        {
            let width: u32 = random_between(&mut rng, min_w as u64, max_w as u64) as u32;
            let height: u32 = random_between(&mut rng, min_h as u64, max_h as u64) as u32;
            rects.push(Rect::new(i, width, height));
            i += 1;
        }
        Instance::new(box_size, rects)
    }

    /// A permutation solution for `instance` whose sequence holds the
    /// rectangles of the instance in a random order.
    pub fn shuffled_sequence(instance: &Instance) -> (solution: PermutationSolution)
        ensures
            solution@.instance == instance@,
            solution@.sequence.to_multiset() == instance@.rects.to_multiset(),
            solution@.sequence.len() == instance@.rects.len(),
    {
        let mut rects_perm = instance.rects.clone();
        let mut rng = thread_rng();
        shuffle_rects(&mut rects_perm, &mut rng);
        proof {
            vstd::seq_lib::to_multiset_len(rects_perm@);
            vstd::seq_lib::to_multiset_len(instance@.rects);
        }
        PermutationSolution::new(instance.clone(), rects_perm)
    }
}

} // verus!
