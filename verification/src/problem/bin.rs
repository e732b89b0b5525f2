use vstd::prelude::*;
use crate::problem::placement::Placement;
use crate::problem::rect::Rect;

verus! {

/// A square bin of side `capacity` and the placements laid into it, in the
/// order in which they were added.
#[derive(Debug)]
pub struct BoxBin {
    pub capacity: u32,
    pub placements: Vec<Placement>,
}

/// The mathematical content of a bin.
pub struct BinView {
    pub capacity: u32,
    pub placements: Seq<Placement>,
}

impl View for BoxBin {
    type V = BinView;

    open spec fn view(&self) -> BinView {
        BinView { capacity: self.capacity, placements: self.placements@ }
    }
}

/// The order in which anchors are tried: lower first, and among anchors of one
/// height the one further left first.
pub open spec fn anchor_before(a: (u32, u32), b: (u32, u32)) -> bool {
    a.1 < b.1 || (a.1 == b.1 && a.0 < b.0)
}

/// The anchors stand in strictly ascending trial order, so none occurs twice.
pub open spec fn anchors_ascending(anchors: Seq<(u32, u32)>) -> bool {
    forall|i: int, j: int| 0 <= i < j < anchors.len() ==> anchor_before(anchors[i], anchors[j])
}

impl BinView {
    /// A bin of the given side with nothing in it.
    pub open spec fn empty(capacity: u32) -> BinView {
        BinView { capacity, placements: Seq::empty() }
    }

    /// The bin with `p` added last, whether or not it collides.
    pub open spec fn with(self, p: Placement) -> BinView {
        BinView { capacity: self.capacity, placements: self.placements.push(p) }
    }

    /// The bin with the placement at `index` taken out and the last placement
    /// moved into its slot.
    pub open spec fn without(self, index: int) -> BinView {
        BinView {
            capacity: self.capacity,
            placements: self.placements.update(index, self.placements.last()).drop_last(),
        }
    }

    /// `p` does not reach beyond the bin's right or top edge.
    pub open spec fn holds(self, p: Placement) -> bool {
        p.right() <= self.capacity && p.top() <= self.capacity
    }

    /// `p` intersects none of the placements already in the bin.
    pub open spec fn clear_of(self, p: Placement) -> bool {
        forall|i: int| 0 <= i < self.placements.len() ==> !p.spec_intersects(self.placements[i])
    }

    /// `p` may be added: it lies inside the bin and collides with nothing.
    pub open spec fn accepts(self, p: Placement) -> bool {
        self.holds(p) && self.clear_of(p)
    }

    /// The bin after an attempt to add `p`.
    pub open spec fn place(self, p: Placement) -> BinView {
        if self.accepts(p) { self.with(p) } else { self }
    }

    /// Every placement lies inside the bin and no two of them intersect.
    pub open spec fn packed(self) -> bool {
        &&& forall|i: int| 0 <= i < self.placements.len() ==> self.holds(#[trigger] self.placements[i])
        &&& forall|i: int, j: int|
            0 <= i < self.placements.len() && 0 <= j < self.placements.len() && i != j
                ==> !self.placements[i].spec_intersects(self.placements[j])
    }

    /// No two placements cover a common region of positive area.
    pub open spec fn overlap_free(self) -> bool {
        forall|i: int, j: int|
            0 <= i < self.placements.len() && 0 <= j < self.placements.len() && i != j
                ==> self.placements[i].overlap_area(self.placements[j]) == 0
    }

    /// `c` is the lower-right or the upper-left corner of the placement at
    /// `index` and lies strictly inside the bin.
    pub open spec fn corner_anchor(self, index: int, c: (u32, u32)) -> bool {
        let p = self.placements[index];
        &&& c.0 < self.capacity
        &&& c.1 < self.capacity
        &&& (c.0 == p.right() && c.1 == p.y) || (c.0 == p.x && c.1 == p.top())
    }

    /// `c` is the origin or a corner anchor of one of the first `count`
    /// placements.
    pub open spec fn anchor_among(self, count: int, c: (u32, u32)) -> bool {
        c == (0u32, 0u32) || exists|i: int| 0 <= i < count && self.corner_anchor(i, c)
    }

    /// `c` is a candidate anchor of the bin: the origin, or a corner anchor of
    /// one of its placements.
    pub open spec fn is_anchor(self, c: (u32, u32)) -> bool {
        self.anchor_among(self.placements.len() as int, c)
    }

    /// `anchors` holds each candidate anchor of the bin once, in trial order.
    pub open spec fn lists_anchors(self, anchors: Seq<(u32, u32)>) -> bool {
        &&& anchors_ascending(anchors)
        &&& forall|c: (u32, u32)| anchors.contains(c) <==> self.is_anchor(c)
    }

    /// The candidate anchors of the bin in trial order.
    pub open spec fn anchors(self) -> Seq<(u32, u32)> {
        choose|anchors: Seq<(u32, u32)>| self.lists_anchors(anchors)
    }

    /// The first position among `anchors` at which the bin accepts `rect`,
    /// trying each anchor upright before turned.
    pub open spec fn first_fit(self, rect: Rect, anchors: Seq<(u32, u32)>) -> Option<
        (u32, u32, bool),
    >
        decreases anchors.len(),
    {
        if anchors.len() == 0 {
            None
        } else {
            let x = anchors[0].0;
            let y = anchors[0].1;
            if self.accepts(Placement { rect, x, y, rotated: false }) {
                Some((x, y, false))
            } else if self.accepts(Placement { rect, x, y, rotated: true }) {
                Some((x, y, true))
            } else {
                self.first_fit(rect, anchors.skip(1))
            }
        }
    }

    /// Where the bottom-left search puts `rect` in this bin, if anywhere.
    pub open spec fn find_position(self, rect: Rect) -> Option<(u32, u32, bool)> {
        self.first_fit(rect, self.anchors())
    }

    /// The bin after the bottom-left search for `rect`: with the rectangle at
    /// the position found, or unchanged.
    pub open spec fn fit(self, rect: Rect) -> BinView {
        match self.find_position(rect) {
            Some(pos) => self.with(Placement { rect, x: pos.0, y: pos.1, rotated: pos.2 }),
            None => self,
        }
    }
}

/// An ascending list with `c` put in at its place, unless it is there
/// already.
pub open spec fn with_anchor(anchors: Seq<(u32, u32)>, c: (u32, u32)) -> Seq<(u32, u32)>
    decreases anchors.len(),
{
    if anchors.len() == 0 {
        seq![c]
    } else if anchor_before(anchors.last(), c) {
        anchors.push(c)
    } else if anchors.last() == c {
        anchors
    } else {
        with_anchor(anchors.drop_last(), c).push(anchors.last())
    }
}

/// The origin and the corner anchors of the first `count` placements of a
/// bin, in trial order.
pub open spec fn anchors_of_first(bin: BinView, count: int) -> Seq<(u32, u32)>
    decreases count,
{
    if count <= 0 {
        seq![(0u32, 0u32)]
    } else {
        let before = anchors_of_first(bin, count - 1);
        let p = bin.placements[count - 1];
        let beside = if p.right() < bin.capacity && p.y < bin.capacity {
            with_anchor(before, (p.right() as u32, p.y))
        } else {
            before
        };
        if p.x < bin.capacity && p.top() < bin.capacity {
            with_anchor(beside, (p.x, p.top() as u32))
        } else {
            beside
        }
    }
}

/// Putting an anchor into an ascending list leaves the list ascending and
/// adds that anchor to its members, and nothing else.
pub proof fn lemma_with_anchor(anchors: Seq<(u32, u32)>, c: (u32, u32))
    requires
        anchors_ascending(anchors),
    ensures
        anchors_ascending(with_anchor(anchors, c)),
        forall|d: (u32, u32)|
            #![trigger with_anchor(anchors, c).contains(d)]
            #![trigger anchors.contains(d)]
            with_anchor(anchors, c).contains(d) <==> (d == c || anchors.contains(d)),
    decreases anchors.len(),
{
    let after = with_anchor(anchors, c);
    if anchors.len() == 0 {
        assert(after[0] == c);
    } else if anchor_before(anchors.last(), c) {
        assert forall|i: int, j: int| 0 <= i < j < after.len() implies anchor_before(
            after[i],
            after[j],
        ) by {
            if j < anchors.len() {
                assert(anchor_before(anchors[i], anchors[j]));
            } else if i < anchors.len() - 1 {
                assert(anchor_before(anchors[i], anchors[anchors.len() - 1]));
            }
        }
        assert forall|d: (u32, u32)| after.contains(d) <==> (d == c || anchors.contains(d)) by {
            if after.contains(d) {
                let m = choose|m: int| 0 <= m < after.len() && after[m] == d;
                if m < anchors.len() {
                    assert(anchors[m] == d);
                }
            }
            if d == c {
                assert(after[anchors.len() as int] == d);
            }
            if anchors.contains(d) {
                let m = choose|m: int| 0 <= m < anchors.len() && anchors[m] == d;
                assert(after[m] == d);
            }
        }
    } else if anchors.last() == c {
        assert(anchors[anchors.len() - 1] == c);
    } else {
        let front = anchors.drop_last();
        let last = anchors.last();
        assert(anchors_ascending(front)) by {
            assert forall|i: int, j: int| 0 <= i < j < front.len() implies anchor_before(
                front[i],
                front[j],
            ) by {
                assert(anchor_before(anchors[i], anchors[j]));
            }
        }
        lemma_with_anchor(front, c);
        let inner = with_anchor(front, c);
        assert forall|i: int, j: int| 0 <= i < j < after.len() implies anchor_before(
            after[i],
            after[j],
        ) by {
            if j < inner.len() {
                assert(anchor_before(inner[i], inner[j]));
            } else {
                assert(inner.contains(inner[i]));
                assert(inner[i] == c || front.contains(inner[i]));
                if inner[i] != c {
                    let m = choose|m: int| 0 <= m < front.len() && front[m] == inner[i];
                    assert(anchor_before(anchors[m], anchors[anchors.len() - 1]));
                }
            }
        }
        assert forall|d: (u32, u32)| after.contains(d) <==> (d == c || anchors.contains(d)) by {
            if after.contains(d) {
                let m = choose|m: int| 0 <= m < after.len() && after[m] == d;
                if m < inner.len() {
                    assert(inner.contains(inner[m]));
                    if d != c {
                        let k = choose|k: int| 0 <= k < front.len() && front[k] == d;
                        assert(anchors[k] == d);
                    }
                } else {
                    assert(anchors[anchors.len() - 1] == d);
                }
            }
            if d == c {
                assert(inner.contains(c));
                let k = choose|k: int| 0 <= k < inner.len() && inner[k] == c;
                assert(after[k] == c);
            }
            if anchors.contains(d) {
                let m = choose|m: int| 0 <= m < anchors.len() && anchors[m] == d;
                if m < front.len() {
                    assert(front[m] == d);
                    assert(front.contains(d));
                    assert(inner.contains(d));
                    let k = choose|k: int| 0 <= k < inner.len() && inner[k] == d;
                    assert(after[k] == d);
                } else {
                    assert(after[inner.len() as int] == d);
                }
            }
        }
    }
}

/// The anchors of the first placements, as listed, are these anchors, each
/// once and in trial order.
pub proof fn lemma_anchors_of_first(bin: BinView, count: int)
    requires
        0 <= count <= bin.placements.len(),
    ensures
        anchors_ascending(anchors_of_first(bin, count)),
        forall|c: (u32, u32)| anchors_of_first(bin, count).contains(c) <==> bin.anchor_among(count, c),
    decreases count,
{
    let list = anchors_of_first(bin, count);
    if count == 0 {
        assert forall|c: (u32, u32)| list.contains(c) <==> bin.anchor_among(0, c) by {
            if c == (0u32, 0u32) {
                assert(list[0] == c);
            }
        }
    } else {
        lemma_anchors_of_first(bin, count - 1);
        let before = anchors_of_first(bin, count - 1);
        let p = bin.placements[count - 1];
        let first = (p.right() as u32, p.y);
        let second = (p.x, p.top() as u32);
        let take_first = p.right() < bin.capacity && p.y < bin.capacity;
        let take_second = p.x < bin.capacity && p.top() < bin.capacity;
        let beside = if take_first { with_anchor(before, first) } else { before };
        if take_first {
            lemma_with_anchor(before, first);
        }
        if take_second {
            lemma_with_anchor(beside, second);
        }
        assert forall|c: (u32, u32)| list.contains(c) <==> bin.anchor_among(count, c) by {
            if bin.anchor_among(count, c) && c != (0u32, 0u32) {
                let k = choose|k: int| 0 <= k < count && bin.corner_anchor(k, c);
                if k < count - 1 {
                    assert(bin.anchor_among(count - 1, c));
                }
            }
            if bin.anchor_among(count - 1, c) && c != (0u32, 0u32) {
                let k = choose|k: int| 0 <= k < count - 1 && bin.corner_anchor(k, c);
                assert(bin.corner_anchor(k, c));
            }
            if before.contains(c) {
                assert(bin.anchor_among(count - 1, c));
            }
            if bin.corner_anchor(count - 1, c) {
                assert(bin.anchor_among(count, c));
            }
        }
    }
}

/// Every bin has a list of its candidate anchors, each once and in trial
/// order, and it has one such list only.
pub proof fn lemma_anchors(bin: BinView)
    ensures
        bin.lists_anchors(bin.anchors()),
        bin.anchors() == anchors_of_first(bin, bin.placements.len() as int),
        bin.anchors().len() > 0,
        bin.anchors()[0] == (0u32, 0u32),
{
    let list = anchors_of_first(bin, bin.placements.len() as int);
    lemma_anchors_of_first(bin, bin.placements.len() as int);
    assert(bin.lists_anchors(list));
    lemma_ascending_anchors_unique(list, bin.anchors());
    let anchors = bin.anchors();
    assert(bin.is_anchor((0u32, 0u32)));
    assert(anchors.contains((0u32, 0u32)));
    let k = choose|k: int| 0 <= k < anchors.len() && anchors[k] == (0u32, 0u32);
    if k > 0 {
        assert(anchor_before(anchors[0], anchors[k]));
    }
}

/// Two ascending lists with the same members are the same list.
pub proof fn lemma_ascending_anchors_unique(a: Seq<(u32, u32)>, b: Seq<(u32, u32)>)
    requires
        anchors_ascending(a),
        anchors_ascending(b),
        forall|c: (u32, u32)| a.contains(c) <==> b.contains(c),
    ensures
        a == b,
    decreases a.len(),
{
    if a.len() == 0 {
        if b.len() > 0 {
            assert(b.contains(b[0]));
            assert(a.contains(b[0]));
        }
        assert(a =~= b);
    } else {
        assert(a.contains(a[0]));
        assert(b.contains(a[0]));
        let jb = choose|j: int| 0 <= j < b.len() && b[j] == a[0];
        assert(b.contains(b[0]));
        assert(a.contains(b[0]));
        let ja = choose|j: int| 0 <= j < a.len() && a[j] == b[0];
        assert(a[0] == b[0]) by {
            if ja > 0 {
                assert(anchor_before(a[0], a[ja]));
            }
            if jb > 0 {
                assert(anchor_before(b[0], b[jb]));
            }
        }
        let ta = a.skip(1);
        let tb = b.skip(1);
        assert forall|c: (u32, u32)| ta.contains(c) <==> tb.contains(c) by {
            if ta.contains(c) {
                let k = choose|k: int| 0 <= k < ta.len() && ta[k] == c;
                assert(a[k + 1] == c);
                assert(a.contains(c));
                assert(anchor_before(a[0], a[k + 1]));
                let m = choose|m: int| 0 <= m < b.len() && b[m] == c;
                assert(m != 0);
                assert(tb[m - 1] == c);
            }
            if tb.contains(c) {
                let k = choose|k: int| 0 <= k < tb.len() && tb[k] == c;
                assert(b[k + 1] == c);
                assert(b.contains(c));
                assert(anchor_before(b[0], b[k + 1]));
                let m = choose|m: int| 0 <= m < a.len() && a[m] == c;
                assert(m != 0);
                assert(ta[m - 1] == c);
            }
        }
        assert(anchors_ascending(ta)) by {
            assert forall|i: int, j: int| 0 <= i < j < ta.len() implies anchor_before(
                ta[i],
                ta[j],
            ) by {
                assert(anchor_before(a[i + 1], a[j + 1]));
            }
        }
        assert(anchors_ascending(tb)) by {
            assert forall|i: int, j: int| 0 <= i < j < tb.len() implies anchor_before(
                tb[i],
                tb[j],
            ) by {
                assert(anchor_before(b[i + 1], b[j + 1]));
            }
        }
        lemma_ascending_anchors_unique(ta, tb);
        assert(a =~= seq![a[0]] + ta);
        assert(b =~= seq![b[0]] + tb);
    }
}

/// A position found by the search is one the bin accepts, and where the search
/// finds none the bin accepts the rectangle at none of the anchors.
pub proof fn lemma_first_fit(bin: BinView, rect: Rect, anchors: Seq<(u32, u32)>)
    ensures
        match bin.first_fit(rect, anchors) {
            Some(pos) => bin.accepts(Placement { rect, x: pos.0, y: pos.1, rotated: pos.2 })
                && anchors.contains((pos.0, pos.1)),
            None => forall|i: int, rotated: bool|
                0 <= i < anchors.len() ==> !#[trigger] bin.accepts(
                    Placement { rect, x: anchors[i].0, y: anchors[i].1, rotated },
                ),
        },
    decreases anchors.len(),
{
    if anchors.len() > 0 {
        let x = anchors[0].0;
        let y = anchors[0].1;
        let rest = anchors.skip(1);
        lemma_first_fit(bin, rect, rest);
        if bin.accepts(Placement { rect, x, y, rotated: false }) || bin.accepts(
            Placement { rect, x, y, rotated: true },
        ) {
            assert(anchors[0] == (x, y));
        } else {
            match bin.first_fit(rect, rest) {
                Some(pos) => {
                    let k = choose|k: int| 0 <= k < rest.len() && rest[k] == (pos.0, pos.1);
                    assert(anchors[k + 1] == (pos.0, pos.1));
                },
                None => {
                    assert forall|i: int, rotated: bool|
                        0 <= i < anchors.len() implies !#[trigger] bin.accepts(
                        Placement { rect, x: anchors[i].0, y: anchors[i].1, rotated },
                    ) by {
                        if i > 0 {
                            assert(rest[i - 1] == anchors[i]);
                            assert(!bin.accepts(
                                Placement { rect, x: rest[i - 1].0, y: rest[i - 1].1, rotated },
                            ));
                        }
                    }
                },
            }
        }
    }
}

/// The bottom-left search keeps a packed bin packed.
pub proof fn lemma_fit_keeps_packed(bin: BinView, rect: Rect)
    requires
        bin.packed(),
    ensures
        bin.fit(rect).packed(),
{
    lemma_first_fit(bin, rect, bin.anchors());
    match bin.find_position(rect) {
        Some(pos) => {
            lemma_accepted_placement_keeps_packed(
                bin,
                Placement { rect, x: pos.0, y: pos.1, rotated: pos.2 },
            );
        },
        None => {},
    }
}

/// A bin that is packed stays packed when it takes a placement it accepts: in
/// a bin filled through accepted placements no two placements intersect.
pub proof fn lemma_accepted_placement_keeps_packed(bin: BinView, p: Placement)
    requires
        bin.packed(),
        bin.accepts(p),
    ensures
        bin.with(p).packed(),
        bin.place(p).packed(),
{
    let after = bin.with(p);
    assert forall|i: int| 0 <= i < after.placements.len() implies after.holds(
        #[trigger] after.placements[i],
    ) by {
        if i < bin.placements.len() {
            assert(bin.holds(bin.placements[i]));
        }
    }
    assert forall|i: int, j: int|
        0 <= i < after.placements.len() && 0 <= j < after.placements.len() && i != j implies
        !after.placements[i].spec_intersects(after.placements[j]) by {
        if i < bin.placements.len() && j < bin.placements.len() {
            assert(!bin.placements[i].spec_intersects(bin.placements[j]));
        } else if i < bin.placements.len() {
            assert(!p.spec_intersects(bin.placements[i]));
        } else {
            assert(!p.spec_intersects(bin.placements[j]));
        }
    }
}

/// A packed bin has no overlap of positive area.
pub proof fn lemma_packed_is_overlap_free(bin: BinView)
    requires
        bin.packed(),
    ensures
        bin.overlap_free(),
{
    assert forall|i: int, j: int|
        0 <= i < bin.placements.len() && 0 <= j < bin.placements.len() && i != j implies
        bin.placements[i].overlap_area(bin.placements[j]) == 0 by {
        crate::problem::placement::lemma_overlap_area_symmetric_and_zero_iff_disjoint(
            bin.placements[i],
            bin.placements[j],
        );
    }
}

impl Clone for BoxBin {
    fn clone(&self) -> (copy: Self)
        ensures
            copy@ == self@,
    {
        BoxBin { capacity: self.capacity, placements: self.placements.clone() }
    }
}

/// Puts `c` into an ascending anchor list unless it is already there.
fn insert_anchor(anchors: &mut Vec<(u32, u32)>, c: (u32, u32))
    requires
        anchors_ascending(old(anchors)@),
    ensures
        anchors_ascending(final(anchors)@),
        forall|d: (u32, u32)|
            final(anchors)@.contains(d) <==> (d == c || old(anchors)@.contains(d)),
{
    let mut k: usize = 0;
    while k < anchors.len() && (anchors[k].1 < c.1 || (anchors[k].1 == c.1 && anchors[k].0 < c.0))
        invariant
            k <= anchors.len(),
            anchors@ == old(anchors)@,
            forall|i: int| 0 <= i < k ==> anchor_before(anchors@[i], c),
        decreases anchors.len() - k,
    {
        k += 1;
    }
    let ghost before = anchors@;
    if k < anchors.len() && anchors[k].0 == c.0 && anchors[k].1 == c.1 {
        proof {
            assert(before[k as int] == c);
            assert forall|d: (u32, u32)| before.contains(d) <==> (d == c || before.contains(
                d,
            )) by {
                if d == c {
                    assert(before.contains(d));
                }
            }
        }
    } else {
        anchors.insert(k, c);
        proof {
            let after = anchors@;
            assert(after == before.insert(k as int, c));
            assert forall|i: int, j: int| 0 <= i < j < after.len() implies anchor_before(
                after[i],
                after[j],
            ) by {
                if j < k {
                    assert(anchor_before(before[i], before[j]));
                } else if j == k {
                    assert(anchor_before(before[i], c));
                } else if i < k {
                    assert(anchor_before(before[i], before[j - 1]));
                } else if i == k {
                    assert(!anchor_before(before[k as int], c));
                    assert(before[k as int] != c);
                    if j - 1 > k {
                        assert(anchor_before(before[k as int], before[j - 1]));
                    }
                } else {
                    assert(anchor_before(before[i - 1], before[j - 1]));
                }
            }
            assert forall|d: (u32, u32)| after.contains(d) <==> (d == c || before.contains(
                d,
            )) by {
                if after.contains(d) {
                    let m = choose|m: int| 0 <= m < after.len() && after[m] == d;
                    if m < k {
                        assert(before[m] == d);
                    } else if m > k {
                        assert(before[m - 1] == d);
                    }
                }
                if d == c {
                    assert(after[k as int] == d);
                }
                if before.contains(d) {
                    let m = choose|m: int| 0 <= m < before.len() && before[m] == d;
                    if m < k {
                        assert(after[m] == d);
                    } else {
                        assert(after[m + 1] == d);
                    }
                }
            }
        }
    }
}

impl BoxBin {
    /// An empty bin of side `capacity`.
    pub fn new(capacity: u32) -> (bin: Self)
        ensures
            bin@ == BinView::empty(capacity),
            bin@.packed(),
    {
        Self { capacity, placements: Vec::new() }
    }

    /// Whether the bin would accept `rect` at `(x, y)` in the given
    /// orientation.
    pub fn can_place(&self, rect: Rect, x: u32, y: u32, rotated: bool) -> (free: bool)
        ensures
            free == self@.accepts(Placement { rect, x, y, rotated }),
    {
        let candidate = Placement { rect, x, y, rotated };
        let capacity: u64 = self.capacity as u64;
        if x as u64 + candidate.width() as u64 > capacity || y as u64 + candidate.height() as u64
            > capacity {
            return false;
        }
        let mut i: usize = 0;
        while i < self.placements.len()
            invariant
                i <= self.placements.len(),
                candidate == (Placement { rect, x, y, rotated }),
                forall|k: int| 0 <= k < i ==> !candidate.spec_intersects(self.placements@[k]),
            decreases self.placements.len() - i,
        {
            if candidate.intersects(&self.placements[i]) {
                assert(candidate.spec_intersects(self@.placements[i as int]));
                return false;
            }
            i += 1;
        }
        true
    }

    /// Adds `rect` at `(x, y)` if it lies inside the bin there and intersects
    /// nothing; reports whether it did.
    pub fn try_place(&mut self, rect: Rect, x: u32, y: u32, rotated: bool) -> (placed: bool)
        ensures
            placed == old(self)@.accepts(Placement { rect, x, y, rotated }),
            final(self)@ == old(self)@.place(Placement { rect, x, y, rotated }),
            old(self)@.packed() ==> final(self)@.packed(),
    {
        if !self.can_place(rect, x, y, rotated) {
            return false;
        }
        proof {
            if self@.packed() {
                lemma_accepted_placement_keeps_packed(self@, Placement { rect, x, y, rotated });
            }
        }
        self.placements.push(Placement { rect, x, y, rotated });
        true
    }

    /// The candidate anchors of the bin, lowest first and leftmost first among
    /// those of one height, each once.
    pub fn candidate_anchors(&self) -> (anchors: Vec<(u32, u32)>)
        ensures
            self@.lists_anchors(anchors@),
            anchors@ == self@.anchors(),
    {
        let mut anchors: Vec<(u32, u32)> = Vec::new();
        anchors.push((0, 0));
        proof {
            assert forall|c: (u32, u32)| anchors@.contains(c) <==> self@.anchor_among(0, c) by {
                if c == (0u32, 0u32) {
                    assert(anchors@[0] == c);
                }
            }
        }
        let capacity: u64 = self.capacity as u64;
        let mut i: usize = 0;
        while i < self.placements.len()
            invariant
                i <= self.placements.len(),
                capacity == self.capacity,
                anchors_ascending(anchors@),
                forall|c: (u32, u32)| anchors@.contains(c) <==> self@.anchor_among(i as int, c),
            decreases self.placements.len() - i,
        {
            let p = self.placements[i];
            let right: u64 = p.x as u64 + p.width() as u64;
            let top: u64 = p.y as u64 + p.height() as u64;
            let ghost start = anchors@;
            if right < capacity && (p.y as u64) < capacity {
                insert_anchor(&mut anchors, (right as u32, p.y));
            }
            let ghost middle = anchors@;
            if (p.x as u64) < capacity && top < capacity {
                insert_anchor(&mut anchors, (p.x, top as u32));
            }
            proof {
                let bin = self@;
                assert forall|c: (u32, u32)| anchors@.contains(c) <==> bin.anchor_among(
                    i + 1,
                    c,
                ) by {
                    if bin.anchor_among(i + 1, c) && c != (0u32, 0u32) {
                        let k = choose|k: int| 0 <= k < i + 1 && bin.corner_anchor(k, c);
                        if k < i {
                            assert(bin.anchor_among(i as int, c));
                        }
                    }
                    if bin.anchor_among(i as int, c) && c != (0u32, 0u32) {
                        let k = choose|k: int| 0 <= k < i && bin.corner_anchor(k, c);
                        assert(bin.corner_anchor(k, c));
                    }
                    if start.contains(c) {
                        assert(bin.anchor_among(i as int, c));
                    }
                    if bin.corner_anchor(i as int, c) {
                        assert(bin.anchor_among(i + 1, c));
                    }
                }
            }
            i += 1;
        }
        proof {
            let bin = self@;
            assert(bin.lists_anchors(anchors@));
            let chosen = bin.anchors();
            assert(bin.lists_anchors(chosen));
            lemma_ascending_anchors_unique(anchors@, chosen);
        }
        anchors
    }

    /// Searches the candidate anchors in trial order for the first position
    /// at which `rect` can be added, upright before turned at each anchor.
    pub fn find_position_in_box(&self, rect: Rect) -> (found: Option<(u32, u32, bool)>)
        ensures
            found == self@.find_position(rect),
    {
        let anchors = self.candidate_anchors();
        assert(anchors@.skip(0) =~= anchors@);
        let mut i: usize = 0;
        while i < anchors.len()
            invariant
                i <= anchors.len(),
                self@.first_fit(rect, anchors@.skip(i as int)) == self@.find_position(rect),
            decreases anchors.len() - i,
        {
            let x: u32 = anchors[i].0;
            let y: u32 = anchors[i].1;
            proof {
                assert(anchors@.skip(i as int)[0] == anchors@[i as int]);
                assert(anchors@.skip(i as int).skip(1) =~= anchors@.skip(i + 1));
            }
            if self.can_place(rect, x, y, false) {
                return Some((x, y, false));
            }
            if self.can_place(rect, x, y, true) {
                return Some((x, y, true));
            }
            i += 1;
        }
        None
    }
}

} // verus!
