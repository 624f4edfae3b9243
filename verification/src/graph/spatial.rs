use vstd::multiset::Multiset;
use vstd::prelude::*;

verus! {

broadcast use vstd::seq_lib::group_seq_properties, vstd::seq_lib::group_to_multiset_ensures;

/// An axis-aligned bounding box over integer coordinates. Positions reach the
/// index as fixed-point integers supplied by the host layer; the tree itself
/// only ever compares and halves them.
#[derive(Clone, Copy, Debug, PartialEq, Eq, Structural)]
pub struct AABB {
    pub min_x: i32,
    pub min_y: i32,
    pub max_x: i32,
    pub max_y: i32,
}

/// `v` pulled into the interval `[lo, hi]`.
pub open spec fn clamp(v: int, lo: int, hi: int) -> int {
    if v < lo {
        lo
    } else if v > hi {
        hi
    } else {
        v
    }
}

/// Squared distance between two points.
pub open spec fn sq_dist(px: int, py: int, qx: int, qy: int) -> int {
    (px - qx) * (px - qx) + (py - qy) * (py - qy)
}

impl AABB {
    pub open spec fn spec_wf(self) -> bool {
        self.min_x <= self.max_x && self.min_y <= self.max_y
    }

    /// Both edges closed: a boundary point belongs to every box it touches,
    /// and insertion order decides which quadrant wins it.
    pub open spec fn spec_contains(self, x: int, y: int) -> bool {
        self.min_x <= x <= self.max_x && self.min_y <= y <= self.max_y
    }

    /// This box sits entirely within `outer`.
    pub open spec fn spec_inside(self, outer: AABB) -> bool {
        outer.min_x <= self.min_x && self.max_x <= outer.max_x && outer.min_y <= self.min_y
            && self.max_y <= outer.max_y
    }

    /// Closest-point test: clamp the circle's center into the box and compare
    /// the squared distance against the squared radius.
    pub open spec fn spec_intersects_circle(self, cx: int, cy: int, r: int) -> bool {
        sq_dist(clamp(cx, self.min_x as int, self.max_x as int), clamp(
            cy,
            self.min_y as int,
            self.max_y as int,
        ), cx, cy) <= r * r
    }

    pub fn contains(&self, x: i32, y: i32) -> (b: bool)
        ensures
            b == self.spec_contains(x as int, y as int),
    {
        x >= self.min_x && x <= self.max_x && y >= self.min_y && y <= self.max_y
    }

    pub fn intersects_circle(&self, cx: i32, cy: i32, radius: i32) -> (b: bool)
        ensures
            b == self.spec_intersects_circle(cx as int, cy as int, radius as int),
    {
        let nearest_x: i32 = if cx < self.min_x {
            self.min_x
        } else if cx > self.max_x {
            self.max_x
        } else {
            cx
        };
        let nearest_y: i32 = if cy < self.min_y {
            self.min_y
        } else if cy > self.max_y {
            self.max_y
        } else {
            cy
        };
        let dx: i128 = (nearest_x as i128) - (cx as i128);
        let dy: i128 = (nearest_y as i128) - (cy as i128);
        proof {
            lemma_square_bound(dx as int, 0x1_0000_0000);
            lemma_square_bound(dy as int, 0x1_0000_0000);
            lemma_square_bound(radius as int, 0x8000_0000);
        }
        let rr: i128 = (radius as i128) * (radius as i128);
        dx * dx + dy * dy <= rr
    }
}

/// Widening the radius never loses an intersection: the closest-point test
/// is monotone in the (non-negative) radius.
pub proof fn lemma_intersects_monotone(b: AABB, cx: int, cy: int, r1: int, r2: int)
    requires
        0 <= r1 <= r2,
        b.spec_intersects_circle(cx, cy, r1),
    ensures
        b.spec_intersects_circle(cx, cy, r2),
{
    lemma_square_bound(r1, r2);
}

/// `|a| <= b` bounds `a * a` by `b * b`, and squares are never negative.
proof fn lemma_square_bound(a: int, b: int)
    requires
        -b <= a <= b,
        0 <= b,
    ensures
        0 <= a * a <= b * b,
{
    assert(0 <= a * a <= b * b) by (nonlinear_arith)
        requires
            -b <= a <= b,
            0 <= b,
    ;
}

/// One inserted entry: the caller's node index and the point it sits at.
#[derive(Clone, Copy, Debug, PartialEq, Eq, Structural)]
pub struct QtPoint {
    pub idx: usize,
    pub x: i32,
    pub y: i32,
}

/// Arena slots of the four quadrants, in insertion-priority order.
#[derive(Clone, Copy, Debug, PartialEq, Eq, Structural)]
pub struct Children {
    pub nw: usize,
    pub ne: usize,
    pub sw: usize,
    pub se: usize,
}

/// One region of the tree. Entries accepted before a subdivision stay in
/// `items` forever; they are never pushed down into the children.
pub struct QtNode {
    pub bounds: AABB,
    pub items: Vec<QtPoint>,
    pub children: Option<Children>,
}

/// The four child boxes tile the parent: every point of the parent lies in at
/// least one child (closed edges overlap on the shared midlines).
pub open spec fn children_cover(s: Seq<QtNode>, i: int, c: Children) -> bool {
    forall|px: int, py: int|
        s[i].bounds.spec_contains(px, py) ==> s[c.nw as int].bounds.spec_contains(px, py) || s[c.ne
            as int].bounds.spec_contains(px, py) || s[c.sw as int].bounds.spec_contains(px, py)
            || s[c.se as int].bounds.spec_contains(px, py)
}

pub open spec fn child_ok(s: Seq<QtNode>, i: int, j: int) -> bool {
    i < j < s.len() && s[j].bounds.spec_inside(s[i].bounds)
}

/// Local well-formedness of the arena slot `i`: a sane box, every stored
/// entry inside it, and children (if any) later in the arena, nested in the
/// box, and tiling it.
pub open spec fn node_wf(s: Seq<QtNode>, i: int) -> bool {
    &&& s[i].bounds.spec_wf()
    &&& forall|k: int|
        0 <= k < s[i].items@.len() ==> s[i].bounds.spec_contains(
            (#[trigger] s[i].items@[k]).x as int,
            s[i].items@[k].y as int,
        )
    &&& match s[i].children {
        Option::None => true,
        Option::Some(c) => c.ne as int == c.nw as int + 1 && c.sw as int == c.nw as int + 2 && c.se
            as int == c.nw as int + 3 && child_ok(s, i, c.nw as int) && child_ok(s, i, c.ne as int)
            && child_ok(s, i, c.sw as int) && child_ok(s, i, c.se as int) && children_cover(
            s,
            i,
            c,
        ),
    }
}

/// `j` is one of the four children of `i`.
pub open spec fn is_child_of(s: Seq<QtNode>, i: int, j: int) -> bool {
    match s[i].children {
        Option::None => false,
        Option::Some(c) => c.nw == j || c.ne == j || c.sw == j || c.se == j,
    }
}

/// Every slot but the root is some earlier slot's child.
pub open spec fn has_parent(s: Seq<QtNode>, j: int) -> bool {
    exists|i: int| 0 <= i < j && is_child_of(s, i, j)
}

pub open spec fn arena_wf(s: Seq<QtNode>) -> bool {
    &&& s.len() >= 1
    &&& forall|i: int| 0 <= i < s.len() ==> node_wf(s, i)
    &&& forall|j: int| 1 <= j < s.len() ==> has_parent(s, j)
    &&& forall|i1: int, i2: int, j: int|
        0 <= i1 < s.len() && 0 <= i2 < s.len() && #[trigger] is_child_of(s, i1, j)
            && #[trigger] is_child_of(s, i2, j) ==> i1 == i2
}

/// The midpoint used to quarter an interval.
pub open spec fn spec_mid(lo: int, hi: int) -> int {
    lo + (hi - lo) / 2
}

/// The four quadrant boxes a region splits into, in NW, NE, SW, SE order,
/// sharing their closed edges on the midlines.
pub open spec fn spec_quarters(b: AABB) -> (AABB, AABB, AABB, AABB) {
    let mx = spec_mid(b.min_x as int, b.max_x as int) as i32;
    let my = spec_mid(b.min_y as int, b.max_y as int) as i32;
    (
        AABB { min_x: b.min_x, min_y: b.min_y, max_x: mx, max_y: my },
        AABB { min_x: mx, min_y: b.min_y, max_x: b.max_x, max_y: my },
        AABB { min_x: b.min_x, min_y: my, max_x: mx, max_y: b.max_y },
        AABB { min_x: mx, min_y: my, max_x: b.max_x, max_y: b.max_y },
    )
}

/// One arena slot reduced to its mathematical content: box, entries,
/// children.
pub open spec fn node_view(n: QtNode) -> (AABB, Seq<QtPoint>, Option<Children>) {
    (n.bounds, n.items@, n.children)
}

pub open spec fn view_of(s: Seq<QtNode>) -> Seq<(AABB, Seq<QtPoint>, Option<Children>)> {
    s.map_values(|n: QtNode| node_view(n))
}

/// What one insertion does to the arena, slot by slot, starting at slot `i`:
/// a childless slot with room keeps the entry; a full childless slot splits
/// into its four quadrants (appended in NW, NE, SW, SE order) and the first
/// quadrant whose closed box holds the point receives the entry, which is how
/// a boundary point's quadrant is decided; a slot with children delegates to
/// the first child whose box holds the point. Entries already stored are
/// never moved.
pub open spec fn spec_insert(
    s: Seq<(AABB, Seq<QtPoint>, Option<Children>)>,
    cap: int,
    i: int,
    p: QtPoint,
) -> Seq<(AABB, Seq<QtPoint>, Option<Children>)>
    decreases s.len() - i,
{
    if !(0 <= i < s.len()) {
        s
    } else {
        let node = s[i];
        match node.2 {
            Option::None => {
                if node.1.len() < cap {
                    s.update(i, (node.0, node.1.push(p), Option::<Children>::None))
                } else {
                    let base = s.len() as int;
                    let kids = Children {
                        nw: base as usize,
                        ne: (base + 1) as usize,
                        sw: (base + 2) as usize,
                        se: (base + 3) as usize,
                    };
                    let q = spec_quarters(node.0);
                    let s1 = s.update(i, (node.0, node.1, Option::Some(kids))).push(
                        (q.0, Seq::<QtPoint>::empty(), Option::<Children>::None),
                    ).push((q.1, Seq::<QtPoint>::empty(), Option::<Children>::None)).push(
                        (q.2, Seq::<QtPoint>::empty(), Option::<Children>::None),
                    ).push((q.3, Seq::<QtPoint>::empty(), Option::<Children>::None));
                    let t = if q.0.spec_contains(p.x as int, p.y as int) {
                        base
                    } else if q.1.spec_contains(p.x as int, p.y as int) {
                        base + 1
                    } else if q.2.spec_contains(p.x as int, p.y as int) {
                        base + 2
                    } else {
                        base + 3
                    };
                    s1.update(t, (s1[t].0, seq![p], Option::<Children>::None))
                }
            },
            Option::Some(c) => {
                if i < (c.nw as int) && (c.nw as int) < s.len() && s[c.nw as int].0.spec_contains(
                    p.x as int,
                    p.y as int,
                ) {
                    spec_insert(s, cap, c.nw as int, p)
                } else if i < (c.ne as int) && (c.ne as int) < s.len() && s[
                    c.ne as int
                ].0.spec_contains(p.x as int, p.y as int) {
                    spec_insert(s, cap, c.ne as int, p)
                } else if i < (c.sw as int) && (c.sw as int) < s.len() && s[
                    c.sw as int
                ].0.spec_contains(p.x as int, p.y as int) {
                    spec_insert(s, cap, c.sw as int, p)
                } else if i < (c.se as int) && (c.se as int) < s.len() && s[
                    c.se as int
                ].0.spec_contains(p.x as int, p.y as int) {
                    spec_insert(s, cap, c.se as int, p)
                } else {
                    s
                }
            },
        }
    }
}

/// Everything stored anywhere in the arena, as a multiset of entries.
pub open spec fn arena_points(s: Seq<QtNode>) -> Multiset<QtPoint>
    decreases s.len(),
{
    if s.len() == 0 {
        Multiset::empty()
    } else {
        arena_points(s.drop_last()).add(s.last().items@.to_multiset())
    }
}

/// What a query starting at slot `i` reports: nothing when the circle misses
/// the slot's box, otherwise all locally stored indices and the reports of
/// all four children.
pub open spec fn query_spec(s: Seq<QtNode>, i: int, cx: int, cy: int, r: int) -> Seq<usize>
    decreases s.len() - i, 5int,
{
    if 0 <= i < s.len() {
        if !s[i].bounds.spec_intersects_circle(cx, cy, r) {
            Seq::empty()
        } else {
            let loc = s[i].items@.map_values(|p: QtPoint| p.idx);
            match s[i].children {
                Option::None => loc,
                Option::Some(c) => loc + child_query(s, i, c.nw as int, cx, cy, r) + child_query(
                    s,
                    i,
                    c.ne as int,
                    cx,
                    cy,
                    r,
                ) + child_query(s, i, c.sw as int, cx, cy, r) + child_query(
                    s,
                    i,
                    c.se as int,
                    cx,
                    cy,
                    r,
                ),
            }
        }
    } else {
        Seq::empty()
    }
}

/// A child's report, guarded so the recursion is visibly well-founded.
pub open spec fn child_query(s: Seq<QtNode>, i: int, j: int, cx: int, cy: int, r: int) -> Seq<
    usize,
>
    decreases s.len() - i, 4int,
{
    if i < j < s.len() {
        query_spec(s, j, cx, cy, r)
    } else {
        Seq::empty()
    }
}

/// The spatial index: a flat arena of regions. Slot 0 is the root; children
/// always sit at higher slots than their parent.
pub struct Quadtree {
    arena: Vec<QtNode>,
    capacity: usize,
}

impl Quadtree {
    pub closed spec fn arena_seq(self) -> Seq<QtNode> {
        self.arena@
    }

    pub closed spec fn spec_capacity(self) -> int {
        self.capacity as int
    }

    pub open spec fn wf(self) -> bool {
        &&& self.spec_capacity() >= 1
        &&& arena_wf(self.arena_seq())
        &&& forall|i: int|
            0 <= i < self.arena_seq().len() ==> (#[trigger] self.arena_seq()[i]).items@.len()
                <= self.spec_capacity()
    }

    /// All entries stored anywhere in the tree.
    pub open spec fn points(self) -> Multiset<QtPoint> {
        arena_points(self.arena_seq())
    }

    pub open spec fn spec_bounds(self) -> AABB {
        self.arena_seq()[0].bounds
    }

    /// A fresh, empty tree over `bounds`. Capacity 0 would make a full region
    /// subdivide forever, so at least one entry per region is required.
    pub fn new(bounds: AABB, capacity: usize) -> (t: Quadtree)
        requires
            bounds.spec_wf(),
            capacity >= 1,
        ensures
            t.wf(),
            t.spec_bounds() == bounds,
            t.spec_capacity() == capacity,
            t.points() == Multiset::<QtPoint>::empty(),
            t.arena_seq().len() == 1,
            t.arena_seq()[0].children is None,
            t.arena_seq()[0].items@ == Seq::<QtPoint>::empty(),
    {
        let mut arena: Vec<QtNode> = Vec::new();
        arena.push(QtNode { bounds, items: Vec::new(), children: Option::None });
        proof {
            assert(arena@.drop_last() =~= Seq::<QtNode>::empty());
            assert(arena_points(Seq::<QtNode>::empty()) == Multiset::<QtPoint>::empty());
            arena@.last().items@.to_multiset_ensures();
            assert(arena@.last().items@.to_multiset() =~= Multiset::<QtPoint>::empty());
            assert(arena_points(arena@) =~= Multiset::<QtPoint>::empty());
        }
        Quadtree { arena, capacity }
    }

    pub fn subdivided(&self) -> (b: bool)
        requires
            self.wf(),
        ensures
            b == (self.arena_seq()[0].children is Some),
    {
        self.arena[0].children.is_some()
    }

    /// Splits slot `i` into four quadrants appended at the end of the arena.
    /// Entries already stored at `i` stay there; contents are unchanged.
    fn subdivide(&mut self, i: usize)
        requires
            old(self).wf(),
            i < old(self).arena_seq().len(),
            old(self).arena_seq()[i as int].children is None,
        ensures
            final(self).wf(),
            final(self).spec_capacity() == old(self).spec_capacity(),
            final(self).arena_seq().len() == old(self).arena_seq().len() + 4,
            forall|j: int|
                0 <= j < old(self).arena_seq().len() && j != i ==> final(self).arena_seq()[j]
                    == old(self).arena_seq()[j],
            final(self).arena_seq()[i as int].bounds == old(self).arena_seq()[i as int].bounds,
            final(self).arena_seq()[i as int].items@ == old(self).arena_seq()[i as int].items@,
            final(self).arena_seq()[i as int].children matches Some(c) && c.nw as int == old(
                self,
            ).arena_seq().len() && c.ne as int == old(self).arena_seq().len() + 1 && c.sw as int
                == old(self).arena_seq().len() + 2 && c.se as int == old(self).arena_seq().len()
                + 3,
            forall|j: int|
                old(self).arena_seq().len() <= j < final(self).arena_seq().len() ==> (#[trigger]
                final(self).arena_seq()[j]).items@.len() == 0 && final(self).arena_seq()[j].children
                    is None,
            ({
                let q = spec_quarters(old(self).arena_seq()[i as int].bounds);
                let base = old(self).arena_seq().len() as int;
                &&& final(self).arena_seq()[base].bounds == q.0
                &&& final(self).arena_seq()[base + 1].bounds == q.1
                &&& final(self).arena_seq()[base + 2].bounds == q.2
                &&& final(self).arena_seq()[base + 3].bounds == q.3
            }),
            final(self).points() == old(self).points(),
    {
        let b = self.arena[i].bounds;
        let diff_x: i64 = (b.max_x as i64) - (b.min_x as i64);
        let diff_y: i64 = (b.max_y as i64) - (b.min_y as i64);
        proof {
            assert(node_wf(self.arena@, i as int));
            assert(diff_x >= 0);
            assert(diff_y >= 0);
        }
        let mid_x: i32 = ((b.min_x as i64) + diff_x / 2) as i32;
        let mid_y: i32 = ((b.min_y as i64) + diff_y / 2) as i32;
        let base = self.arena.len();
        let ghost pre = *self;
        let nw = AABB { min_x: b.min_x, min_y: b.min_y, max_x: mid_x, max_y: mid_y };
        let ne = AABB { min_x: mid_x, min_y: b.min_y, max_x: b.max_x, max_y: mid_y };
        let sw = AABB { min_x: b.min_x, min_y: mid_y, max_x: mid_x, max_y: b.max_y };
        let se = AABB { min_x: mid_x, min_y: mid_y, max_x: b.max_x, max_y: b.max_y };
        self.arena.push(QtNode { bounds: nw, items: Vec::new(), children: Option::None });
        self.arena.push(QtNode { bounds: ne, items: Vec::new(), children: Option::None });
        self.arena.push(QtNode { bounds: sw, items: Vec::new(), children: Option::None });
        self.arena.push(QtNode { bounds: se, items: Vec::new(), children: Option::None });
        let top = self.arena.len();
        let kids = Children { nw: top - 4, ne: top - 3, sw: top - 2, se: top - 1 };
        let mut node = self.arena.remove(i);
        node.children = Some(kids);
        self.arena.insert(i, node);
        proof {
            let s0 = pre.arena@;
            let s1 = self.arena@;
            assert(s1.len() == s0.len() + 4);
            assert forall|j: int| 0 <= j < s0.len() && j != i implies s1[j] == s0[j] by {}
            assert(s1[i as int].bounds == b);
            assert(s1[i as int].items@ == s0[i as int].items@);
            assert(s1[i as int].children == Some(kids));
            assert forall|j: int|
                s0.len() <= j < s1.len() implies (#[trigger] s1[j]).items@.len() == 0 && s1[j]
                .children is None && s1[j].bounds.spec_wf() by {}
            lemma_points_after_subdivide(s0, s1, i as int);
            lemma_subdivide_wf(s0, s1, i as int, b, mid_x as int, mid_y as int, kids);
        }
    }
}

impl Quadtree {
    /// Stores `idx` at point `(x, y)`. Accepted exactly when the point lies
    /// in the tree's outer bounds; entries at the same point are all kept.
    pub fn insert(&mut self, idx: usize, x: i32, y: i32) -> (accepted: bool)
        requires
            old(self).wf(),
        ensures
            final(self).wf(),
            final(self).spec_capacity() == old(self).spec_capacity(),
            final(self).spec_bounds() == old(self).spec_bounds(),
            accepted == old(self).spec_bounds().spec_contains(x as int, y as int),
            accepted ==> final(self).points() == old(self).points().insert(
                QtPoint { idx, x, y },
            ),
            !accepted ==> *final(self) == *old(self),
            // the whole step, slot by slot: where the entry lands, when a
            // full leaf splits, and which quadrant wins a boundary point
            accepted ==> view_of(final(self).arena_seq()) == spec_insert(
                view_of(old(self).arena_seq()),
                old(self).spec_capacity(),
                0,
                (QtPoint { idx, x, y }),
            ),
            // at most one split per insertion
            final(self).arena_seq().len() == old(self).arena_seq().len() || final(self).arena_seq().len() == old(self).arena_seq().len() + 4,
            // every region keeps its box
            forall|j: int|
                0 <= j < old(self).arena_seq().len() ==> (#[trigger] final(self).arena_seq()[
                    j
                ]).bounds == old(self).arena_seq()[j].bounds,
            // entries stay in their slot forever: a slot's list is unchanged
            // or gains exactly this entry at its end
            forall|j: int|
                0 <= j < old(self).arena_seq().len() ==> (#[trigger] final(self).arena_seq()[
                    j
                ]).items@ == old(self).arena_seq()[j].items@ || final(self).arena_seq()[j].items@
                    == old(self).arena_seq()[j].items@.push((QtPoint { idx, x, y })),
            // children, once created, never change
            forall|j: int|
                0 <= j < old(self).arena_seq().len() && old(self).arena_seq()[j].children
                    is Some ==> (#[trigger] final(self).arena_seq()[j]).children == old(
                    self,
                ).arena_seq()[j].children,
            // a childless root with room keeps the entry locally; a full
            // childless root splits
            accepted && old(self).arena_seq()[0].children is None && old(self).arena_seq()[
                0
            ].items@.len() < old(self).spec_capacity() ==> final(self).arena_seq()[0].items@
                == old(self).arena_seq()[0].items@.push((QtPoint { idx, x, y })) && final(self).arena_seq()[0].children is None,
            accepted && old(self).arena_seq()[0].children is None && old(self).arena_seq()[
                0
            ].items@.len() >= old(self).spec_capacity() ==> final(self).arena_seq()[0].children
                is Some,
    {
        let ghost p = QtPoint { idx, x, y };
        let ghost v = view_of(old(self).arena@);
        let ghost cap = old(self).spec_capacity();
        let b0 = self.arena[0].bounds;
        if !b0.contains(x, y) {
            return false;
        }
        let mut i: usize = 0;
        loop
            invariant
                *self == *old(self),
                self.wf(),
                i < self.arena_seq().len(),
                self.arena_seq()[i as int].bounds.spec_contains(x as int, y as int),
                old(self).spec_bounds().spec_contains(x as int, y as int),
                i == 0 || old(self).arena_seq()[0].children is Some,
                p == (QtPoint { idx, x, y }),
                v == view_of(old(self).arena@),
                cap == old(self).spec_capacity(),
                spec_insert(v, cap, 0, p) == spec_insert(v, cap, i as int, p),
            decreases self.arena_seq().len() - i,
        {
            let is_leaf = self.arena[i].children.is_none();
            if is_leaf && self.arena[i].items.len() < self.capacity {
                self.store_at(i, idx, x, y);
                proof {
                    assert(v[i as int] == node_view(old(self).arena@[i as int]));
                    assert(spec_insert(v, cap, i as int, p) == v.update(
                        i as int,
                        (v[i as int].0, v[i as int].1.push(p), Option::<Children>::None),
                    ));
                    assert(view_of(self.arena@) =~~= spec_insert(v, cap, i as int, p));
                }
                return true;
            }
            if is_leaf {
                // A full leaf splits once; the fresh covering quadrant takes
                // the entry, while everything already stored stays put.
                let ghost before = *self;
                self.subdivide(i);
                let base = self.arena.len() - 4;
                let c = match self.arena[i].children {
                    Some(c) => c,
                    None => {
                        proof {
                            assert(false);
                        }
                        return false;
                    },
                };
                proof {
                    assert(node_wf(self.arena@, i as int));
                    assert(children_cover(self.arena@, i as int, c));
                    assert(self.arena@[i as int].bounds.spec_contains(x as int, y as int));
                }
                let hit0 = self.arena[c.nw].bounds.contains(x, y);
                let hit1 = self.arena[c.ne].bounds.contains(x, y);
                let hit2 = self.arena[c.sw].bounds.contains(x, y);
                let hit3 = self.arena[c.se].bounds.contains(x, y);
                let t: usize = if hit0 {
                    c.nw
                } else if hit1 {
                    c.ne
                } else if hit2 {
                    c.sw
                } else if hit3 {
                    c.se
                } else {
                    proof {
                        assert(false);
                    }
                    return false;
                };
                proof {
                    assert(self.arena@[t as int].items@.len() == 0);
                }
                self.store_at(t, idx, x, y);
                proof {
                    lemma_split_matches_spec(
                        v,
                        view_of(self.arena@),
                        cap,
                        i as int,
                        t as int,
                        before.arena@.len() as int,
                        p,
                    );
                    assert(view_of(self.arena@) == spec_insert(v, cap, i as int, p));
                }
                return true;
            }
            let c = match self.arena[i].children {
                Some(c) => c,
                None => {
                    proof {
                        assert(false);
                    }
                    return false;
                },
            };
            proof {
                assert(node_wf(self.arena@, i as int));
                assert(children_cover(self.arena@, i as int, c));
                assert(self.arena@[i as int].bounds.spec_contains(x as int, y as int));
            }
            let hit0 = self.arena[c.nw].bounds.contains(x, y);
            let hit1 = self.arena[c.ne].bounds.contains(x, y);
            let hit2 = self.arena[c.sw].bounds.contains(x, y);
            let hit3 = self.arena[c.se].bounds.contains(x, y);
            let t: usize = if hit0 {
                c.nw
            } else if hit1 {
                c.ne
            } else if hit2 {
                c.sw
            } else if hit3 {
                c.se
            } else {
                proof {
                    assert(false);
                }
                return false;
            };
            proof {
                assert(v[i as int] == node_view(self.arena@[i as int]));
                assert(v[c.nw as int] == node_view(self.arena@[c.nw as int]));
                assert(v[c.ne as int] == node_view(self.arena@[c.ne as int]));
                assert(v[c.sw as int] == node_view(self.arena@[c.sw as int]));
                assert(v[c.se as int] == node_view(self.arena@[c.se as int]));
                assert(spec_insert(v, cap, i as int, p) == spec_insert(v, cap, t as int, p));
            }
            i = t;
        }
    }

    /// Appends one entry to slot `i`'s local list.
    fn store_at(&mut self, i: usize, idx: usize, x: i32, y: i32)
        requires
            old(self).wf(),
            i < old(self).arena_seq().len(),
            old(self).arena_seq()[i as int].bounds.spec_contains(x as int, y as int),
            old(self).arena_seq()[i as int].items@.len() < old(self).spec_capacity(),
        ensures
            final(self).wf(),
            final(self).spec_capacity() == old(self).spec_capacity(),
            final(self).arena_seq().len() == old(self).arena_seq().len(),
            forall|j: int|
                0 <= j < old(self).arena_seq().len() && j != i ==> final(self).arena_seq()[j]
                    == old(self).arena_seq()[j],
            final(self).arena_seq()[i as int].bounds == old(self).arena_seq()[i as int].bounds,
            final(self).arena_seq()[i as int].children == old(self).arena_seq()[i
                as int].children,
            final(self).arena_seq()[i as int].items@ == old(self).arena_seq()[i
                as int].items@.push((QtPoint { idx, x, y })),
            final(self).points() == old(self).points().insert(QtPoint { idx, x, y }),
    {
        let p = QtPoint { idx, x, y };
        let mut node = self.arena.remove(i);
        node.items.push(p);
        self.arena.insert(i, node);
        proof {
            let s0 = old(self).arena@;
            let s1 = self.arena@;
            let n1 = s1[i as int];
            assert(s1 =~= s0.update(i as int, n1));
            assert(n1.items@ == s0[i as int].items@.push(p));
            lemma_arena_points_update_push(s0, i as int, n1, p);
            assert forall|j: int| 0 <= j < s1.len() implies node_wf(s1, j) by {
                assert(node_wf(s0, j));
                if j == i {
                    assert forall|k: int|
                        0 <= k < s1[j].items@.len() implies s1[j].bounds.spec_contains(
                        (#[trigger] s1[j].items@[k]).x as int,
                        s1[j].items@[k].y as int,
                    ) by {
                        if k < s0[j].items@.len() {
                            assert(s1[j].items@[k] == s0[j].items@[k]);
                        } else {
                            assert(s1[j].items@[k] == p);
                        }
                    }
                    match s0[j].children {
                        Option::None => {
                        },
                        Option::Some(cc) => {
                            assert(children_cover(s1, j, cc)) by {
                                assert forall|px: int, py: int|
                                    s1[j].bounds.spec_contains(px, py) implies s1[cc.nw
                                    as int].bounds.spec_contains(px, py) || s1[cc.ne
                                    as int].bounds.spec_contains(px, py) || s1[cc.sw
                                    as int].bounds.spec_contains(px, py) || s1[cc.se
                                    as int].bounds.spec_contains(px, py) by {
                                    assert(children_cover(s0, j, cc));
                                    assert(s0[j].bounds.spec_contains(px, py));
                                }
                            }
                        },
                    }
                } else {
                    match s0[j].children {
                        Option::None => {
                        },
                        Option::Some(cc) => {
                            assert(s1[cc.nw as int].bounds == s0[cc.nw as int].bounds);
                            assert(s1[cc.ne as int].bounds == s0[cc.ne as int].bounds);
                            assert(s1[cc.sw as int].bounds == s0[cc.sw as int].bounds);
                            assert(s1[cc.se as int].bounds == s0[cc.se as int].bounds);
                            assert(children_cover(s1, j, cc)) by {
                                assert forall|px: int, py: int|
                                    s1[j].bounds.spec_contains(px, py) implies s1[cc.nw
                                    as int].bounds.spec_contains(px, py) || s1[cc.ne
                                    as int].bounds.spec_contains(px, py) || s1[cc.sw
                                    as int].bounds.spec_contains(px, py) || s1[cc.se
                                    as int].bounds.spec_contains(px, py) by {
                                    assert(children_cover(s0, j, cc));
                                    assert(s0[j].bounds.spec_contains(px, py));
                                }
                            }
                        },
                    }
                }
            }
            assert forall|j: int| 1 <= j < s1.len() implies has_parent(s1, j) by {
                assert(has_parent(s0, j));
                let pr = choose|pr: int| 0 <= pr < j && is_child_of(s0, pr, j);
                assert(is_child_of(s1, pr, j));
            }
            assert forall|i1: int, j: int|
                0 <= i1 < s1.len() implies #[trigger] is_child_of(s1, i1, j) == is_child_of(
                s0,
                i1,
                j,
            ) by {
                assert(s1[i1].children == s0[i1].children);
            }
            assert forall|j: int|
                0 <= j < s1.len() implies (#[trigger] s1[j]).items@.len()
                    <= old(self).spec_capacity() by {
                if j != i {
                    assert(s1[j] == s0[j]);
                }
            }
        }
    }

    /// All stored indices whose region's box the query circle could reach.
    /// The result may hold extra candidates whose exact distance exceeds the
    /// radius; callers post-filter when they need precise hits.
    pub fn query_point(&self, x: i32, y: i32, radius: i32) -> (r: Vec<usize>)
        requires
            self.wf(),
        ensures
            r@ == query_spec(self.arena_seq(), 0, x as int, y as int, radius as int),
    {
        self.query_at(0, x, y, radius)
    }

    fn query_at(&self, i: usize, cx: i32, cy: i32, radius: i32) -> (r: Vec<usize>)
        requires
            self.wf(),
            i < self.arena_seq().len(),
        ensures
            r@ == query_spec(self.arena_seq(), i as int, cx as int, cy as int, radius as int),
        decreases self.arena_seq().len() - i,
    {
        let mut out: Vec<usize> = Vec::new();
        let hit = self.arena[i].bounds.intersects_circle(cx, cy, radius);
        if !hit {
            proof {
                assert(out@ =~= query_spec(
                    self.arena_seq(),
                    i as int,
                    cx as int,
                    cy as int,
                    radius as int,
                ));
            }
            return out;
        }
        let m = self.arena[i].items.len();
        let mut k: usize = 0;
        while k < m
            invariant
                self.wf(),
                i < self.arena_seq().len(),
                m == self.arena_seq()[i as int].items@.len(),
                k <= m,
                out@ =~= self.arena_seq()[i as int].items@.map_values(
                    |p: QtPoint| p.idx,
                ).take(k as int),
            decreases m - k,
        {
            out.push(self.arena[i].items[k].idx);
            proof {
                let loc = self.arena_seq()[i as int].items@.map_values(|p: QtPoint| p.idx);
                assert(loc.take(k + 1) =~= loc.take(k as int).push(loc[k as int]));
            }
            k += 1;
        }
        proof {
            let loc = self.arena_seq()[i as int].items@.map_values(|p: QtPoint| p.idx);
            assert(out@ =~= loc);
            assert(node_wf(self.arena_seq(), i as int));
        }
        match self.arena[i].children {
            None => out,
            Some(c) => {
                let mut r1 = self.query_at(c.nw, cx, cy, radius);
                out.append(&mut r1);
                let mut r2 = self.query_at(c.ne, cx, cy, radius);
                out.append(&mut r2);
                let mut r3 = self.query_at(c.sw, cx, cy, radius);
                out.append(&mut r3);
                let mut r4 = self.query_at(c.se, cx, cy, radius);
                out.append(&mut r4);
                out
            },
        }
    }
}

/// An entry sitting in some slot's local list is among the stored contents.
proof fn lemma_slot_member_points(s: Seq<QtNode>, j: int, k: int)
    requires
        0 <= j < s.len(),
        0 <= k < s[j].items@.len(),
    ensures
        arena_points(s).contains(s[j].items@[k]),
    decreases s.len(),
{
    if j == s.len() - 1 {
        s.last().items@.to_multiset_ensures();
        assert(s.last().items@.contains(s[j].items@[k]));
        assert(s.last().items@.to_multiset().count(s[j].items@[k]) > 0);
    } else {
        lemma_slot_member_points(s.drop_last(), j, k);
        assert(s.drop_last()[j] == s[j]);
    }
}

/// Every index a query reports stands in some slot's local list: queries
/// invent nothing.
proof fn lemma_query_member_slot(s: Seq<QtNode>, i: int, idx: usize, cx: int, cy: int, r: int)
    requires
        query_spec(s, i, cx, cy, r).contains(idx),
    ensures
        exists|j: int, k: int|
            0 <= j < s.len() && 0 <= k < s[j].items@.len() && (#[trigger] s[j].items@[k]).idx
                == idx,
    decreases s.len() - i,
{
    if 0 <= i < s.len() && s[i].bounds.spec_intersects_circle(cx, cy, r) {
        let loc = s[i].items@.map_values(|q: QtPoint| q.idx);
        match s[i].children {
            Option::None => {
                let m = choose|m: int| 0 <= m < loc.len() && loc[m] == idx;
                assert(s[i].items@[m].idx == idx);
            },
            Option::Some(c) => {
                let q1 = child_query(s, i, c.nw as int, cx, cy, r);
                let q2 = child_query(s, i, c.ne as int, cx, cy, r);
                let q3 = child_query(s, i, c.sw as int, cx, cy, r);
                let q4 = child_query(s, i, c.se as int, cx, cy, r);
                let whole = loc + q1 + q2 + q3 + q4;
                let pos = choose|pos: int| 0 <= pos < whole.len() && whole[pos] == idx;
                if pos < loc.len() {
                    assert(loc[pos] == idx);
                    assert(s[i].items@[pos].idx == idx);
                } else if pos < loc.len() + q1.len() {
                    assert(q1[pos - loc.len()] == idx);
                    assert(q1.contains(idx));
                    assert(i < c.nw as int && (c.nw as int) < s.len());
                    lemma_query_member_slot(s, c.nw as int, idx, cx, cy, r);
                } else if pos < loc.len() + q1.len() + q2.len() {
                    assert(q2[pos - loc.len() - q1.len()] == idx);
                    assert(q2.contains(idx));
                    assert(i < c.ne as int && (c.ne as int) < s.len());
                    lemma_query_member_slot(s, c.ne as int, idx, cx, cy, r);
                } else if pos < loc.len() + q1.len() + q2.len() + q3.len() {
                    assert(q3[pos - loc.len() - q1.len() - q2.len()] == idx);
                    assert(q3.contains(idx));
                    assert(i < c.sw as int && (c.sw as int) < s.len());
                    lemma_query_member_slot(s, c.sw as int, idx, cx, cy, r);
                } else {
                    assert(q4[pos - loc.len() - q1.len() - q2.len() - q3.len()] == idx);
                    assert(q4.contains(idx));
                    assert(i < c.se as int && (c.se as int) < s.len());
                    lemma_query_member_slot(s, c.se as int, idx, cx, cy, r);
                }
            },
        }
    }
}

/// A query reports only stored indices: every element of the result is the
/// index of an entry that an insertion actually put into the tree.
pub proof fn lemma_query_reports_only_stored(t: Quadtree, idx: usize, cx: int, cy: int, r: int)
    requires
        t.wf(),
        query_spec(t.arena_seq(), 0, cx, cy, r).contains(idx),
    ensures
        exists|q: QtPoint| t.points().contains(q) && q.idx == idx,
{
    let s = t.arena_seq();
    lemma_query_member_slot(s, 0, idx, cx, cy, r);
    let (j, k) = choose|j: int, k: int|
        0 <= j < s.len() && 0 <= k < s[j].items@.len() && (#[trigger] s[j].items@[k]).idx == idx;
    lemma_slot_member_points(s, j, k);
    assert(t.points().contains(s[j].items@[k]));
}

/// A stored entry is somewhere in some slot's local list.
proof fn lemma_points_member_slot(s: Seq<QtNode>, p: QtPoint)
    requires
        arena_points(s).contains(p),
    ensures
        exists|j: int| 0 <= j < s.len() && (#[trigger] s[j]).items@.contains(p),
    decreases s.len(),
{
    if s.len() > 0 {
        s.last().items@.to_multiset_ensures();
        if s.last().items@.to_multiset().count(p) > 0 {
            assert(s.last().items@.contains(p));
            assert(s[s.len() - 1].items@.contains(p));
        } else {
            assert(arena_points(s.drop_last()).contains(p));
            lemma_points_member_slot(s.drop_last(), p);
            let j = choose|j: int|
                0 <= j < s.drop_last().len() && (#[trigger] s.drop_last()[j]).items@.contains(p);
            assert(s[j].items@.contains(p));
        }
    }
}

/// A box holding a point within `r` of the center intersects the circle.
proof fn lemma_point_in_box_intersects(b: AABB, px: int, py: int, cx: int, cy: int, r: int)
    requires
        b.spec_contains(px, py),
        sq_dist(px, py, cx, cy) <= r * r,
    ensures
        b.spec_intersects_circle(cx, cy, r),
{
    let nx = clamp(cx, b.min_x as int, b.max_x as int);
    let ny = clamp(cy, b.min_y as int, b.max_y as int);
    let ex = px - cx;
    let ey = py - cy;
    let mx = if ex < 0 {
        -ex
    } else {
        ex
    };
    let my = if ey < 0 {
        -ey
    } else {
        ey
    };
    assert(-mx <= nx - cx <= mx);
    assert(-my <= ny - cy <= my);
    lemma_square_bound(nx - cx, mx);
    lemma_square_bound(ny - cy, my);
    assert(mx * mx == ex * ex) by (nonlinear_arith)
        requires
            mx == ex || mx == -ex,
    ;
    assert(my * my == ey * ey) by (nonlinear_arith)
        requires
            my == ey || my == -ey,
    ;
}

/// A member on the right survives concatenation.
proof fn lemma_contains_concat_right(a: Seq<usize>, b: Seq<usize>, x: usize)
    requires
        b.contains(x),
    ensures
        (a + b).contains(x),
{
    let p = choose|p: int| 0 <= p < b.len() && b[p] == x;
    assert((a + b)[a.len() + p] == x);
}

/// A member on the left survives concatenation.
proof fn lemma_contains_concat_left(a: Seq<usize>, b: Seq<usize>, x: usize)
    requires
        a.contains(x),
    ensures
        (a + b).contains(x),
{
    let p = choose|p: int| 0 <= p < a.len() && a[p] == x;
    assert((a + b)[p] == x);
}

/// An index reported by a slot whose box holds a near point is reported by
/// the root as well: every ancestor's box also holds the point, so no
/// ancestor is pruned on the way down.
proof fn lemma_query_lift(
    s: Seq<QtNode>,
    j: int,
    idx: usize,
    px: int,
    py: int,
    cx: int,
    cy: int,
    r: int,
)
    requires
        arena_wf(s),
        0 <= j < s.len(),
        s[j].bounds.spec_contains(px, py),
        sq_dist(px, py, cx, cy) <= r * r,
        query_spec(s, j, cx, cy, r).contains(idx),
    ensures
        query_spec(s, 0, cx, cy, r).contains(idx),
    decreases j,
{
    if j > 0 {
        assert(has_parent(s, j));
        let pr = choose|pr: int| 0 <= pr < j && is_child_of(s, pr, j);
        assert(node_wf(s, pr));
        let c = s[pr].children->Some_0;
        assert(child_ok(s, pr, j));
        assert(s[j].bounds.spec_inside(s[pr].bounds));
        assert(s[pr].bounds.spec_contains(px, py));
        lemma_point_in_box_intersects(s[pr].bounds, px, py, cx, cy, r);
        let loc = s[pr].items@.map_values(|p: QtPoint| p.idx);
        let q1 = child_query(s, pr, c.nw as int, cx, cy, r);
        let q2 = child_query(s, pr, c.ne as int, cx, cy, r);
        let q3 = child_query(s, pr, c.sw as int, cx, cy, r);
        let q4 = child_query(s, pr, c.se as int, cx, cy, r);
        assert(query_spec(s, pr, cx, cy, r) == loc + q1 + q2 + q3 + q4);
        if c.nw == j {
            assert(q1 == query_spec(s, j, cx, cy, r));
            lemma_contains_concat_right(loc, q1, idx);
            lemma_contains_concat_left(loc + q1, q2, idx);
            lemma_contains_concat_left(loc + q1 + q2, q3, idx);
            lemma_contains_concat_left(loc + q1 + q2 + q3, q4, idx);
        } else if c.ne == j {
            assert(q2 == query_spec(s, j, cx, cy, r));
            lemma_contains_concat_right(loc + q1, q2, idx);
            lemma_contains_concat_left(loc + q1 + q2, q3, idx);
            lemma_contains_concat_left(loc + q1 + q2 + q3, q4, idx);
        } else if c.sw == j {
            assert(q3 == query_spec(s, j, cx, cy, r));
            lemma_contains_concat_right(loc + q1 + q2, q3, idx);
            lemma_contains_concat_left(loc + q1 + q2 + q3, q4, idx);
        } else {
            assert(c.se == j);
            assert(q4 == query_spec(s, j, cx, cy, r));
            lemma_contains_concat_right(loc + q1 + q2 + q3, q4, idx);
        }
        lemma_query_lift(s, pr, idx, px, py, cx, cy, r);
    }
}

/// A query never omits a stored entry whose true squared distance from the
/// center is within the squared radius: pruning by boxes loses no near point,
/// though farther candidates may also be reported and need post-filtering.
pub proof fn lemma_query_never_omits(t: Quadtree, p: QtPoint, cx: int, cy: int, r: int)
    requires
        t.wf(),
        t.points().contains(p),
        sq_dist(p.x as int, p.y as int, cx, cy) <= r * r,
    ensures
        query_spec(t.arena_seq(), 0, cx, cy, r).contains(p.idx),
{
    let s = t.arena_seq();
    lemma_points_member_slot(s, p);
    let j = choose|j: int| 0 <= j < s.len() && (#[trigger] s[j]).items@.contains(p);
    assert(node_wf(s, j));
    let k = choose|k: int| 0 <= k < s[j].items@.len() && s[j].items@[k] == p;
    assert(s[j].bounds.spec_contains(p.x as int, p.y as int));
    lemma_point_in_box_intersects(s[j].bounds, p.x as int, p.y as int, cx, cy, r);
    let loc = s[j].items@.map_values(|q: QtPoint| q.idx);
    assert(loc[k] == p.idx);
    assert(loc.contains(p.idx));
    match s[j].children {
        Option::None => {
            assert(query_spec(s, j, cx, cy, r) == loc);
        },
        Option::Some(c) => {
            let q1 = child_query(s, j, c.nw as int, cx, cy, r);
            let q2 = child_query(s, j, c.ne as int, cx, cy, r);
            let q3 = child_query(s, j, c.sw as int, cx, cy, r);
            let q4 = child_query(s, j, c.se as int, cx, cy, r);
            lemma_contains_concat_left(loc, q1, p.idx);
            lemma_contains_concat_left(loc + q1, q2, p.idx);
            lemma_contains_concat_left(loc + q1 + q2, q3, p.idx);
            lemma_contains_concat_left(loc + q1 + q2 + q3, q4, p.idx);
        },
    }
    lemma_query_lift(s, j, p.idx, p.x as int, p.y as int, cx, cy, r);
}

/// A subdivision followed by storing into the fresh covering quadrant is
/// exactly what the insertion spec prescribes for a full childless slot.
proof fn lemma_split_matches_spec(
    v: Seq<(AABB, Seq<QtPoint>, Option<Children>)>,
    w: Seq<(AABB, Seq<QtPoint>, Option<Children>)>,
    cap: int,
    i: int,
    t: int,
    base: int,
    p: QtPoint,
)
    requires
        0 <= i < v.len(),
        base == v.len(),
        v[i].2 is None,
        v[i].1.len() >= cap,
        w.len() == v.len() + 4,
        forall|j: int| 0 <= j < v.len() && j != i ==> w[j] == v[j],
        w[i].0 == v[i].0,
        w[i].1 == v[i].1,
        w[i].2 == Option::Some(
            Children {
                nw: base as usize,
                ne: (base + 1) as usize,
                sw: (base + 2) as usize,
                se: (base + 3) as usize,
            },
        ),
        ({
            let q = spec_quarters(v[i].0);
            &&& w[base].0 == q.0
            &&& w[base + 1].0 == q.1
            &&& w[base + 2].0 == q.2
            &&& w[base + 3].0 == q.3
        }),
        forall|j: int| base <= j < w.len() && j != t ==> (#[trigger] w[j]).1 == Seq::<
            QtPoint,
        >::empty() && w[j].2 is None,
        w[t].1 == Seq::<QtPoint>::empty().push(p),
        w[t].2 is None,
        ({
            let q = spec_quarters(v[i].0);
            t == if q.0.spec_contains(p.x as int, p.y as int) {
                base
            } else if q.1.spec_contains(p.x as int, p.y as int) {
                base + 1
            } else if q.2.spec_contains(p.x as int, p.y as int) {
                base + 2
            } else {
                base + 3
            }
        }),
    ensures
        w == spec_insert(v, cap, i, p),
{
    let node = v[i];
    let kids = Children {
        nw: base as usize,
        ne: (base + 1) as usize,
        sw: (base + 2) as usize,
        se: (base + 3) as usize,
    };
    let q = spec_quarters(node.0);
    let s1 = v.update(i, (node.0, node.1, Option::Some(kids))).push(
        (q.0, Seq::<QtPoint>::empty(), Option::<Children>::None),
    ).push((q.1, Seq::<QtPoint>::empty(), Option::<Children>::None)).push(
        (q.2, Seq::<QtPoint>::empty(), Option::<Children>::None),
    ).push((q.3, Seq::<QtPoint>::empty(), Option::<Children>::None));
    let res = s1.update(t, (s1[t].0, seq![p], Option::<Children>::None));
    assert(spec_insert(v, cap, i, p) == res);
    assert forall|j: int| 0 <= j < w.len() implies w[j] == res[j] by {
        if j == t {
            assert(res[j].1 == seq![p]);
            assert(w[j].1 =~= seq![p]);
        } else if j == i {
        } else if j < v.len() {
        } else {
            assert(w[j].1 =~= Seq::<QtPoint>::empty());
        }
    }
    assert(w =~= res);
}

/// Appending slots with no entries and changing only slot `i`'s children
/// leaves the stored contents unchanged.
proof fn lemma_points_after_subdivide(s0: Seq<QtNode>, s1: Seq<QtNode>, i: int)
    requires
        0 <= i < s0.len(),
        s1.len() == s0.len() + 4,
        forall|j: int| 0 <= j < s0.len() && j != i ==> s1[j] == s0[j],
        s1[i].items@ == s0[i].items@,
        forall|j: int| s0.len() <= j < s1.len() ==> (#[trigger] s1[j]).items@.len() == 0,
    ensures
        arena_points(s1) == arena_points(s0),
{
    let t3 = s1;
    let t2 = t3.drop_last();
    let t1 = t2.drop_last();
    let t0 = t1.drop_last();
    let t = t0.drop_last();
    lemma_arena_points_drop_last_empty(t3);
    lemma_arena_points_drop_last_empty(t2);
    lemma_arena_points_drop_last_empty(t1);
    lemma_arena_points_drop_last_empty(t0);
    assert(t.len() == s0.len());
    assert forall|j: int| 0 <= j < s0.len() implies (#[trigger] t[j]).items@ == s0[j].items@ by {
        assert(t[j] == s1[j]);
    }
    lemma_arena_points_congruent(t, s0);
}

/// A trailing slot with no entries contributes nothing.
proof fn lemma_arena_points_drop_last_empty(s: Seq<QtNode>)
    requires
        s.len() > 0,
        s.last().items@.len() == 0,
    ensures
        arena_points(s) == arena_points(s.drop_last()),
{
    s.last().items@.to_multiset_ensures();
    assert(s.last().items@.to_multiset().len() == 0);
    assert(s.last().items@.to_multiset() =~= Multiset::<QtPoint>::empty());
    assert(arena_points(s.drop_last()).add(Multiset::<QtPoint>::empty()) =~= arena_points(
        s.drop_last(),
    ));
}

/// Slots with pointwise equal entry lists hold equal contents.
proof fn lemma_arena_points_congruent(a: Seq<QtNode>, b: Seq<QtNode>)
    requires
        a.len() == b.len(),
        forall|j: int| 0 <= j < a.len() ==> (#[trigger] a[j]).items@ == b[j].items@,
    ensures
        arena_points(a) == arena_points(b),
    decreases a.len(),
{
    if a.len() > 0 {
        assert forall|j: int|
            0 <= j < a.drop_last().len() implies (#[trigger] a.drop_last()[j]).items@
            == b.drop_last()[j].items@ by {
            assert(a[j].items@ == b[j].items@);
        }
        lemma_arena_points_congruent(a.drop_last(), b.drop_last());
        assert(a.last().items@ == b.last().items@);
    }
}

/// Replacing a slot with one holding the same entries plus `p` adds exactly
/// one occurrence of `p` to the contents.
proof fn lemma_arena_points_update_push(s: Seq<QtNode>, i: int, n: QtNode, p: QtPoint)
    requires
        0 <= i < s.len(),
        n.items@ == s[i].items@.push(p),
    ensures
        arena_points(s.update(i, n)) == arena_points(s).insert(p),
    decreases s.len(),
{
    let t = s.update(i, n);
    if i == s.len() - 1 {
        assert(t.drop_last() =~= s.drop_last());
        assert(t.last() == n);
        s[i].items@.to_multiset_ensures();
        assert(n.items@.to_multiset() =~= s[i].items@.to_multiset().insert(p));
        assert(arena_points(s.drop_last()).add(s[i].items@.to_multiset().insert(p))
            =~= arena_points(s.drop_last()).add(s[i].items@.to_multiset()).insert(p));
    } else {
        assert(t.drop_last() =~= s.drop_last().update(i, n));
        lemma_arena_points_update_push(s.drop_last(), i, n, p);
        assert(t.last() == s.last());
        assert(arena_points(s.drop_last()).insert(p).add(s.last().items@.to_multiset())
            =~= arena_points(s.drop_last()).add(s.last().items@.to_multiset()).insert(p));
    }
}

/// After a subdivision the arena is still well-formed: the new quadrants are
/// sane empty leaves inside the parent, and together they tile it.
proof fn lemma_subdivide_wf(
    s0: Seq<QtNode>,
    s1: Seq<QtNode>,
    i: int,
    b: AABB,
    mid_x: int,
    mid_y: int,
    kids: Children,
)
    requires
        arena_wf(s0),
        0 <= i < s0.len(),
        s0[i].children is None,
        s0[i].bounds == b,
        b.min_x <= mid_x <= b.max_x,
        b.min_y <= mid_y <= b.max_y,
        s1.len() == s0.len() + 4,
        kids.nw == s0.len(),
        kids.ne == s0.len() + 1,
        kids.sw == s0.len() + 2,
        kids.se == s0.len() + 3,
        forall|j: int| 0 <= j < s0.len() && j != i ==> s1[j] == s0[j],
        s1[i].bounds == b,
        s1[i].items@ == s0[i].items@,
        s1[i].children == Some(kids),
        s1[kids.nw as int].bounds == (AABB {
            min_x: b.min_x,
            min_y: b.min_y,
            max_x: mid_x as i32,
            max_y: mid_y as i32,
        }),
        s1[kids.ne as int].bounds == (AABB {
            min_x: mid_x as i32,
            min_y: b.min_y,
            max_x: b.max_x,
            max_y: mid_y as i32,
        }),
        s1[kids.sw as int].bounds == (AABB {
            min_x: b.min_x,
            min_y: mid_y as i32,
            max_x: mid_x as i32,
            max_y: b.max_y,
        }),
        s1[kids.se as int].bounds == (AABB {
            min_x: mid_x as i32,
            min_y: mid_y as i32,
            max_x: b.max_x,
            max_y: b.max_y,
        }),
        forall|j: int|
            s0.len() <= j < s1.len() ==> (#[trigger] s1[j]).items@.len() == 0 && s1[j].children
                is None && s1[j].bounds.spec_wf(),
        -0x8000_0000 <= mid_x <= 0x7fff_ffff,
        -0x8000_0000 <= mid_y <= 0x7fff_ffff,
    ensures
        arena_wf(s1),
{
    assert forall|j: int| 0 <= j < s1.len() implies node_wf(s1, j) by {
        if j < s0.len() {
            assert(node_wf(s0, j));
            if j == i {
                assert(children_cover(s1, i, kids)) by {
                    assert forall|px: int, py: int| s1[i].bounds.spec_contains(px, py) implies s1[
                        kids.nw as int
                    ].bounds.spec_contains(px, py) || s1[kids.ne as int].bounds.spec_contains(
                        px,
                        py,
                    ) || s1[kids.sw as int].bounds.spec_contains(px, py) || s1[kids.se
                        as int].bounds.spec_contains(px, py) by {}
                }
            } else {
                match s0[j].children {
                    Option::None => {
                    },
                    Option::Some(c) => {
                        assert(s1[c.nw as int].bounds == s0[c.nw as int].bounds);
                        assert(s1[c.ne as int].bounds == s0[c.ne as int].bounds);
                        assert(s1[c.sw as int].bounds == s0[c.sw as int].bounds);
                        assert(s1[c.se as int].bounds == s0[c.se as int].bounds);
                        assert(children_cover(s1, j, c)) by {
                            assert forall|px: int, py: int|
                                s1[j].bounds.spec_contains(px, py) implies s1[
                                c.nw as int
                            ].bounds.spec_contains(px, py) || s1[c.ne as int].bounds.spec_contains(
                                px,
                                py,
                            ) || s1[c.sw as int].bounds.spec_contains(px, py) || s1[c.se
                                as int].bounds.spec_contains(px, py) by {
                                assert(s0[j].bounds.spec_contains(px, py));
                                assert(children_cover(s0, j, c));
                            }
                        }
                    },
                }
            }
        }
    }
    assert forall|j: int| 1 <= j < s1.len() implies has_parent(s1, j) by {
        if j < s0.len() {
            assert(has_parent(s0, j));
            let p = choose|p: int| 0 <= p < j && is_child_of(s0, p, j);
            assert(is_child_of(s1, p, j));
        } else {
            assert(is_child_of(s1, i, j));
        }
    }
    assert forall|i1: int, i2: int, j: int|
        0 <= i1 < s1.len() && 0 <= i2 < s1.len() && #[trigger] is_child_of(s1, i1, j)
            && #[trigger] is_child_of(s1, i2, j) implies i1 == i2 by {
        lemma_subdivide_parent(s0, s1, i, kids, i1, j);
        lemma_subdivide_parent(s0, s1, i, kids, i2, j);
        if j < s0.len() {
            assert(is_child_of(s0, i1, j) && is_child_of(s0, i2, j));
        }
    }
}

/// After the split, a parent relation either already existed (for old slots)
/// or points from `i` at the fresh block.
proof fn lemma_subdivide_parent(s0: Seq<QtNode>, s1: Seq<QtNode>, i: int, kids: Children, i1: int, j: int)
    requires
        arena_wf(s0),
        0 <= i < s0.len(),
        s0[i].children is None,
        s1.len() == s0.len() + 4,
        kids.nw == s0.len(),
        kids.ne == s0.len() + 1,
        kids.sw == s0.len() + 2,
        kids.se == s0.len() + 3,
        forall|j2: int| 0 <= j2 < s0.len() && j2 != i ==> s1[j2] == s0[j2],
        s1[i].children == Some(kids),
        forall|j2: int|
            s0.len() <= j2 < s1.len() ==> (#[trigger] s1[j2]).items@.len() == 0 && s1[j2].children
                is None,
        0 <= i1 < s1.len(),
        is_child_of(s1, i1, j),
    ensures
        j < s0.len() ==> i1 != i && i1 < s0.len() && is_child_of(s0, i1, j),
        j >= s0.len() ==> i1 == i,
{
    if i1 >= s0.len() {
        assert(s1[i1].children is None);
        assert(false);
    }
    if i1 == i {
        assert(kids.nw == j || kids.ne == j || kids.sw == j || kids.se == j);
        assert(j >= s0.len());
    } else {
        assert(s1[i1].children == s0[i1].children);
        assert(is_child_of(s0, i1, j));
        assert(node_wf(s0, i1));
        match s0[i1].children {
            Option::None => {
                assert(false);
            },
            Option::Some(c) => {
                assert(child_ok(s0, i1, c.nw as int));
                assert(child_ok(s0, i1, c.ne as int));
                assert(child_ok(s0, i1, c.sw as int));
                assert(child_ok(s0, i1, c.se as int));
                assert(j < s0.len());
            },
        }
    }
}

} // verus!
