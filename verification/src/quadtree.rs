//! The quadtree itself: a recursive node structure with adaptive
//! subdivision, insertion (single and batch), removal with eager merging,
//! region queries, nearest-neighbour lookup and all-pairs intersection
//! search.
//!
//! Quadrants are numbered counter-clockwise: 0 bottom-left, 1 bottom-right,
//! 2 top-right, 3 top-left. A node is a leaf while it has no children; an
//! interior node has exactly four children plus an overflow list for values
//! that straddle its center lines or lie outside its bounds.

use vstd::prelude::*;

use vstd::multiset::Multiset;

use crate::geom::Rect;
use crate::geom::child_bounds;
use crate::geom::quadrant_of;
use crate::geom::rects_overlap_strict;
use crate::quad_val::QuadVal;
use crate::quad_val::center_dist_sq;

verus! {

broadcast use
    vstd::seq_lib::group_seq_properties,
    vstd::seq_lib::group_seq_lib_default,
    vstd::multiset::group_multiset_axioms;

/// How many values a leaf may hold before an insertion subdivides it.
/// A tunable; leaves at `MAX_DEPTH` grow past it without splitting.
pub const THRESHOLD: usize = 16;

/// Depth at and below which leaves are never subdivided.
pub const MAX_DEPTH: usize = 8;

/// The four children of an interior node, in quadrant order.
pub struct Kids {
    /// Quadrant 0: bottom-left.
    pub bl: QNode,
    /// Quadrant 1: bottom-right.
    pub br: QNode,
    /// Quadrant 2: top-right.
    pub tr: QNode,
    /// Quadrant 3: top-left.
    pub tl: QNode,
}

/// A quadtree node: a list of values plus, for interior nodes, four
/// children. Leaves hold their values directly; an interior node's own
/// list holds only straddlers and out-of-bounds values.
pub struct QNode {
    pub values: Vec<QuadVal>,
    pub kids: Option<Box<Kids>>,
}

/// The predicate satisfied by values assigned to quadrant `i` of `bounds`.
pub open spec fn in_quadrant(bounds: Rect, i: int) -> spec_fn(QuadVal) -> bool {
    |v: QuadVal| quadrant_of(bounds, v.aabb_sp()) == Some(i)
}

/// The predicate satisfied by values no single quadrant of `bounds`
/// contains: straddlers and out-of-bounds values.
pub open spec fn straddles(bounds: Rect) -> spec_fn(QuadVal) -> bool {
    |v: QuadVal| quadrant_of(bounds, v.aabb_sp()) is None
}

/// The degenerate rectangle covering exactly the point `(px, py)`: the
/// bounding box of a zero-sized shape at that position.
pub open spec fn point_rect(px: int, py: int) -> Rect {
    Rect { min_x: px as i64, min_y: py as i64, max_x: px as i64, max_y: py as i64 }
}

/// The predicate satisfied by values whose shape meets `region`.
pub open spec fn hits(region: Rect) -> spec_fn(QuadVal) -> bool {
    |v: QuadVal| v.intersects_rect_sp(region)
}

/// The pairs `(v, u)` for each `u` of `s` whose shape meets `v`, in the
/// order of `s`.
pub open spec fn pairs_with(s: Seq<QuadVal>, v: QuadVal) -> Seq<(QuadVal, QuadVal)>
    decreases s.len(),
{
    if s.len() == 0 {
        Seq::<(QuadVal, QuadVal)>::empty()
    } else {
        pairs_with(s.drop_last(), v) + (if v.intersects_sp(s.last()) {
            seq![(v, s.last())]
        } else {
            Seq::<(QuadVal, QuadVal)>::empty()
        })
    }
}

/// The pairs `(s[i], s[j])` with `j < i` whose shapes meet, each pair
/// once, in scan order.
pub open spec fn pairs_among(s: Seq<QuadVal>) -> Seq<(QuadVal, QuadVal)>
    decreases s.len(),
{
    if s.len() == 0 {
        Seq::<(QuadVal, QuadVal)>::empty()
    } else {
        pairs_among(s.drop_last()) + pairs_with(s.drop_last(), s.last())
    }
}

/// Every value in the sequence has a well-formed shape.
pub open spec fn vals_wf(s: Seq<QuadVal>) -> bool {
    forall|v: QuadVal| #[trigger] s.contains(v) ==> v.wf()
}

/// The index of the first occurrence of `val` in `s`, or -1 when `s` does
/// not contain it.
pub open spec fn first_index_of(s: Seq<QuadVal>, val: QuadVal) -> int
    decreases s.len(),
{
    if s.len() == 0 {
        -1
    } else if s[0] == val {
        0
    } else {
        let r = first_index_of(s.drop_first(), val);
        if r < 0 {
            -1
        } else {
            r + 1
        }
    }
}

/// `s` with its first occurrence of `val` removed by swap-removal: the
/// last element moves into the freed slot and the sequence shrinks by
/// one. A sequence without `val` comes back unchanged.
pub open spec fn swap_removed(s: Seq<QuadVal>, val: QuadVal) -> Seq<QuadVal> {
    let i = first_index_of(s, val);
    if i < 0 {
        s
    } else {
        s.update(i, s.last()).drop_last()
    }
}

/// `first_index_of` reports containment and finds the first occurrence.
proof fn lemma_first_index_of(s: Seq<QuadVal>, val: QuadVal)
    ensures
        first_index_of(s, val) < 0 <==> !s.contains(val),
        first_index_of(s, val) >= 0 ==> first_index_of(s, val) < s.len() && s[first_index_of(
            s,
            val,
        )] == val,
        forall|j: int| 0 <= j < first_index_of(s, val) ==> s[j] != val,
    decreases s.len(),
{
    if s.len() == 0 {
    } else if s[0] == val {
        assert(s.contains(val));
    } else {
        let rest = s.drop_first();
        lemma_first_index_of(rest, val);
        let r = first_index_of(rest, val);
        if s.contains(val) {
            let k = choose|k: int| 0 <= k < s.len() && s[k] == val;
            assert(rest[k - 1] == val);
            assert(rest.contains(val));
        }
        if rest.contains(val) {
            assert(s[r + 1] == rest[r]);
            assert(s.contains(val)) by {
                assert(s[r + 1] == val);
            }
        }
        assert forall|j: int| 0 <= j < first_index_of(s, val) implies s[j] != val by {
            if j > 0 {
                assert(s[j] == rest[j - 1]);
            }
        }
    }
}

/// How `subdivide` turns the leaf `pre` into the interior node `post`:
/// four fresh leaf children, each holding exactly the values of its
/// quadrant in stored order, with the straddlers and out-of-bounds values
/// staying behind, in order.
pub open spec fn is_subdivided(pre: QNode, post: QNode, bounds: Rect) -> bool {
    &&& post.kids is Some
    &&& post.values@ == pre.values@.filter(straddles(bounds))
    &&& forall|i: int| 0 <= i < 4 ==> (#[trigger] post.child(i)).kids is None
    &&& forall|i: int| 0 <= i < 4 ==> (#[trigger] post.child(i)).values@ == pre.values@.filter(
        in_quadrant(bounds, i),
    )
}

/// How `try_merge` relates the interior node `pre` to `post`: it merges
/// exactly when all four children are leaves and the combined value count
/// fits in a leaf, absorbing the children's values in quadrant order;
/// otherwise nothing changes.
pub open spec fn is_try_merge_outcome(pre: QNode, post: QNode, merged: bool) -> bool
    recommends
        pre.kids is Some,
{
    &&& merged == (pre.child(0).is_leaf_sp() && pre.child(1).is_leaf_sp() && pre.child(
        2,
    ).is_leaf_sp() && pre.child(3).is_leaf_sp() && pre.values@.len() + pre.child(0).values@.len()
        + pre.child(1).values@.len() + pre.child(2).values@.len() + pre.child(3).values@.len()
        <= THRESHOLD)
    &&& if merged {
        post.kids is None && post.values@ == pre.values@ + pre.child(0).values@ + pre.child(
            1,
        ).values@ + pre.child(2).values@ + pre.child(3).values@
    } else {
        post == pre
    }
}

/// The non-recursive frame of one `insert` step on a node that is full
/// or interior: a full leaf first subdivides into `mid` (an interior node
/// stands unchanged), then the value is appended to `mid`'s own list when
/// no single quadrant contains it, or exactly the child of its quadrant
/// changes between `mid` and `post`.
pub open spec fn insert_step(
    pre: QNode,
    mid: QNode,
    post: QNode,
    bounds: Rect,
    val: QuadVal,
) -> bool {
    &&& if pre.kids is None {
        is_subdivided(pre, mid, bounds)
    } else {
        mid == pre
    }
    &&& mid.kids is Some
    &&& match quadrant_of(bounds, val.aabb_sp()) {
        None => post.kids == mid.kids && post.values@ == mid.values@.push(val),
        Some(i) => {
            &&& post.kids is Some
            &&& post.values@ == mid.values@
            &&& forall|j: int| 0 <= j < 4 && j != i ==> #[trigger] post.child(j) == mid.child(j)
        },
    }
}

/// The exact structural effect of `insert`: a leaf with room (or at the
/// depth limit) appends the value; otherwise the value is placed by one
/// [`insert_step`] — a full leaf subdivides first — and descends
/// recursively into the single quadrant that fully contains its bounding
/// box, or stays here as a straddler. The depth-limit branch is
/// unreachable for well-formed trees, whose interior nodes all sit above
/// `MAX_DEPTH`.
pub open spec fn is_insert_result(
    pre: QNode,
    post: QNode,
    bounds: Rect,
    depth: nat,
    val: QuadVal,
) -> bool
    decreases MAX_DEPTH - depth,
{
    if pre.kids is None && (depth >= MAX_DEPTH || pre.values@.len() < THRESHOLD) {
        post.kids == pre.kids && post.values@ == pre.values@.push(val)
    } else if depth >= MAX_DEPTH {
        false
    } else {
        exists|mid: QNode|
            #[trigger] insert_step(pre, mid, post, bounds, val) && (quadrant_of(
                bounds,
                val.aabb_sp(),
            ) matches Some(i) ==> is_insert_result(
                mid.child(i),
                post.child(i),
                child_bounds(bounds, i),
                depth + 1,
                val,
            ))
    }
}

/// The non-recursive frame of one `insert_many` step on a node that
/// cannot keep the batch: a leaf first subdivides into `mid` (an interior
/// node stands unchanged), the straddlers and out-of-bounds values of the
/// batch are appended to `mid`'s own list in order, and a child whose
/// quadrant receives no part of the batch is unchanged between `mid` and
/// `post`.
pub open spec fn insert_many_step(
    pre: QNode,
    mid: QNode,
    post: QNode,
    bounds: Rect,
    items: Seq<QuadVal>,
) -> bool {
    &&& if pre.kids is None {
        is_subdivided(pre, mid, bounds)
    } else {
        mid == pre
    }
    &&& mid.kids is Some
    &&& post.kids is Some
    &&& post.values@ == mid.values@ + items.filter(straddles(bounds))
    &&& forall|i: int|
        0 <= i < 4 && items.filter(in_quadrant(bounds, i)).len() == 0 ==> #[trigger] post.child(i)
            == mid.child(i)
}

/// The exact structural effect of `insert_many`: a leaf keeps the whole
/// batch, appended in order, when it fits (or the leaf sits at the depth
/// limit); otherwise the batch is partitioned by quadrant in one
/// [`insert_many_step`] — a leaf subdivides first — and each non-empty
/// group descends recursively into its child. The depth-limit branch is
/// unreachable for well-formed trees, whose interior nodes all sit above
/// `MAX_DEPTH`.
pub open spec fn is_insert_many_result(
    pre: QNode,
    post: QNode,
    bounds: Rect,
    depth: nat,
    items: Seq<QuadVal>,
) -> bool
    decreases MAX_DEPTH - depth,
{
    if pre.kids is None && (pre.values@.len() + items.len() <= THRESHOLD || depth >= MAX_DEPTH) {
        post.kids == pre.kids && post.values@ == pre.values@ + items
    } else if depth >= MAX_DEPTH {
        false
    } else {
        exists|mid: QNode|
            #[trigger] insert_many_step(pre, mid, post, bounds, items) && (forall|i: int|
                0 <= i < 4 && items.filter(in_quadrant(bounds, i)).len() != 0
                    ==> is_insert_many_result(
                    #[trigger] mid.child(i),
                    post.child(i),
                    child_bounds(bounds, i),
                    depth + 1,
                    items.filter(in_quadrant(bounds, i)),
                ))
    }
}

/// Whether `remove` tells its caller to try a merge: a leaf reports that
/// it removed something, and an interior node reports that it collapsed
/// into a leaf itself.
pub open spec fn remove_merge_flag(pre: QNode, post: QNode, val: QuadVal) -> bool {
    (pre.is_leaf_sp() && pre.values@.contains(val)) || (!pre.is_leaf_sp() && post.is_leaf_sp())
}

/// The non-recursive frame of one `remove` step on an interior node whose
/// quadrant `i` would contain the value: only that child changes between
/// `pre` and `mid`; if the child reported a removal below (`sub`), the
/// node then tries to merge, with `flag` that merge's outcome, else
/// nothing more happens and no merge is suggested upward.
pub open spec fn remove_step(
    pre: QNode,
    mid: QNode,
    post: QNode,
    i: int,
    sub: bool,
    flag: bool,
) -> bool {
    &&& pre.kids is Some
    &&& mid.kids is Some
    &&& 0 <= i < 4
    &&& mid.values@ == pre.values@
    &&& forall|j: int| 0 <= j < 4 && j != i ==> #[trigger] mid.child(j) == pre.child(j)
    &&& if sub {
        is_try_merge_outcome(mid, post, flag)
    } else {
        post == mid && flag == false
    }
}

/// The exact structural effect of `remove`: a leaf swap-removes the first
/// occurrence from its own list and reports whether it removed anything;
/// an interior node swap-removes a straddler from its own list, or
/// descends into the single quadrant that would contain the value by one
/// [`remove_step`] and then merges eagerly where a removal happened
/// below.
pub open spec fn is_remove_result(
    pre: QNode,
    post: QNode,
    bounds: Rect,
    val: QuadVal,
    flag: bool,
) -> bool
    decreases pre,
{
    if pre.kids is None {
        &&& post.kids is None
        &&& post.values@ == swap_removed(pre.values@, val)
        &&& flag == pre.values@.contains(val)
    } else {
        match quadrant_of(bounds, val.aabb_sp()) {
            None => {
                &&& post.kids == pre.kids
                &&& post.values@ == swap_removed(pre.values@, val)
                &&& flag == false
            },
            Some(i) => exists|mid: QNode, sub: bool|
                #[trigger] remove_step(pre, mid, post, i, sub, flag) && is_remove_result(
                    pre.child(i),
                    mid.child(i),
                    child_bounds(bounds, i),
                    val,
                    sub,
                ),
        }
    }
}

impl QNode {
    /// A node is a leaf exactly when it has no children.
    pub open spec fn is_leaf_sp(self) -> bool {
        self.kids is None
    }

    /// The child in quadrant `i` of an interior node.
    pub open spec fn child(self, i: int) -> QNode
        recommends
            self.kids is Some,
            0 <= i < 4,
    {
        let k = self.kids->0;
        if i == 0 {
            k.bl
        } else if i == 1 {
            k.br
        } else if i == 2 {
            k.tr
        } else {
            k.tl
        }
    }

    /// Every value stored in this subtree: the node's own values first,
    /// then the children's, depth first in quadrant order.
    pub open spec fn all_vals(self) -> Seq<QuadVal>
        decreases self,
    {
        match self.kids {
            None => self.values@,
            Some(k) => self.values@ + k.bl.all_vals() + k.br.all_vals() + k.tr.all_vals()
                + k.tl.all_vals(),
        }
    }

    /// Well-formedness of a subtree rooted at `bounds` and `depth`:
    /// shapes are well formed, interior nodes exist only above
    /// `MAX_DEPTH`, a leaf above `MAX_DEPTH` holds at most `THRESHOLD`
    /// values (deeper leaves grow unbounded), an interior node's own
    /// values straddle its center lines, and each child subtree holds
    /// only values its quadrant fully contains and is itself well formed
    /// over its sub-bounds.
    pub open spec fn wf(self, bounds: Rect, depth: nat) -> bool
        decreases self,
    {
        &&& vals_wf(self.values@)
        &&& (self.kids is None && depth < MAX_DEPTH ==> self.values@.len() <= THRESHOLD)
        &&& match self.kids {
            None => true,
            Some(k) => {
                &&& depth < MAX_DEPTH
                &&& forall|v: QuadVal| #[trigger] self.values@.contains(v)
                    ==> quadrant_of(bounds, v.aabb_sp()) is None
                &&& k.bl.wf(child_bounds(bounds, 0), depth + 1)
                &&& k.br.wf(child_bounds(bounds, 1), depth + 1)
                &&& k.tr.wf(child_bounds(bounds, 2), depth + 1)
                &&& k.tl.wf(child_bounds(bounds, 3), depth + 1)
                &&& forall|v: QuadVal| #[trigger] k.bl.all_vals().contains(v)
                    ==> quadrant_of(bounds, v.aabb_sp()) == Some(0int)
                &&& forall|v: QuadVal| #[trigger] k.br.all_vals().contains(v)
                    ==> quadrant_of(bounds, v.aabb_sp()) == Some(1int)
                &&& forall|v: QuadVal| #[trigger] k.tr.all_vals().contains(v)
                    ==> quadrant_of(bounds, v.aabb_sp()) == Some(2int)
                &&& forall|v: QuadVal| #[trigger] k.tl.all_vals().contains(v)
                    ==> quadrant_of(bounds, v.aabb_sp()) == Some(3int)
            },
        }
    }

    /// Every value in a well-formed subtree has a well-formed shape.
    pub proof fn lemma_all_vals_wf(self, bounds: Rect, depth: nat)
        requires
            self.wf(bounds, depth),
        ensures
            vals_wf(self.all_vals()),
        decreases self,
    {
        match self.kids {
            None => {},
            Some(k) => {
                k.bl.lemma_all_vals_wf(child_bounds(bounds, 0), depth + 1);
                k.br.lemma_all_vals_wf(child_bounds(bounds, 1), depth + 1);
                k.tr.lemma_all_vals_wf(child_bounds(bounds, 2), depth + 1);
                k.tl.lemma_all_vals_wf(child_bounds(bounds, 3), depth + 1);
                assert forall|v: QuadVal| #[trigger] self.all_vals().contains(v) implies v.wf() by {
                    lemma_concat5_contains(
                        self.values@,
                        k.bl.all_vals(),
                        k.br.all_vals(),
                        k.tr.all_vals(),
                        k.tl.all_vals(),
                        v,
                    );
                }
            },
        }
    }

    /// Creates an empty leaf.
    pub fn new() -> (n: Self)
        ensures
            n.values@ == Seq::<QuadVal>::empty(),
            n.is_leaf_sp(),
            n.all_vals() == Seq::<QuadVal>::empty(),
            forall|bounds: Rect, depth: nat| n.wf(bounds, depth),
    {
        let n = QNode { values: Vec::new(), kids: None };
        proof {
            assert(n.values@ =~= Seq::<QuadVal>::empty());
        }
        n
    }

    /// Whether this node is a leaf.
    #[must_use]
    pub fn is_leaf(&self) -> (b: bool)
        ensures
            b == self.is_leaf_sp(),
    {
        self.kids.is_none()
    }
}

/// Computes the bounds of the child quadrant `idx` of `parent`.
pub fn compute_bounds(parent: Rect, idx: usize) -> (r: Rect)
    requires
        parent.wf(),
        idx < 4,
    ensures
        r == child_bounds(parent, idx as int),
{
    crate::geom::compute_rect(&parent, idx as u8)
}

/// Finds the quadrant of `bounds` that fully contains the value's
/// bounding box, if any.
pub fn find_quadrant(bounds: &Rect, val: &QuadVal) -> (r: Option<usize>)
    requires
        bounds.wf(),
    ensures
        r is Some <==> quadrant_of(*bounds, val.aabb_sp()) is Some,
        r is Some ==> r->0 as int == quadrant_of(*bounds, val.aabb_sp())->0,
        r is Some ==> r->0 < 4,
{
    let ab = val.aabb();
    proof {
        crate::geom::lemma_quadrant_range(*bounds, val.aabb_sp());
    }
    match crate::geom::find_quadrant(bounds, &ab) {
        Some(i) => Some(i as usize),
        None => None,
    }
}

impl QNode {
    /// Subdivides a leaf: allocates four empty children and moves every
    /// value that fits entirely in one quadrant into that child, keeping
    /// the straddlers and out-of-bounds values here. Relative order is
    /// preserved everywhere.
    pub fn subdivide(&mut self, bounds: Rect)
        requires
            old(self).is_leaf_sp(),
            bounds.wf(),
        ensures
            final(self).kids is Some,
            final(self).values@ == old(self).values@.filter(straddles(bounds)),
            forall|i: int| 0 <= i < 4 ==> (#[trigger] final(self).child(i)).is_leaf_sp(),
            forall|i: int| 0 <= i < 4 ==> (#[trigger] final(self).child(i)).values@ == old(
                self,
            ).values@.filter(in_quadrant(bounds, i)),
            final(self).all_vals().to_multiset() == old(self).all_vals().to_multiset(),
    {
        let mut g0: Vec<QuadVal> = Vec::new();
        let mut g1: Vec<QuadVal> = Vec::new();
        let mut g2: Vec<QuadVal> = Vec::new();
        let mut g3: Vec<QuadVal> = Vec::new();
        let mut rest: Vec<QuadVal> = Vec::new();
        let n = self.values.len();
        let mut i: usize = 0;
        while i < n
            invariant
                i <= n,
                n == self.values.len(),
                self.values@ == old(self).values@,
                self.kids is None,
                bounds.wf(),
                g0@ == self.values@.take(i as int).filter(in_quadrant(bounds, 0)),
                g1@ == self.values@.take(i as int).filter(in_quadrant(bounds, 1)),
                g2@ == self.values@.take(i as int).filter(in_quadrant(bounds, 2)),
                g3@ == self.values@.take(i as int).filter(in_quadrant(bounds, 3)),
                rest@ == self.values@.take(i as int).filter(straddles(bounds)),
            decreases n - i,
        {
            let v = self.values[i];
            let taken = Ghost(self.values@.take(i as int));
            proof {
                assert(self.values@.take(i + 1) == taken@.push(v));
                taken@.lemma_filter_push(v, in_quadrant(bounds, 0));
                taken@.lemma_filter_push(v, in_quadrant(bounds, 1));
                taken@.lemma_filter_push(v, in_quadrant(bounds, 2));
                taken@.lemma_filter_push(v, in_quadrant(bounds, 3));
                taken@.lemma_filter_push(v, straddles(bounds));
            }
            match find_quadrant(&bounds, &v) {
                Some(idx) => {
                    if idx == 0 {
                        g0.push(v);
                    } else if idx == 1 {
                        g1.push(v);
                    } else if idx == 2 {
                        g2.push(v);
                    } else {
                        g3.push(v);
                    }
                },
                None => {
                    rest.push(v);
                },
            }
            i += 1;
        }
        proof {
            assert(self.values@.take(n as int) == self.values@);
        }
        self.values = rest;
        self.kids = Some(
            Box::new(
                Kids {
                    bl: QNode { values: g0, kids: None },
                    br: QNode { values: g1, kids: None },
                    tr: QNode { values: g2, kids: None },
                    tl: QNode { values: g3, kids: None },
                },
            ),
        );
        proof {
            lemma_partition_multiset(old(self).values@, bounds);
            lemma_concat5_multiset(
                self.values@,
                self.child(0).all_vals(),
                self.child(1).all_vals(),
                self.child(2).all_vals(),
                self.child(3).all_vals(),
            );
        }
    }
}

/// After one child of a well-formed interior node absorbs a value of its
/// quadrant, the node is well formed again and its value multiset has
/// gained exactly that value.
proof fn lemma_interior_child_insert(
    mid: QNode,
    fin: QNode,
    bounds: Rect,
    depth: nat,
    idx: int,
    val: QuadVal,
)
    requires
        mid.wf(bounds, depth),
        mid.kids is Some,
        fin.kids is Some,
        fin.values@ == mid.values@,
        0 <= idx < 4,
        forall|j: int| 0 <= j < 4 && j != idx ==> #[trigger] fin.child(j) == mid.child(j),
        fin.child(idx).wf(child_bounds(bounds, idx), depth + 1),
        fin.child(idx).all_vals().to_multiset() == mid.child(idx).all_vals().to_multiset().insert(
            val,
        ),
        quadrant_of(bounds, val.aabb_sp()) == Some(idx),
    ensures
        fin.wf(bounds, depth),
        fin.all_vals().to_multiset() == mid.all_vals().to_multiset().insert(val),
{
    let mk = mid.kids->0;
    let fk = fin.kids->0;
    assert(mid.child(0) == mk.bl && mid.child(1) == mk.br && mid.child(2) == mk.tr && mid.child(3)
        == mk.tl);
    assert(fin.child(0) == fk.bl && fin.child(1) == fk.br && fin.child(2) == fk.tr && fin.child(3)
        == fk.tl);
    fin.child(idx).all_vals().to_multiset_ensures();
    mid.child(idx).all_vals().to_multiset_ensures();
    assert forall|v: QuadVal| #[trigger] fin.child(idx).all_vals().contains(v) implies quadrant_of(
        bounds,
        v.aabb_sp(),
    ) == Some(idx) by {
        if v != val {
            assert(fin.child(idx).all_vals().to_multiset().count(v) > 0);
            assert(fin.child(idx).all_vals().to_multiset().count(v) == mid.child(
                idx,
            ).all_vals().to_multiset().insert(val).count(v));
            assert(mid.child(idx).all_vals().to_multiset().count(v) > 0);
            assert(mid.child(idx).all_vals().contains(v));
        }
    }
    assert(vals_wf(fin.child(idx).all_vals())) by {
        fin.child(idx).lemma_all_vals_wf(child_bounds(bounds, idx), depth + 1);
    }
    assert(fin.wf(bounds, depth));
    lemma_concat5_multiset(
        mid.values@,
        mk.bl.all_vals(),
        mk.br.all_vals(),
        mk.tr.all_vals(),
        mk.tl.all_vals(),
    );
    lemma_concat5_multiset(
        fin.values@,
        fk.bl.all_vals(),
        fk.br.all_vals(),
        fk.tr.all_vals(),
        fk.tl.all_vals(),
    );
    assert(fin.all_vals().to_multiset() =~= mid.all_vals().to_multiset().insert(val));
}

impl QNode {
    /// Inserts `val` into the subtree. A leaf absorbs the value directly
    /// while it has room (or sits at `MAX_DEPTH`); otherwise the leaf is
    /// subdivided and the value descends into the single quadrant that
    /// fully contains its bounding box, or stays here as a straddler.
    pub fn insert(&mut self, bounds: Rect, depth: usize, val: QuadVal)
        requires
            old(self).wf(bounds, depth as nat),
            bounds.wf(),
            val.wf(),
        ensures
            final(self).wf(bounds, depth as nat),
            is_insert_result(*old(self), *final(self), bounds, depth as nat, val),
            final(self).all_vals().to_multiset() == old(self).all_vals().to_multiset().insert(val),
        decreases MAX_DEPTH - depth,
    {
        let is_l = self.is_leaf();
        if is_l && (depth >= MAX_DEPTH || self.values.len() < THRESHOLD) {
            // insert the value in this node if possible
            self.values.push(val);
            proof {
                old(self).values@.to_multiset_ensures();
                vstd::seq_lib::to_multiset_build(old(self).values@, val);
                assert forall|v: QuadVal| #[trigger] self.values@.contains(v) implies v.wf() by {
                    if v != val {
                        assert(old(self).values@.contains(v));
                    }
                }
            }
        } else {
            if is_l {
                // split, then place the value as an interior node would
                self.subdivide(bounds);
                proof {
                    let vs = old(self).values@;
                    let k = self.kids->0;
                    assert(k.bl == self.child(0) && k.br == self.child(1) && k.tr == self.child(2)
                        && k.tl == self.child(3));
                    assert forall|v: QuadVal| #[trigger] self.values@.contains(v) implies v.wf()
                        && quadrant_of(bounds, v.aabb_sp()) is None by {
                        lemma_filter_is_subset(vs, straddles(bounds), v);
                    }
                    lemma_fresh_kid_wf(vs, k.bl, bounds, depth as nat + 1, 0);
                    lemma_fresh_kid_wf(vs, k.br, bounds, depth as nat + 1, 1);
                    lemma_fresh_kid_wf(vs, k.tr, bounds, depth as nat + 1, 2);
                    lemma_fresh_kid_wf(vs, k.tl, bounds, depth as nat + 1, 3);
                    assert(self.wf(bounds, depth as nat));
                }
            }
            let ghost mid = *self;
            match find_quadrant(&bounds, &val) {
                Some(idx) => {
                    // Add the value to the child that entirely contains it
                    let cb = compute_bounds(bounds, idx);
                    let mut kids = self.kids.take().unwrap();
                    if idx == 0 {
                        kids.bl.insert(cb, depth + 1, val);
                    } else if idx == 1 {
                        kids.br.insert(cb, depth + 1, val);
                    } else if idx == 2 {
                        kids.tr.insert(cb, depth + 1, val);
                    } else {
                        kids.tl.insert(cb, depth + 1, val);
                    }
                    self.kids = Some(kids);
                    proof {
                        lemma_interior_child_insert(
                            mid,
                            *self,
                            bounds,
                            depth as nat,
                            idx as int,
                            val,
                        );
                    }
                },
                None => {
                    // Otherwise keep the value in the current node.
                    self.values.push(val);
                    proof {
                        mid.values@.to_multiset_ensures();
                        vstd::seq_lib::to_multiset_build(mid.values@, val);
                        assert forall|v: QuadVal| #[trigger] self.values@.contains(v) implies v.wf()
                            && quadrant_of(bounds, v.aabb_sp()) is None by {
                            if v != val {
                                assert(mid.values@.contains(v));
                            }
                        }
                        let k = self.kids->0;
                        lemma_concat5_multiset(
                            mid.values@,
                            k.bl.all_vals(),
                            k.br.all_vals(),
                            k.tr.all_vals(),
                            k.tl.all_vals(),
                        );
                        lemma_concat5_multiset(
                            self.values@,
                            k.bl.all_vals(),
                            k.br.all_vals(),
                            k.tr.all_vals(),
                            k.tl.all_vals(),
                        );
                        assert(self.all_vals().to_multiset() =~= mid.all_vals().to_multiset().insert(
                            val,
                        ));
                    }
                },
            }
            proof {
                if !old(self).is_leaf_sp() {
                    assert(mid == *old(self));
                } else {
                    assert(mid.all_vals().to_multiset() == old(self).all_vals().to_multiset());
                    assert(is_subdivided(*old(self), mid, bounds));
                }
                assert(is_insert_result(*old(self), *self, bounds, depth as nat, val)) by {
                    assert(insert_step(*old(self), mid, *self, bounds, val) && (quadrant_of(
                        bounds,
                        val.aabb_sp(),
                    ) matches Some(i) ==> is_insert_result(
                        mid.child(i),
                        self.child(i),
                        child_bounds(bounds, i),
                        depth as nat + 1,
                        val,
                    )));
                }
            }
        }
    }
}

/// A fresh leaf holding the quadrant-`i` filter of a well-formed value
/// sequence is a well-formed child for quadrant `i`.
proof fn lemma_fresh_kid_wf(vs: Seq<QuadVal>, kid: QNode, bounds: Rect, depth: nat, i: int)
    requires
        kid.kids is None,
        kid.values@ == vs.filter(in_quadrant(bounds, i)),
        vals_wf(vs),
        vs.len() <= THRESHOLD,
        0 <= i < 4,
    ensures
        kid.wf(child_bounds(bounds, i), depth),
        forall|v: QuadVal| #[trigger] kid.all_vals().contains(v) ==> quadrant_of(
            bounds,
            v.aabb_sp(),
        ) == Some(i),
{
    assert(kid.all_vals() == kid.values@);
    assert forall|v: QuadVal| #[trigger] kid.values@.contains(v) implies v.wf() && quadrant_of(
        bounds,
        v.aabb_sp(),
    ) == Some(i) by {
        lemma_filter_is_subset(vs, in_quadrant(bounds, i), v);
    }
    assert forall|v: QuadVal| #[trigger] kid.all_vals().contains(v) implies quadrant_of(
        bounds,
        v.aabb_sp(),
    ) == Some(i) by {
        assert(kid.values@.contains(v));
    }
}

/// Splits `items` into five groups: one per quadrant of `bounds`, in
/// quadrant order, plus the values no single quadrant contains. Relative
/// order is preserved within each group.
pub fn group_by_quadrant(bounds: &Rect, items: &Vec<QuadVal>) -> (g: (
    Vec<QuadVal>,
    Vec<QuadVal>,
    Vec<QuadVal>,
    Vec<QuadVal>,
    Vec<QuadVal>,
))
    requires
        bounds.wf(),
    ensures
        g.0@ == items@.filter(in_quadrant(*bounds, 0)),
        g.1@ == items@.filter(in_quadrant(*bounds, 1)),
        g.2@ == items@.filter(in_quadrant(*bounds, 2)),
        g.3@ == items@.filter(in_quadrant(*bounds, 3)),
        g.4@ == items@.filter(straddles(*bounds)),
{
    let mut g0: Vec<QuadVal> = Vec::new();
    let mut g1: Vec<QuadVal> = Vec::new();
    let mut g2: Vec<QuadVal> = Vec::new();
    let mut g3: Vec<QuadVal> = Vec::new();
    let mut rest: Vec<QuadVal> = Vec::new();
    let n = items.len();
    let mut i: usize = 0;
    while i < n
        invariant
            i <= n,
            n == items.len(),
            bounds.wf(),
            g0@ == items@.take(i as int).filter(in_quadrant(*bounds, 0)),
            g1@ == items@.take(i as int).filter(in_quadrant(*bounds, 1)),
            g2@ == items@.take(i as int).filter(in_quadrant(*bounds, 2)),
            g3@ == items@.take(i as int).filter(in_quadrant(*bounds, 3)),
            rest@ == items@.take(i as int).filter(straddles(*bounds)),
        decreases n - i,
    {
        let v = items[i];
        let taken = Ghost(items@.take(i as int));
        proof {
            assert(items@.take(i + 1) == taken@.push(v));
            taken@.lemma_filter_push(v, in_quadrant(*bounds, 0));
            taken@.lemma_filter_push(v, in_quadrant(*bounds, 1));
            taken@.lemma_filter_push(v, in_quadrant(*bounds, 2));
            taken@.lemma_filter_push(v, in_quadrant(*bounds, 3));
            taken@.lemma_filter_push(v, straddles(*bounds));
        }
        match find_quadrant(bounds, &v) {
            Some(idx) => {
                if idx == 0 {
                    g0.push(v);
                } else if idx == 1 {
                    g1.push(v);
                } else if idx == 2 {
                    g2.push(v);
                } else {
                    g3.push(v);
                }
            },
            None => {
                rest.push(v);
            },
        }
        i += 1;
    }
    proof {
        assert(items@.take(n as int) == items@);
    }
    (g0, g1, g2, g3, rest)
}

/// After the children of a well-formed interior node absorb one batch per
/// quadrant and the node's own list grows by the straddlers, the node is
/// well formed again and its value multiset has gained all five batches.
proof fn lemma_interior_batch(
    mid: QNode,
    fin: QNode,
    bounds: Rect,
    depth: nat,
    g0: Seq<QuadVal>,
    g1: Seq<QuadVal>,
    g2: Seq<QuadVal>,
    g3: Seq<QuadVal>,
    rest: Seq<QuadVal>,
)
    requires
        mid.wf(bounds, depth),
        mid.kids is Some,
        fin.kids is Some,
        fin.values@ == mid.values@ + rest,
        forall|v: QuadVal| #[trigger] rest.contains(v) ==> v.wf() && quadrant_of(
            bounds,
            v.aabb_sp(),
        ) is None,
        forall|v: QuadVal| #[trigger] g0.contains(v) ==> v.wf() && quadrant_of(bounds, v.aabb_sp())
            == Some(0int),
        forall|v: QuadVal| #[trigger] g1.contains(v) ==> v.wf() && quadrant_of(bounds, v.aabb_sp())
            == Some(1int),
        forall|v: QuadVal| #[trigger] g2.contains(v) ==> v.wf() && quadrant_of(bounds, v.aabb_sp())
            == Some(2int),
        forall|v: QuadVal| #[trigger] g3.contains(v) ==> v.wf() && quadrant_of(bounds, v.aabb_sp())
            == Some(3int),
        fin.child(0).wf(child_bounds(bounds, 0), depth + 1),
        fin.child(1).wf(child_bounds(bounds, 1), depth + 1),
        fin.child(2).wf(child_bounds(bounds, 2), depth + 1),
        fin.child(3).wf(child_bounds(bounds, 3), depth + 1),
        fin.child(0).all_vals().to_multiset() == mid.child(0).all_vals().to_multiset().add(
            g0.to_multiset(),
        ),
        fin.child(1).all_vals().to_multiset() == mid.child(1).all_vals().to_multiset().add(
            g1.to_multiset(),
        ),
        fin.child(2).all_vals().to_multiset() == mid.child(2).all_vals().to_multiset().add(
            g2.to_multiset(),
        ),
        fin.child(3).all_vals().to_multiset() == mid.child(3).all_vals().to_multiset().add(
            g3.to_multiset(),
        ),
    ensures
        fin.wf(bounds, depth),
        fin.all_vals().to_multiset() == mid.all_vals().to_multiset().add(rest.to_multiset()).add(
            g0.to_multiset(),
        ).add(g1.to_multiset()).add(g2.to_multiset()).add(g3.to_multiset()),
{
    let mk = mid.kids->0;
    let fk = fin.kids->0;
    assert(mid.child(0) == mk.bl && mid.child(1) == mk.br && mid.child(2) == mk.tr && mid.child(3)
        == mk.tl);
    assert(fin.child(0) == fk.bl && fin.child(1) == fk.br && fin.child(2) == fk.tr && fin.child(3)
        == fk.tl);
    g0.to_multiset_ensures();
    g1.to_multiset_ensures();
    g2.to_multiset_ensures();
    g3.to_multiset_ensures();
    assert forall|v: QuadVal| #[trigger] fin.values@.contains(v) implies v.wf() && quadrant_of(
        bounds,
        v.aabb_sp(),
    ) is None by {
        if mid.values@.contains(v) {
        } else {
            assert(rest.contains(v));
        }
    }
    assert forall|i: int, v: QuadVal|
        0 <= i < 4 && #[trigger] fin.child(i).all_vals().contains(v) implies quadrant_of(
        bounds,
        v.aabb_sp(),
    ) == Some(i) by {
        fin.child(i).all_vals().to_multiset_ensures();
        mid.child(i).all_vals().to_multiset_ensures();
        assert(fin.child(i).all_vals().to_multiset().count(v) > 0);
        if mid.child(i).all_vals().to_multiset().count(v) > 0 {
            assert(mid.child(i).all_vals().contains(v));
        } else {
            if i == 0 {
                assert(g0.to_multiset().count(v) > 0);
                assert(g0.contains(v));
            } else if i == 1 {
                assert(g1.to_multiset().count(v) > 0);
                assert(g1.contains(v));
            } else if i == 2 {
                assert(g2.to_multiset().count(v) > 0);
                assert(g2.contains(v));
            } else {
                assert(g3.to_multiset().count(v) > 0);
                assert(g3.contains(v));
            }
        }
    }
    assert forall|v: QuadVal| #[trigger] fk.bl.all_vals().contains(v) implies quadrant_of(
        bounds,
        v.aabb_sp(),
    ) == Some(0int) by {
        assert(fin.child(0).all_vals().contains(v));
    }
    assert forall|v: QuadVal| #[trigger] fk.br.all_vals().contains(v) implies quadrant_of(
        bounds,
        v.aabb_sp(),
    ) == Some(1int) by {
        assert(fin.child(1).all_vals().contains(v));
    }
    assert forall|v: QuadVal| #[trigger] fk.tr.all_vals().contains(v) implies quadrant_of(
        bounds,
        v.aabb_sp(),
    ) == Some(2int) by {
        assert(fin.child(2).all_vals().contains(v));
    }
    assert forall|v: QuadVal| #[trigger] fk.tl.all_vals().contains(v) implies quadrant_of(
        bounds,
        v.aabb_sp(),
    ) == Some(3int) by {
        assert(fin.child(3).all_vals().contains(v));
    }
    assert(fin.wf(bounds, depth));
    lemma_interior_multiset(mid);
    lemma_interior_multiset(fin);
    vstd::seq_lib::lemma_multiset_commutative(mid.values@, rest);
    assert(fin.all_vals().to_multiset() =~= mid.all_vals().to_multiset().add(
        rest.to_multiset(),
    ).add(g0.to_multiset()).add(g1.to_multiset()).add(g2.to_multiset()).add(g3.to_multiset()));
}

/// An element of a filtered sequence is an element of the original and
/// satisfies the predicate.
pub(crate) proof fn lemma_filter_is_subset(s: Seq<QuadVal>, p: spec_fn(QuadVal) -> bool, v: QuadVal)
    requires
        s.filter(p).contains(v),
    ensures
        s.contains(v),
        p(v),
    decreases s.len(),
{
    reveal(Seq::filter);
    if s.len() > 0 {
        let sub = s.drop_last().filter(p);
        if p(s.last()) && v == s.last() {
            assert(s[s.len() - 1] == v);
        } else {
            assert(sub.contains(v));
            lemma_filter_is_subset(s.drop_last(), p, v);
            let j = choose|j: int| 0 <= j < s.drop_last().len() && s.drop_last()[j] == v;
            assert(s[j] == v);
        }
    }
}

/// Replacing an element by the last one and dropping the last removes
/// exactly one occurrence of that element from the multiset.
proof fn lemma_swap_remove_multiset(s: Seq<QuadVal>, i: int)
    requires
        0 <= i < s.len(),
    ensures
        s.update(i, s.last()).drop_last().to_multiset() == s.to_multiset().remove(s[i]),
{
    let u = s.update(i, s.last());
    assert(u =~= s.remove(i).insert(i, s.last()));
    vstd::seq_lib::to_multiset_remove(s, i);
    vstd::seq_lib::to_multiset_insert(s.remove(i), i, s.last());
    assert(u.to_multiset() == s.to_multiset().remove(s[i]).insert(s.last()));
    assert(u.drop_last() =~= u.remove(u.len() - 1));
    vstd::seq_lib::to_multiset_remove(u, u.len() - 1);
    assert(u[u.len() - 1] == s.last());
    assert(u.drop_last().to_multiset() =~= s.to_multiset().remove(s[i]));
}

/// The multiset of values of an interior node's subtree is the sum of its
/// own list and the four children's subtrees.
proof fn lemma_interior_multiset(n: QNode)
    requires
        n.kids is Some,
    ensures
        n.all_vals().to_multiset() == n.values@.to_multiset().add(
            n.child(0).all_vals().to_multiset(),
        ).add(n.child(1).all_vals().to_multiset()).add(n.child(2).all_vals().to_multiset()).add(
            n.child(3).all_vals().to_multiset(),
        ),
{
    let k = n.kids->0;
    lemma_concat5_multiset(
        n.values@,
        k.bl.all_vals(),
        k.br.all_vals(),
        k.tr.all_vals(),
        k.tl.all_vals(),
    );
}

/// A value somewhere in an interior node's subtree is in its own list or
/// in one of the four children's subtrees.
proof fn lemma_interior_contains(n: QNode, v: QuadVal)
    requires
        n.kids is Some,
        n.all_vals().contains(v),
    ensures
        n.values@.contains(v) || n.child(0).all_vals().contains(v) || n.child(
            1,
        ).all_vals().contains(v) || n.child(2).all_vals().contains(v) || n.child(
            3,
        ).all_vals().contains(v),
{
    let k = n.kids->0;
    lemma_concat5_contains(
        n.values@,
        k.bl.all_vals(),
        k.br.all_vals(),
        k.tr.all_vals(),
        k.tl.all_vals(),
        v,
    );
}

impl QNode {
    /// Removes one occurrence of `val` from this node's own list, if it is
    /// there: the first match swaps places with the last element and is
    /// popped. Does nothing when the value is not found; reports whether
    /// it removed anything.
    fn remove_found_val(&mut self, val: &QuadVal) -> (removed: bool)
        ensures
            final(self).kids == old(self).kids,
            removed == old(self).values@.contains(*val),
            final(self).values@ == swap_removed(old(self).values@, *val),
            final(self).values@.len() <= old(self).values@.len(),
            forall|v: QuadVal| #[trigger] final(self).values@.contains(v) ==> old(
                self,
            ).values@.contains(v),
            old(self).values@.contains(*val) ==> final(self).values@.to_multiset() == old(
                self,
            ).values@.to_multiset().remove(*val),
            !old(self).values@.contains(*val) ==> *final(self) == *old(self),
    {
        let n = self.values.len();
        let mut i: usize = 0;
        let mut found: bool = false;
        let mut idx: usize = 0;
        while i < n
            invariant
                i <= n,
                n == self.values.len(),
                *self == *old(self),
                !found ==> forall|j: int| 0 <= j < i ==> self.values@[j] != *val,
                found ==> idx < n && self.values@[idx as int] == *val && forall|j: int|
                    0 <= j < idx ==> self.values@[j] != *val,
            decreases n - i,
        {
            if !found && self.values[i] == *val {
                found = true;
                idx = i;
            }
            i += 1;
        }
        proof {
            lemma_first_index_of(old(self).values@, *val);
        }
        if found {
            let ghost vs = self.values@;
            let ghost gi = idx as int;
            proof {
                assert(vs.contains(*val)) by {
                    assert(vs[gi] == *val);
                }
                // `idx` is the first occurrence, so it is the index the
                // swap-removal specification names
                let f = first_index_of(vs, *val);
                if f < gi {
                    assert(vs[f] != *val);
                } else if f > gi {
                    assert(vs[gi] != *val);
                }
                assert(f == gi);
            }
            self.values.swap_remove(idx);
            proof {
                lemma_swap_remove_multiset(vs, gi);
                vs.to_multiset_ensures();
                self.values@.to_multiset_ensures();
                assert forall|v: QuadVal| #[trigger] self.values@.contains(v) implies old(
                    self,
                ).values@.contains(v) by {
                    assert(self.values@.to_multiset().count(v) > 0);
                    assert(vs.to_multiset().count(v) > 0);
                }
            }
        } else {
            proof {
                assert(!old(self).values@.contains(*val));
            }
        }
        found
    }

    /// Collapses an interior node whose four children are all leaves and
    /// whose total value count fits in a leaf: absorbs the children's
    /// values, in quadrant order, and becomes a leaf again. Reports
    /// whether it merged, so the caller may try the same one level up.
    pub fn try_merge(&mut self, Ghost(bounds): Ghost<Rect>, Ghost(depth): Ghost<nat>) -> (merged:
        bool)
        requires
            old(self).kids is Some,
            old(self).wf(bounds, depth),
        ensures
            final(self).wf(bounds, depth),
            final(self).all_vals().to_multiset() == old(self).all_vals().to_multiset(),
            is_try_merge_outcome(*old(self), *final(self), merged),
            merged == (old(self).child(0).is_leaf_sp() && old(self).child(1).is_leaf_sp() && old(
                self,
            ).child(2).is_leaf_sp() && old(self).child(3).is_leaf_sp() && old(
                self,
            ).values@.len() + old(self).child(0).values@.len() + old(self).child(1).values@.len()
                + old(self).child(2).values@.len() + old(self).child(3).values@.len()
                <= THRESHOLD),
            merged ==> final(self).is_leaf_sp() && final(self).values@ == old(self).values@ + old(
                self,
            ).child(0).values@ + old(self).child(1).values@ + old(self).child(2).values@ + old(
                self,
            ).child(3).values@,
            !merged ==> *final(self) == *old(self),
    {
        let mergeable: bool;
        {
            let k = self.kids.as_ref().unwrap();
            let all_leaves = k.bl.is_leaf() && k.br.is_leaf() && k.tr.is_leaf() && k.tl.is_leaf();
            let total: u128 = self.values.len() as u128 + k.bl.values.len() as u128
                + k.br.values.len() as u128 + k.tr.values.len() as u128 + k.tl.values.len() as u128;
            mergeable = all_leaves && total <= THRESHOLD as u128;
        }
        if mergeable {
            let mut k = self.kids.take().unwrap();
            self.values.append(&mut k.bl.values);
            self.values.append(&mut k.br.values);
            self.values.append(&mut k.tr.values);
            self.values.append(&mut k.tl.values);
            proof {
                let m = *old(self);
                let mk = m.kids->0;
                lemma_interior_multiset(m);
                assert(mk.bl.all_vals() == mk.bl.values@);
                assert(mk.br.all_vals() == mk.br.values@);
                assert(mk.tr.all_vals() == mk.tr.values@);
                assert(mk.tl.all_vals() == mk.tl.values@);
                lemma_concat5_multiset(m.values@, mk.bl.values@, mk.br.values@, mk.tr.values@, mk.tl.values@);
                m.lemma_all_vals_wf(bounds, depth);
                assert forall|v: QuadVal| #[trigger] self.values@.contains(v) implies v.wf() by {
                    lemma_concat5_contains(
                        m.values@,
                        mk.bl.values@,
                        mk.br.values@,
                        mk.tr.values@,
                        mk.tl.values@,
                        v,
                    );
                    assert(m.all_vals().contains(v)) by {
                        m.all_vals().to_multiset_ensures();
                        self.values@.to_multiset_ensures();
                        assert(self.values@.to_multiset().count(v) > 0);
                    }
                }
            }
            true
        } else {
            false
        }
    }
}

/// After one child of a well-formed interior node is replaced by a
/// well-formed subtree holding a subset of its values, the node is well
/// formed again.
proof fn lemma_interior_child_replace(mid: QNode, fin: QNode, bounds: Rect, depth: nat, idx: int)
    requires
        mid.wf(bounds, depth),
        mid.kids is Some,
        fin.kids is Some,
        fin.values@ == mid.values@,
        0 <= idx < 4,
        forall|j: int| 0 <= j < 4 && j != idx ==> #[trigger] fin.child(j) == mid.child(j),
        fin.child(idx).wf(child_bounds(bounds, idx), depth + 1),
        forall|v: QuadVal| #[trigger] fin.child(idx).all_vals().contains(v) ==> mid.child(
            idx,
        ).all_vals().contains(v),
    ensures
        fin.wf(bounds, depth),
{
    let mk = mid.kids->0;
    let fk = fin.kids->0;
    assert(mid.child(0) == mk.bl && mid.child(1) == mk.br && mid.child(2) == mk.tr && mid.child(3)
        == mk.tl);
    assert(fin.child(0) == fk.bl && fin.child(1) == fk.br && fin.child(2) == fk.tr && fin.child(3)
        == fk.tl);
    assert forall|v: QuadVal| #[trigger] fin.child(idx).all_vals().contains(v) implies quadrant_of(
        bounds,
        v.aabb_sp(),
    ) == Some(idx) by {
        assert(mid.child(idx).all_vals().contains(v));
    }
    assert(fin.wf(bounds, depth));
}

impl QNode {
    /// Removes one occurrence of `val` from the subtree, if present: found
    /// either in this node's own list or by descending into the quadrant
    /// that would contain it. After a removal below a leaf, ancestors on
    /// the way up try to merge; the returned flag tells the caller whether
    /// to do the same.
    pub fn remove(&mut self, bounds: Rect, Ghost(depth): Ghost<nat>, val: &QuadVal) -> (merged:
        bool)
        requires
            old(self).wf(bounds, depth),
            bounds.wf(),
        ensures
            final(self).wf(bounds, depth),
            is_remove_result(*old(self), *final(self), bounds, *val, merged),
            merged == remove_merge_flag(*old(self), *final(self), *val),
            old(self).all_vals().contains(*val) ==> final(self).all_vals().to_multiset() == old(
                self,
            ).all_vals().to_multiset().remove(*val),
            !old(self).all_vals().contains(*val) ==> *final(self) == *old(self),
            merged ==> final(self).is_leaf_sp(),
        decreases *old(self),
    {
        if self.is_leaf() {
            let removed = self.remove_found_val(val);
            proof {
                assert forall|v: QuadVal| #[trigger] self.values@.contains(v) implies v.wf() by {
                    assert(old(self).values@.contains(v));
                }
            }
            // something was removed from this leaf, so the parent should
            // try to merge
            removed
        } else {
            let ghost pre = *self;
            match find_quadrant(&bounds, val) {
                Some(idx) => {
                    let cb = compute_bounds(bounds, idx);
                    let mut kids = self.kids.take().unwrap();
                    let removed_below: bool;
                    if idx == 0 {
                        removed_below = kids.bl.remove(cb, Ghost(depth + 1), val);
                    } else if idx == 1 {
                        removed_below = kids.br.remove(cb, Ghost(depth + 1), val);
                    } else if idx == 2 {
                        removed_below = kids.tr.remove(cb, Ghost(depth + 1), val);
                    } else {
                        removed_below = kids.tl.remove(cb, Ghost(depth + 1), val);
                    }
                    self.kids = Some(kids);
                    let ghost mid = *self;
                    proof {
                        let gi = idx as int;
                        let oc = pre.child(gi).all_vals();
                        let nc = self.child(gi).all_vals();
                        oc.to_multiset_ensures();
                        nc.to_multiset_ensures();
                        assert forall|v: QuadVal| #[trigger] nc.contains(v) implies oc.contains(
                            v,
                        ) by {
                            if oc.contains(*val) {
                                assert(nc.to_multiset().count(v) > 0);
                                assert(oc.to_multiset().count(v) > 0);
                            } else {
                                assert(mid.child(gi) == pre.child(gi));
                            }
                        }
                        lemma_interior_child_replace(pre, *self, bounds, depth, gi);
                        lemma_interior_multiset(pre);
                        lemma_interior_multiset(*self);
                        if pre.all_vals().contains(*val) {
                            lemma_interior_contains(pre, *val);
                            assert(oc.contains(*val));
                            assert(self.all_vals().to_multiset() =~= pre.all_vals().to_multiset().remove(
                                *val,
                            ));
                        } else {
                            assert(!oc.contains(*val)) by {
                                pre.all_vals().to_multiset_ensures();
                                if oc.contains(*val) {
                                    assert(pre.all_vals().to_multiset().count(*val) > 0);
                                }
                            }
                            assert(self.all_vals().to_multiset() =~= pre.all_vals().to_multiset());
                        }
                    }
                    let flag: bool;
                    if removed_below {
                        flag = self.try_merge(Ghost(bounds), Ghost(depth));
                    } else {
                        flag = false;
                    }
                    proof {
                        let gi = idx as int;
                        assert(remove_step(pre, mid, *self, gi, removed_below, flag));
                        assert(is_remove_result(pre, *self, bounds, *val, flag)) by {
                            assert(remove_step(pre, mid, *self, gi, removed_below, flag)
                                && is_remove_result(
                                pre.child(gi),
                                mid.child(gi),
                                child_bounds(bounds, gi),
                                *val,
                                removed_below,
                            ));
                        }
                        if !pre.all_vals().contains(*val) {
                            assert(!pre.child(gi).all_vals().contains(*val)) by {
                                pre.all_vals().to_multiset_ensures();
                                pre.child(gi).all_vals().to_multiset_ensures();
                                lemma_interior_multiset(pre);
                                if pre.child(gi).all_vals().contains(*val) {
                                    assert(pre.all_vals().to_multiset().count(*val) > 0);
                                }
                            }
                            assert(mid.child(gi) == pre.child(gi));
                            assert(*mid.kids->0 == *pre.kids->0);
                            assert(mid == pre);
                            assert(*self == pre);
                        }
                    }
                    flag
                },
                None => {
                    let _ = self.remove_found_val(val);
                    proof {
                        assert forall|v: QuadVal| #[trigger] self.values@.contains(v) implies v.wf()
                            && quadrant_of(bounds, v.aabb_sp()) is None by {
                            assert(pre.values@.contains(v));
                        }
                        lemma_interior_multiset(pre);
                        lemma_interior_multiset(*self);
                        pre.values@.to_multiset_ensures();
                        pre.all_vals().to_multiset_ensures();
                        if pre.all_vals().contains(*val) {
                            lemma_interior_contains(pre, *val);
                            assert(pre.values@.contains(*val));
                            assert(self.all_vals().to_multiset() =~= pre.all_vals().to_multiset().remove(
                                *val,
                            ));
                        } else {
                            assert(!pre.values@.contains(*val)) by {
                                assert(pre.all_vals() == pre.values@ + pre.child(0).all_vals()
                                    + pre.child(1).all_vals() + pre.child(2).all_vals() + pre.child(
                                    3,
                                ).all_vals());
                            }
                            assert(self.all_vals().to_multiset() =~= pre.all_vals().to_multiset());
                        }
                    }
                    // not a leaf, and nothing was removed below: no merge
                    false
                },
            }
        }
    }

    /// Inserts a whole batch of values into the subtree. A leaf absorbs
    /// the batch directly when it fits (or the leaf sits at `MAX_DEPTH`);
    /// otherwise the leaf is subdivided and the batch is partitioned by
    /// quadrant, each group descending into its child and the straddlers
    /// staying here.
    pub fn insert_many(&mut self, bounds: Rect, depth: usize, items: Vec<QuadVal>)
        requires
            old(self).wf(bounds, depth as nat),
            bounds.wf(),
            vals_wf(items@),
        ensures
            final(self).wf(bounds, depth as nat),
            is_insert_many_result(*old(self), *final(self), bounds, depth as nat, items@),
            final(self).all_vals().to_multiset() == old(self).all_vals().to_multiset().add(
                items@.to_multiset(),
            ),
        decreases MAX_DEPTH - depth,
    {
        let ghost items_v = items@;
        let is_l = self.is_leaf();
        if is_l && (self.values.len() as u128 + items.len() as u128 <= THRESHOLD as u128 || depth
            >= MAX_DEPTH) {
            // if the batch fits in this leaf, or it sits at the depth
            // limit, extend it in place
            let mut items = items;
            self.values.append(&mut items);
            proof {
                vstd::seq_lib::lemma_multiset_commutative(old(self).values@, items_v);
                assert forall|v: QuadVal| #[trigger] self.values@.contains(v) implies v.wf() by {
                    if !old(self).values@.contains(v) {
                        assert(items_v.contains(v));
                    }
                }
            }
        } else {
            if is_l {
                // the batch does not fit: split, then partition it
                self.subdivide(bounds);
                proof {
                    let vs = old(self).values@;
                    let k = self.kids->0;
                    assert(k.bl == self.child(0) && k.br == self.child(1) && k.tr == self.child(2)
                        && k.tl == self.child(3));
                    assert forall|v: QuadVal| #[trigger] self.values@.contains(v) implies v.wf()
                        && quadrant_of(bounds, v.aabb_sp()) is None by {
                        lemma_filter_is_subset(vs, straddles(bounds), v);
                    }
                    lemma_fresh_kid_wf(vs, k.bl, bounds, depth as nat + 1, 0);
                    lemma_fresh_kid_wf(vs, k.br, bounds, depth as nat + 1, 1);
                    lemma_fresh_kid_wf(vs, k.tr, bounds, depth as nat + 1, 2);
                    lemma_fresh_kid_wf(vs, k.tl, bounds, depth as nat + 1, 3);
                    assert(self.wf(bounds, depth as nat));
                }
            }
            let ghost mid = *self;
            let (g0, g1, g2, g3, mut rest) = group_by_quadrant(&bounds, &items);
            let ghost g0v = g0@;
            let ghost g1v = g1@;
            let ghost g2v = g2@;
            let ghost g3v = g3@;
            let ghost restv = rest@;
            proof {
                assert forall|v: QuadVal| #[trigger] restv.contains(v) implies v.wf()
                    && quadrant_of(bounds, v.aabb_sp()) is None by {
                    lemma_filter_is_subset(items_v, straddles(bounds), v);
                }
                assert forall|v: QuadVal| #[trigger] g0v.contains(v) implies v.wf() && quadrant_of(
                    bounds,
                    v.aabb_sp(),
                ) == Some(0int) by {
                    lemma_filter_is_subset(items_v, in_quadrant(bounds, 0), v);
                }
                assert forall|v: QuadVal| #[trigger] g1v.contains(v) implies v.wf() && quadrant_of(
                    bounds,
                    v.aabb_sp(),
                ) == Some(1int) by {
                    lemma_filter_is_subset(items_v, in_quadrant(bounds, 1), v);
                }
                assert forall|v: QuadVal| #[trigger] g2v.contains(v) implies v.wf() && quadrant_of(
                    bounds,
                    v.aabb_sp(),
                ) == Some(2int) by {
                    lemma_filter_is_subset(items_v, in_quadrant(bounds, 2), v);
                }
                assert forall|v: QuadVal| #[trigger] g3v.contains(v) implies v.wf() && quadrant_of(
                    bounds,
                    v.aabb_sp(),
                ) == Some(3int) by {
                    lemma_filter_is_subset(items_v, in_quadrant(bounds, 3), v);
                }
            }
            let mut kids = self.kids.take().unwrap();
            if g0.len() > 0 {
                kids.bl.insert_many(compute_bounds(bounds, 0), depth + 1, g0);
            }
            if g1.len() > 0 {
                kids.br.insert_many(compute_bounds(bounds, 1), depth + 1, g1);
            }
            if g2.len() > 0 {
                kids.tr.insert_many(compute_bounds(bounds, 2), depth + 1, g2);
            }
            if g3.len() > 0 {
                kids.tl.insert_many(compute_bounds(bounds, 3), depth + 1, g3);
            }
            self.kids = Some(kids);
            self.values.append(&mut rest);
            proof {
                assert(mid.child(0) == mid.kids->0.bl && mid.child(1) == mid.kids->0.br
                    && mid.child(2) == mid.kids->0.tr && mid.child(3) == mid.kids->0.tl);
                assert(self.child(0) == self.kids->0.bl && self.child(1) == self.kids->0.br
                    && self.child(2) == self.kids->0.tr && self.child(3) == self.kids->0.tl);
                if g0v.len() == 0 {
                    assert(g0v.to_multiset() =~= Multiset::<QuadVal>::empty());
                    assert(self.child(0).all_vals().to_multiset() =~= mid.child(
                        0,
                    ).all_vals().to_multiset().add(g0v.to_multiset()));
                }
                if g1v.len() == 0 {
                    assert(g1v.to_multiset() =~= Multiset::<QuadVal>::empty());
                    assert(self.child(1).all_vals().to_multiset() =~= mid.child(
                        1,
                    ).all_vals().to_multiset().add(g1v.to_multiset()));
                }
                if g2v.len() == 0 {
                    assert(g2v.to_multiset() =~= Multiset::<QuadVal>::empty());
                    assert(self.child(2).all_vals().to_multiset() =~= mid.child(
                        2,
                    ).all_vals().to_multiset().add(g2v.to_multiset()));
                }
                if g3v.len() == 0 {
                    assert(g3v.to_multiset() =~= Multiset::<QuadVal>::empty());
                    assert(self.child(3).all_vals().to_multiset() =~= mid.child(
                        3,
                    ).all_vals().to_multiset().add(g3v.to_multiset()));
                }
                lemma_interior_batch(mid, *self, bounds, depth as nat, g0v, g1v, g2v, g3v, restv);
                lemma_partition_multiset(items_v, bounds);
                assert(self.all_vals().to_multiset() =~= mid.all_vals().to_multiset().add(
                    items_v.to_multiset(),
                ));
                if !old(self).is_leaf_sp() {
                    assert(mid == *old(self));
                } else {
                    assert(is_subdivided(*old(self), mid, bounds));
                }
                assert forall|i: int|
                    0 <= i < 4 && items_v.filter(in_quadrant(bounds, i)).len() == 0 implies #[trigger] self.child(
                    i,
                ) == mid.child(i) by {
                    if i == 0 {
                        assert(g0v.len() == 0);
                    } else if i == 1 {
                        assert(g1v.len() == 0);
                    } else if i == 2 {
                        assert(g2v.len() == 0);
                    } else {
                        assert(g3v.len() == 0);
                    }
                }
                assert(insert_many_step(*old(self), mid, *self, bounds, items_v));
                assert forall|i: int|
                    0 <= i < 4 && items_v.filter(in_quadrant(bounds, i)).len() != 0
                        implies is_insert_many_result(
                    #[trigger] mid.child(i),
                    self.child(i),
                    child_bounds(bounds, i),
                    depth as nat + 1,
                    items_v.filter(in_quadrant(bounds, i)),
                ) by {
                    if i == 0 {
                        assert(g0v == items_v.filter(in_quadrant(bounds, 0)));
                    } else if i == 1 {
                        assert(g1v == items_v.filter(in_quadrant(bounds, 1)));
                    } else if i == 2 {
                        assert(g2v == items_v.filter(in_quadrant(bounds, 2)));
                    } else {
                        assert(g3v == items_v.filter(in_quadrant(bounds, 3)));
                    }
                }
                assert(is_insert_many_result(*old(self), *self, bounds, depth as nat, items_v)) by {
                    assert(insert_many_step(*old(self), mid, *self, bounds, items_v) && (forall|
                        i: int,
                    |
                        0 <= i < 4 && items_v.filter(in_quadrant(bounds, i)).len() != 0
                            ==> is_insert_many_result(
                            #[trigger] mid.child(i),
                            self.child(i),
                            child_bounds(bounds, i),
                            depth as nat + 1,
                            items_v.filter(in_quadrant(bounds, i)),
                        )));
                }
            }
        }
    }

    /// What a region query of this subtree returns: the node's own
    /// matches in stored order, then each child's matches in quadrant
    /// order — descending only into children whose bounds strictly
    /// overlap the region, so that a query the exact size of a quadrant
    /// does not pull in the neighbouring quadrants.
    pub open spec fn query_sp(self, bounds: Rect, region: Rect) -> Seq<QuadVal>
        decreases self,
    {
        let own = self.values@.filter(hits(region));
        match self.kids {
            None => own,
            Some(k) => own + (if rects_overlap_strict(child_bounds(bounds, 0), region) {
                k.bl.query_sp(child_bounds(bounds, 0), region)
            } else {
                Seq::<QuadVal>::empty()
            }) + (if rects_overlap_strict(child_bounds(bounds, 1), region) {
                k.br.query_sp(child_bounds(bounds, 1), region)
            } else {
                Seq::<QuadVal>::empty()
            }) + (if rects_overlap_strict(child_bounds(bounds, 2), region) {
                k.tr.query_sp(child_bounds(bounds, 2), region)
            } else {
                Seq::<QuadVal>::empty()
            }) + (if rects_overlap_strict(child_bounds(bounds, 3), region) {
                k.tl.query_sp(child_bounds(bounds, 3), region)
            } else {
                Seq::<QuadVal>::empty()
            }),
        }
    }

    /// Appends to `out` every value of the subtree whose shape meets
    /// `region`: this node's matches in stored order, then the children's
    /// in quadrant order, descending only where the child's bounds
    /// strictly overlap the region.
    pub fn query(&self, bounds: Rect, region: Rect, out: &mut Vec<QuadVal>)
        requires
            bounds.wf(),
            region.bounded(),
            rects_overlap_strict(bounds, region),
        ensures
            final(out)@ == old(out)@ + self.query_sp(bounds, region),
        decreases *self,
    {
        let ghost entry = out@;
        let n = self.values.len();
        let mut i: usize = 0;
        while i < n
            invariant
                i <= n,
                n == self.values.len(),
                region.bounded(),
                out@ == entry + self.values@.take(i as int).filter(hits(region)),
            decreases n - i,
        {
            let v = self.values[i];
            proof {
                assert(self.values@.take(i + 1) == self.values@.take(i as int).push(v));
                self.values@.take(i as int).lemma_filter_push(v, hits(region));
            }
            if v.intersects_rect(&region) {
                out.push(v);
            }
            i += 1;
        }
        proof {
            assert(self.values@.take(n as int) == self.values@);
        }
        if !self.is_leaf() {
            let k = self.kids.as_ref().unwrap();
            let cb0 = compute_bounds(bounds, 0);
            let cb1 = compute_bounds(bounds, 1);
            let cb2 = compute_bounds(bounds, 2);
            let cb3 = compute_bounds(bounds, 3);
            proof {
                crate::geom::lemma_child_bounds_wf(bounds, 0);
                crate::geom::lemma_child_bounds_wf(bounds, 1);
                crate::geom::lemma_child_bounds_wf(bounds, 2);
                crate::geom::lemma_child_bounds_wf(bounds, 3);
            }
            if crate::geom::overlaps_strictly(&cb0, &region) {
                k.bl.query(cb0, region, out);
            }
            if crate::geom::overlaps_strictly(&cb1, &region) {
                k.br.query(cb1, region, out);
            }
            if crate::geom::overlaps_strictly(&cb2, &region) {
                k.tr.query(cb2, region, out);
            }
            if crate::geom::overlaps_strictly(&cb3, &region) {
                k.tl.query(cb3, region, out);
            }
            proof {
                assert(out@ =~= entry + self.query_sp(bounds, region));
            }
        }
    }

    /// The value a nearest-neighbour scan of `s` returns for the point
    /// `(px, py)`: the value at minimal center distance, ties broken in
    /// favour of the earliest one.
    pub open spec fn best_of(s: Seq<QuadVal>, px: int, py: int) -> QuadVal
        recommends
            s.len() > 0,
        decreases s.len(),
    {
        if s.len() <= 1 {
            s[0]
        } else {
            let prev = Self::best_of(s.drop_last(), px, py);
            if center_dist_sq(px, py, s.last()) < center_dist_sq(px, py, prev) {
                s.last()
            } else {
                prev
            }
        }
    }

    /// What the nearest-neighbour lookup returns. A leaf scans its values
    /// linearly; an interior node descends only into the quadrant that
    /// contains the point, an approximation that can miss a closer value
    /// sitting just across a center line in a sibling quadrant, and that
    /// finds nothing when the point straddles a center line or lies out
    /// of bounds.
    pub open spec fn nearest_sp(self, bounds: Rect, px: int, py: int) -> Option<QuadVal>
        decreases self,
    {
        match self.kids {
            None => if self.values@.len() == 0 {
                None
            } else {
                Some(Self::best_of(self.values@, px, py))
            },
            Some(k) => match quadrant_of(bounds, point_rect(px, py)) {
                None => None,
                Some(i) => if i == 0 {
                    k.bl.nearest_sp(child_bounds(bounds, 0), px, py)
                } else if i == 1 {
                    k.br.nearest_sp(child_bounds(bounds, 1), px, py)
                } else if i == 2 {
                    k.tr.nearest_sp(child_bounds(bounds, 2), px, py)
                } else {
                    k.tl.nearest_sp(child_bounds(bounds, 3), px, py)
                },
            },
        }
    }

    /// Finds the value whose shape center is nearest to `(px, py)`, by
    /// linear scan in a leaf and by descending into the point's quadrant
    /// in an interior node (see [`QNode::nearest_sp`] for the
    /// approximation this entails).
    pub fn nearest(&self, bounds: Rect, px: i32, py: i32) -> (r: Option<QuadVal>)
        requires
            bounds.wf(),
        ensures
            r == self.nearest_sp(bounds, px as int, py as int),
        decreases *self,
    {
        if self.is_leaf() {
            let n = self.values.len();
            if n == 0 {
                return None;
            }
            let mut best = self.values[0];
            let mut best_d: i128 = crate::quad_val::dist_to_center(px, py, &best);
            let mut i: usize = 1;
            while i < n
                invariant
                    1 <= i <= n,
                    n == self.values.len(),
                    self.kids is None,
                    best == Self::best_of(self.values@.take(i as int), px as int, py as int),
                    best_d as int == center_dist_sq(px as int, py as int, best),
                decreases n - i,
            {
                let v = self.values[i];
                let d = crate::quad_val::dist_to_center(px, py, &v);
                proof {
                    let t1 = self.values@.take(i + 1);
                    assert(t1.drop_last() == self.values@.take(i as int));
                    assert(t1.last() == v);
                    assert(t1.len() > 1);
                    assert(Self::best_of(t1, px as int, py as int) == (if center_dist_sq(px as int, py as int, v)
                        < center_dist_sq(px as int, py as int, best) {
                        v
                    } else {
                        best
                    }));
                }
                if d < best_d {
                    best = v;
                    best_d = d;
                }
                i += 1;
            }
            proof {
                assert(self.values@.take(n as int) == self.values@);
            }
            Some(best)
        } else {
            let pr = Rect { min_x: px as i64, min_y: py as i64, max_x: px as i64, max_y: py as i64 };
            proof {
                assert(pr == point_rect(px as int, py as int));
            }
            match crate::geom::find_quadrant(&bounds, &pr) {
                None => None,
                Some(idx) => {
                    let k = self.kids.as_ref().unwrap();
                    if idx == 0 {
                        k.bl.nearest(compute_bounds(bounds, 0), px, py)
                    } else if idx == 1 {
                        k.br.nearest(compute_bounds(bounds, 1), px, py)
                    } else if idx == 2 {
                        k.tr.nearest(compute_bounds(bounds, 2), px, py)
                    } else {
                        k.tl.nearest(compute_bounds(bounds, 3), px, py)
                    }
                },
            }
        }
    }

    /// The pairs of `v` against every value stored anywhere in this
    /// subtree, own values first, then the children depth first in
    /// quadrant order.
    pub open spec fn pairs_with_subtree(self, v: QuadVal) -> Seq<(QuadVal, QuadVal)>
        decreases self, 0nat,
    {
        let own = pairs_with(self.values@, v);
        match self.kids {
            None => own,
            Some(k) => own + k.bl.pairs_with_subtree(v) + k.br.pairs_with_subtree(v)
                + k.tr.pairs_with_subtree(v) + k.tl.pairs_with_subtree(v),
        }
    }

    /// The pairs of each value of `vs`, in order, against this whole
    /// subtree.
    pub open spec fn cross_pairs(self, vs: Seq<QuadVal>) -> Seq<(QuadVal, QuadVal)>
        decreases self, vs.len() + 1,
    {
        if vs.len() == 0 {
            Seq::<(QuadVal, QuadVal)>::empty()
        } else {
            self.cross_pairs(vs.drop_last()) + self.pairs_with_subtree(vs.last())
        }
    }

    /// What the all-pairs intersection search of this subtree reports:
    /// the pairs among this node's own values, then, for each child in
    /// quadrant order, this node's values against that child's subtree
    /// followed by the child's own report.
    pub open spec fn all_pairs_sp(self) -> Seq<(QuadVal, QuadVal)>
        decreases self, 1nat,
    {
        let own = pairs_among(self.values@);
        match self.kids {
            None => own,
            Some(k) => own + (k.bl.cross_pairs(self.values@) + k.bl.all_pairs_sp()) + (
            k.br.cross_pairs(self.values@) + k.br.all_pairs_sp()) + (k.tr.cross_pairs(self.values@)
                + k.tr.all_pairs_sp()) + (k.tl.cross_pairs(self.values@) + k.tl.all_pairs_sp()),
        }
    }

    /// Appends to `out` the pair `(val, u)` for every value `u` stored in
    /// this subtree whose shape meets `val`.
    pub fn find_intersections_in_descendants(
        &self,
        val: &QuadVal,
        out: &mut Vec<(QuadVal, QuadVal)>,
    )
        ensures
            final(out)@ == old(out)@ + self.pairs_with_subtree(*val),
        decreases *self,
    {
        let ghost entry = out@;
        let n = self.values.len();
        let mut i: usize = 0;
        while i < n
            invariant
                i <= n,
                n == self.values.len(),
                out@ == entry + pairs_with(self.values@.take(i as int), *val),
            decreases n - i,
        {
            let other = self.values[i];
            proof {
                assert(self.values@.take(i + 1).drop_last() == self.values@.take(i as int));
                assert(self.values@.take(i + 1).last() == other);
            }
            if val.intersects(&other) {
                out.push((*val, other));
            }
            i += 1;
        }
        proof {
            assert(self.values@.take(n as int) == self.values@);
        }
        if !self.is_leaf() {
            let k = self.kids.as_ref().unwrap();
            k.bl.find_intersections_in_descendants(val, out);
            k.br.find_intersections_in_descendants(val, out);
            k.tr.find_intersections_in_descendants(val, out);
            k.tl.find_intersections_in_descendants(val, out);
            proof {
                assert(out@ =~= entry + self.pairs_with_subtree(*val));
            }
        }
    }

    /// Appends to `out` every intersecting pair of values stored in this
    /// subtree, each unordered pair exactly once: the pairs among this
    /// node's own values, then for each child this node's values against
    /// the child's subtree, then the child's own pairs. Values of
    /// different children never meet, since sibling quadrants are
    /// disjoint.
    #[verifier::rlimit(80)]
    pub fn find_all_intersections(&self, out: &mut Vec<(QuadVal, QuadVal)>)
        ensures
            final(out)@ == old(out)@ + self.all_pairs_sp(),
        decreases *self,
    {
        let ghost entry = out@;
        let n = self.values.len();
        let mut i: usize = 0;
        while i < n
            invariant
                i <= n,
                n == self.values.len(),
                out@ == entry + pairs_among(self.values@.take(i as int)),
            decreases n - i,
        {
            let val_a = self.values[i];
            let mut j: usize = 0;
            while j < i
                invariant
                    j <= i,
                    i < n,
                    n == self.values.len(),
                    val_a == self.values@[i as int],
                    out@ == entry + pairs_among(self.values@.take(i as int)) + pairs_with(
                        self.values@.take(j as int),
                        val_a,
                    ),
                decreases i - j,
            {
                let val_b = self.values[j];
                proof {
                    assert(self.values@.take(j + 1).drop_last() == self.values@.take(j as int));
                    assert(self.values@.take(j + 1).last() == val_b);
                }
                if val_a.intersects(&val_b) {
                    out.push((val_a, val_b));
                }
                j += 1;
            }
            proof {
                assert(self.values@.take(i + 1).drop_last() == self.values@.take(i as int));
                assert(self.values@.take(i + 1).last() == val_a);
            }
            i += 1;
        }
        proof {
            assert(self.values@.take(n as int) == self.values@);
        }
        if !self.is_leaf() {
            let k = self.kids.as_ref().unwrap();
            let ghost base0 = out@;
            let mut j: usize = 0;
            while j < n
                invariant
                    j <= n,
                    n == self.values.len(),
                    out@ == base0 + k.bl.cross_pairs(self.values@.take(j as int)),
                    self.kids.is_some() && k == &self.kids->0,
                decreases n - j,
            {
                let va = self.values[j];
                proof {
                    assert(self.values@.take(j + 1).drop_last() == self.values@.take(j as int));
                    assert(self.values@.take(j + 1).last() == va);
                }
                k.bl.find_intersections_in_descendants(&va, out);
                j += 1;
            }
            proof {
                assert(self.values@.take(n as int) == self.values@);
            }
            k.bl.find_all_intersections(out);
            let ghost base1 = out@;
            let mut j: usize = 0;
            while j < n
                invariant
                    j <= n,
                    n == self.values.len(),
                    out@ == base1 + k.br.cross_pairs(self.values@.take(j as int)),
                    self.kids.is_some() && k == &self.kids->0,
                decreases n - j,
            {
                let va = self.values[j];
                proof {
                    assert(self.values@.take(j + 1).drop_last() == self.values@.take(j as int));
                    assert(self.values@.take(j + 1).last() == va);
                }
                k.br.find_intersections_in_descendants(&va, out);
                j += 1;
            }
            proof {
                assert(self.values@.take(n as int) == self.values@);
            }
            k.br.find_all_intersections(out);
            let ghost base2 = out@;
            let mut j: usize = 0;
            while j < n
                invariant
                    j <= n,
                    n == self.values.len(),
                    out@ == base2 + k.tr.cross_pairs(self.values@.take(j as int)),
                    self.kids.is_some() && k == &self.kids->0,
                decreases n - j,
            {
                let va = self.values[j];
                proof {
                    assert(self.values@.take(j + 1).drop_last() == self.values@.take(j as int));
                    assert(self.values@.take(j + 1).last() == va);
                }
                k.tr.find_intersections_in_descendants(&va, out);
                j += 1;
            }
            proof {
                assert(self.values@.take(n as int) == self.values@);
            }
            k.tr.find_all_intersections(out);
            let ghost base3 = out@;
            let mut j: usize = 0;
            while j < n
                invariant
                    j <= n,
                    n == self.values.len(),
                    out@ == base3 + k.tl.cross_pairs(self.values@.take(j as int)),
                    self.kids.is_some() && k == &self.kids->0,
                decreases n - j,
            {
                let va = self.values[j];
                proof {
                    assert(self.values@.take(j + 1).drop_last() == self.values@.take(j as int));
                    assert(self.values@.take(j + 1).last() == va);
                }
                k.tl.find_intersections_in_descendants(&va, out);
                j += 1;
            }
            proof {
                assert(self.values@.take(n as int) == self.values@);
            }
            k.tl.find_all_intersections(out);
            proof {
                assert(out@ =~= entry + self.all_pairs_sp());
            }
        }
    }

    /// Borrows the child in quadrant `idx` of an interior node.
    pub fn get_child(&self, idx: usize) -> (c: &QNode)
        requires
            self.kids is Some,
            idx < 4,
        ensures
            *c == self.child(idx as int),
    {
        let k = self.kids.as_ref().unwrap();
        if idx == 0 {
            &k.bl
        } else if idx == 1 {
            &k.br
        } else if idx == 2 {
            &k.tr
        } else {
            &k.tl
        }
    }

    /// Empties the subtree: clears this node's list, clears every child,
    /// and collapses back into a single empty leaf.
    pub fn clear(&mut self)
        ensures
            final(self).is_leaf_sp(),
            final(self).values@ == Seq::<QuadVal>::empty(),
            final(self).all_vals() == Seq::<QuadVal>::empty(),
            forall|bounds: Rect, depth: nat| final(self).wf(bounds, depth),
        decreases *old(self),
    {
        self.values.clear();
        if !self.is_leaf() {
            let mut kids = self.kids.take().unwrap();
            kids.bl.clear();
            kids.br.clear();
            kids.tr.clear();
            kids.tl.clear();
            self.kids = Some(kids);
            let ghost zb = Rect { min_x: 0, min_y: 0, max_x: 0, max_y: 0 };
            proof {
                assert(self.values@ =~= Seq::<QuadVal>::empty());
                let k = self.kids->0;
                assert(k.bl.wf(child_bounds(zb, 0), 1));
                assert(k.br.wf(child_bounds(zb, 1), 1));
                assert(k.tr.wf(child_bounds(zb, 2), 1));
                assert(k.tl.wf(child_bounds(zb, 3), 1));
                assert(self.wf(zb, 0));
            }
            let merged = self.try_merge(Ghost(zb), Ghost(0nat));
            proof {
                assert(merged);
                assert(self.values@ =~= Seq::<QuadVal>::empty());
            }
        } else {
            proof {
                assert(self.values@ =~= Seq::<QuadVal>::empty());
            }
        }
    }
}

/// An element of a concatenation of five sequences lies in one of them.
proof fn lemma_concat5_contains(
    a: Seq<QuadVal>,
    b: Seq<QuadVal>,
    c: Seq<QuadVal>,
    d: Seq<QuadVal>,
    e: Seq<QuadVal>,
    v: QuadVal,
)
    requires
        (a + b + c + d + e).contains(v),
    ensures
        a.contains(v) || b.contains(v) || c.contains(v) || d.contains(v) || e.contains(v),
{
    let s = a + b + c + d + e;
    let i = choose|i: int| 0 <= i < s.len() && s[i] == v;
    if i < a.len() {
        assert(a[i] == v);
    } else if i < a.len() + b.len() {
        assert(b[i - a.len()] == v);
    } else if i < a.len() + b.len() + c.len() {
        assert(c[i - a.len() - b.len()] == v);
    } else if i < a.len() + b.len() + c.len() + d.len() {
        assert(d[i - a.len() - b.len() - c.len()] == v);
    } else {
        assert(e[i - a.len() - b.len() - c.len() - d.len()] == v);
    }
}

/// The multiset of a five-part concatenation is the sum of the parts.
proof fn lemma_concat5_multiset(
    a: Seq<QuadVal>,
    b: Seq<QuadVal>,
    c: Seq<QuadVal>,
    d: Seq<QuadVal>,
    e: Seq<QuadVal>,
)
    ensures
        (a + b + c + d + e).to_multiset() == a.to_multiset().add(b.to_multiset()).add(
            c.to_multiset(),
        ).add(d.to_multiset()).add(e.to_multiset()),
{
    vstd::seq_lib::lemma_multiset_commutative(a + b + c + d, e);
    vstd::seq_lib::lemma_multiset_commutative(a + b + c, d);
    vstd::seq_lib::lemma_multiset_commutative(a + b, c);
    vstd::seq_lib::lemma_multiset_commutative(a, b);
}

/// A sequence's multiset is the sum of the multisets of its five
/// quadrant-partition filters.
proof fn lemma_partition_multiset(s: Seq<QuadVal>, bounds: Rect)
    ensures
        s.to_multiset() == s.filter(straddles(bounds)).to_multiset().add(
            s.filter(in_quadrant(bounds, 0)).to_multiset(),
        ).add(s.filter(in_quadrant(bounds, 1)).to_multiset()).add(
            s.filter(in_quadrant(bounds, 2)).to_multiset(),
        ).add(s.filter(in_quadrant(bounds, 3)).to_multiset()),
    decreases s.len(),
{
    let p4 = straddles(bounds);
    let p0 = in_quadrant(bounds, 0);
    let p1 = in_quadrant(bounds, 1);
    let p2 = in_quadrant(bounds, 2);
    let p3 = in_quadrant(bounds, 3);
    if s.len() == 0 {
        assert(s.to_multiset() =~= Multiset::<QuadVal>::empty());
        reveal(Seq::filter);
        assert(s.filter(p4).to_multiset() =~= Multiset::<QuadVal>::empty());
        assert(s.filter(p0).to_multiset() =~= Multiset::<QuadVal>::empty());
        assert(s.filter(p1).to_multiset() =~= Multiset::<QuadVal>::empty());
        assert(s.filter(p2).to_multiset() =~= Multiset::<QuadVal>::empty());
        assert(s.filter(p3).to_multiset() =~= Multiset::<QuadVal>::empty());
        assert(s.to_multiset() =~= s.filter(p4).to_multiset().add(
            s.filter(p0).to_multiset(),
        ).add(s.filter(p1).to_multiset()).add(s.filter(p2).to_multiset()).add(
            s.filter(p3).to_multiset(),
        ));
    } else {
        let prefix = s.drop_last();
        let last = s.last();
        lemma_partition_multiset(prefix, bounds);
        assert(s == prefix.push(last));
        prefix.lemma_filter_push(last, p4);
        prefix.lemma_filter_push(last, p0);
        prefix.lemma_filter_push(last, p1);
        prefix.lemma_filter_push(last, p2);
        prefix.lemma_filter_push(last, p3);
        vstd::seq_lib::to_multiset_build(prefix, last);
        vstd::seq_lib::to_multiset_build(prefix.filter(p4), last);
        vstd::seq_lib::to_multiset_build(prefix.filter(p0), last);
        vstd::seq_lib::to_multiset_build(prefix.filter(p1), last);
        vstd::seq_lib::to_multiset_build(prefix.filter(p2), last);
        vstd::seq_lib::to_multiset_build(prefix.filter(p3), last);
        let q = quadrant_of(bounds, last.aabb_sp());
        if q is None {
            assert(p4(last) && !p0(last) && !p1(last) && !p2(last) && !p3(last));
        } else {
            let i = q->0;
            assert(quadrant_of(bounds, last.aabb_sp()) is Some ==> 0 <= i < 4);
            assert(!p4(last));
        }
        assert(s.to_multiset() =~= s.filter(p4).to_multiset().add(
            s.filter(p0).to_multiset(),
        ).add(s.filter(p1).to_multiset()).add(s.filter(p2).to_multiset()).add(
            s.filter(p3).to_multiset(),
        ));
    }
}

/// The public quadtree: fixed bounds and a root node. One tree indexes
/// one population of values; it is cleared and repopulated in bulk, then
/// queried. Out-of-bounds values are tolerated: they live in the root's
/// own list and every query still reaches them.
pub struct Quadtree {
    pub bounds: Rect,
    pub root: QNode,
}

impl View for Quadtree {
    type V = Seq<QuadVal>;

    /// A quadtree is viewed as the sequence of every value it stores, in
    /// traversal order.
    open spec fn view(&self) -> Seq<QuadVal> {
        self.root.all_vals()
    }
}

impl Quadtree {
    /// Bounds are well formed and the whole node tree keeps the quadrant
    /// discipline.
    pub open spec fn wf(self) -> bool {
        &&& self.bounds.wf()
        &&& self.root.wf(self.bounds, 0)
    }

    /// Initializes an empty quadtree with the provided bounds, fixed for
    /// the tree's lifetime.
    pub fn new(bounds: Rect) -> (q: Self)
        requires
            bounds.wf(),
        ensures
            q.wf(),
            q@ == Seq::<QuadVal>::empty(),
            q.bounds == bounds,
            q.root.is_leaf_sp(),
            q.root.values@ == Seq::<QuadVal>::empty(),
    {
        Quadtree { bounds, root: QNode::new() }
    }

    /// Empties the tree back into a single empty leaf; the bounds stay.
    pub fn clear(&mut self)
        requires
            old(self).wf(),
        ensures
            final(self).wf(),
            final(self)@ == Seq::<QuadVal>::empty(),
            final(self).bounds == old(self).bounds,
            final(self).root.is_leaf_sp(),
            final(self).root.values@ == Seq::<QuadVal>::empty(),
    {
        self.root.clear();
    }

    /// Inserts a new value: the stored multiset gains exactly `val`, and
    /// [`is_insert_result`] pins where it lands — a leaf with room keeps
    /// it, a full leaf subdivides, and otherwise it descends into the
    /// quadrant that fully contains it. A value whose bounding box is out
    /// of bounds is not rejected; it is kept at the root.
    pub fn insert(&mut self, val: QuadVal)
        requires
            old(self).wf(),
            val.wf(),
        ensures
            final(self).wf(),
            final(self).bounds == old(self).bounds,
            is_insert_result(old(self).root, final(self).root, old(self).bounds, 0, val),
            final(self)@.to_multiset() == old(self)@.to_multiset().insert(val),
    {
        let b = self.bounds;
        self.root.insert(b, 0, val);
    }

    /// Inserts a batch of values: the stored multiset gains exactly the
    /// batch, and [`is_insert_many_result`] pins where every part of it
    /// lands, quadrant group by quadrant group.
    pub fn insert_many(&mut self, items: &Vec<QuadVal>)
        requires
            old(self).wf(),
            vals_wf(items@),
        ensures
            final(self).wf(),
            final(self).bounds == old(self).bounds,
            is_insert_many_result(old(self).root, final(self).root, old(self).bounds, 0, items@),
            final(self)@.to_multiset() == old(self)@.to_multiset().add(items@.to_multiset()),
    {
        let mut batch: Vec<QuadVal> = Vec::new();
        let n = items.len();
        let mut i: usize = 0;
        while i < n
            invariant
                i <= n,
                n == items.len(),
                batch@ == items@.take(i as int),
            decreases n - i,
        {
            batch.push(items[i]);
            proof {
                assert(items@.take(i + 1) == items@.take(i as int).push(items@[i as int]));
            }
            i += 1;
        }
        proof {
            assert(items@.take(n as int) == items@);
        }
        let b = self.bounds;
        self.root.insert_many(b, 0, batch);
    }

    /// Removes one occurrence of `val`, when the tree holds one; removing
    /// a value that is not there leaves the tree untouched. Ancestors of
    /// the removal point merge eagerly where the counts allow it:
    /// [`is_remove_result`] pins the search path, the swap-removal and
    /// every merge.
    pub fn remove(&mut self, val: &QuadVal)
        requires
            old(self).wf(),
        ensures
            final(self).wf(),
            final(self).bounds == old(self).bounds,
            is_remove_result(
                old(self).root,
                final(self).root,
                old(self).bounds,
                *val,
                remove_merge_flag(old(self).root, final(self).root, *val),
            ),
            old(self)@.contains(*val) ==> final(self)@.to_multiset() == old(
                self,
            )@.to_multiset().remove(*val),
            !old(self)@.contains(*val) ==> *final(self) == *old(self),
    {
        let b = self.bounds;
        let _ = self.root.remove(b, Ghost(0nat), val);
    }

    /// Queries for all the values whose shape meets `query_bounds`, in
    /// deterministic traversal order. The region must overlap the tree's
    /// bounds with positive extent; see [`QNode::query_sp`] for the exact
    /// result.
    pub fn query(&self, query_bounds: Rect) -> (r: Vec<QuadVal>)
        requires
            self.bounds.wf(),
            query_bounds.bounded(),
            rects_overlap_strict(self.bounds, query_bounds),
        ensures
            r@ == self.root.query_sp(self.bounds, query_bounds),
    {
        let mut contained_values: Vec<QuadVal> = Vec::new();
        self.root.query(self.bounds, query_bounds, &mut contained_values);
        contained_values
    }

    /// Finds all the intersecting pairs of stored values, each unordered
    /// pair exactly once; see [`QNode::all_pairs_sp`] for the exact
    /// result.
    pub fn find_all_intersections(&self) -> (r: Vec<(QuadVal, QuadVal)>)
        ensures
            r@ == self.root.all_pairs_sp(),
    {
        let mut intersections: Vec<(QuadVal, QuadVal)> = Vec::new();
        self.root.find_all_intersections(&mut intersections);
        intersections
    }

    /// Finds the value whose shape center is nearest to `(x, y)`,
    /// descending only into the point's quadrant: a documented
    /// approximation that can miss a closer value just across a center
    /// line, and that returns nothing when the point does not fit any
    /// single quadrant of an interior node.
    pub fn nearest(&self, x: i32, y: i32) -> (r: Option<QuadVal>)
        requires
            self.bounds.wf(),
        ensures
            r == self.root.nearest_sp(self.bounds, x as int, y as int),
    {
        self.root.nearest(self.bounds, x, y)
    }
}

} // verus!
