//! The general laws of the index, proved once and for all: containment of
//! child values in their quadrant's bounds, insert/remove round trips,
//! what a cleared tree answers, minimality of the nearest-neighbour scan,
//! soundness and completeness of region queries, and exactness of the
//! all-pairs intersection search.

use vstd::prelude::*;
use vstd::multiset::Multiset;

use crate::geom::Rect;
use crate::geom::child_bounds;
use crate::geom::quadrant_of;
use crate::geom::rect_contains_rect;
use crate::geom::rects_intersect;
use crate::geom::rects_overlap_strict;
use crate::quad_val::QuadVal;
use crate::quad_val::center_dist_sq;
use crate::quad_val::lemma_hit_means_aabb_meets;
use crate::quadtree::QNode;
use crate::quadtree::Quadtree;
use crate::quadtree::hits;
use crate::quadtree::pairs_among;
use crate::quadtree::pairs_with;
use crate::quadtree::vals_wf;

verus! {

broadcast use
    vstd::seq_lib::group_seq_properties,
    vstd::seq_lib::group_seq_lib_default,
    vstd::multiset::group_multiset_axioms;

/// Containment: in a well-formed tree, every value stored in a child's
/// subtree has its bounding box entirely inside that child's sub-bounds.
/// In particular, when a leaf is subdivided, each resulting child holds
/// only values whose bounding box lies fully inside the child's computed
/// bounds.
pub proof fn lemma_children_contained(n: QNode, bounds: Rect, depth: nat, i: int, v: QuadVal)
    requires
        n.wf(bounds, depth),
        bounds.wf(),
        n.kids is Some,
        0 <= i < 4,
        n.child(i).all_vals().contains(v),
    ensures
        rect_contains_rect(child_bounds(bounds, i), v.aabb_sp()),
{
    let k = n.kids->0;
    assert(n.child(0) == k.bl && n.child(1) == k.br && n.child(2) == k.tr && n.child(3) == k.tl);
    if i == 0 {
        assert(k.bl.all_vals().contains(v));
    } else if i == 1 {
        assert(k.br.all_vals().contains(v));
    } else if i == 2 {
        assert(k.tr.all_vals().contains(v));
    } else {
        assert(k.tl.all_vals().contains(v));
    }
    assert(quadrant_of(bounds, v.aabb_sp()) == Some(i));
}

/// Round trip: inserting a value and then removing the same value (same
/// identity, position and shape) restores the stored multiset exactly.
/// Together with the contracts of `Quadtree::insert` and
/// `Quadtree::remove`, an insert followed by a remove of that value
/// leaves a tree holding precisely the values it held before.
pub proof fn lemma_insert_remove_round_trip(m: Multiset<QuadVal>, v: QuadVal)
    ensures
        m.insert(v).contains(v),
        m.insert(v).remove(v) == m,
{
    assert(m.insert(v).remove(v) =~= m);
}

/// Idempotent clear: a cleared tree is a single empty leaf, so it views
/// as no values at all, every region query returns the empty sequence,
/// the all-pairs search reports nothing, and there is no nearest value
/// to any point.
pub proof fn lemma_cleared_tree_answers_nothing(t: Quadtree, region: Rect, px: int, py: int)
    requires
        t.root.is_leaf_sp(),
        t.root.values@ == Seq::<QuadVal>::empty(),
    ensures
        t@ == Seq::<QuadVal>::empty(),
        t.root.query_sp(t.bounds, region) == Seq::<QuadVal>::empty(),
        t.root.all_pairs_sp() == Seq::<(QuadVal, QuadVal)>::empty(),
        t.root.nearest_sp(t.bounds, px, py) is None,
{
    reveal(Seq::filter);
}

/// When a value of quadrant `i` meets the query region, the child bounds
/// of quadrant `i` strictly overlap the region — provided the region does
/// not end edge-on exactly where the value's bounding box begins, on
/// either axis.
proof fn lemma_descend_needed(bounds: Rect, region: Rect, v: QuadVal, i: int)
    requires
        v.wf(),
        bounds.wf(),
        rects_overlap_strict(bounds, region),
        quadrant_of(bounds, v.aabb_sp()) == Some(i),
        rects_intersect(v.aabb_sp(), region),
        v.aabb_sp().min_x != region.max_x,
        v.aabb_sp().min_y != region.max_y,
    ensures
        rects_overlap_strict(child_bounds(bounds, i), region),
{
    let a = v.aabb_sp();
    let cx = bounds.center_x();
    let cy = bounds.center_y();
    assert(a.min_x <= a.max_x && a.min_y <= a.max_y);
    assert((bounds.max_x - bounds.min_x) / 2 < bounds.max_x - bounds.min_x);
    assert((bounds.max_y - bounds.min_y) / 2 < bounds.max_y - bounds.min_y);
    assert(cx < bounds.max_x && cy < bounds.max_y);
    if i == 0 {
        assert(a.max_x < cx && a.max_y < cy);
    } else if i == 1 {
        assert(a.min_x >= cx && a.max_y < cy);
        assert(region.max_x > a.min_x);
    } else if i == 2 {
        assert(a.min_x >= cx && a.min_y >= cy);
        assert(region.max_x > a.min_x && region.max_y > a.min_y);
    } else {
        assert(a.max_x < cx && a.min_y >= cy);
        assert(region.max_y > a.min_y);
    }
}

/// Query completeness and soundness: on a well-formed tree, a region
/// query returns exactly the stored values whose shape meets the region —
/// no false positives and no missed matches — regardless of how the tree
/// was subdivided, provided the region does not end edge-on exactly where
/// a matching value's bounding box begins (such a value can sit just
/// inside a quadrant the traversal correctly declines to enter).
pub proof fn lemma_query_complete(n: QNode, bounds: Rect, depth: nat, region: Rect)
    requires
        n.wf(bounds, depth),
        bounds.wf(),
        rects_overlap_strict(bounds, region),
        forall|v: QuadVal| #[trigger] n.all_vals().contains(v) && v.intersects_rect_sp(region)
            ==> v.aabb_sp().min_x != region.max_x && v.aabb_sp().min_y != region.max_y,
    ensures
        n.query_sp(bounds, region) == n.all_vals().filter(hits(region)),
    decreases n,
{
    match n.kids {
        None => {},
        Some(k) => {
            assert(n.child(0) == k.bl && n.child(1) == k.br && n.child(2) == k.tr && n.child(3)
                == k.tl);
            n.lemma_all_vals_wf(bounds, depth);
            assert forall|i: int, v: QuadVal|
                0 <= i < 4 && #[trigger] n.child(i).all_vals().contains(v) implies n.all_vals().contains(
                v,
            ) by {
                assert(n.all_vals() == n.values@ + k.bl.all_vals() + k.br.all_vals()
                    + k.tr.all_vals() + k.tl.all_vals());
            }
            let branch = |c: QNode, i: int|
                {
                    if rects_overlap_strict(child_bounds(bounds, i), region) {
                        c.query_sp(child_bounds(bounds, i), region)
                    } else {
                        Seq::<QuadVal>::empty()
                    }
                };
            assert forall|i: int| 0 <= i < 4 implies #[trigger] branch(n.child(i), i) == n.child(
                i,
            ).all_vals().filter(hits(region)) by {
                let c = n.child(i);
                let cb = child_bounds(bounds, i);
                if rects_overlap_strict(cb, region) {
                    crate::geom::lemma_child_bounds_wf(bounds, i);
                    lemma_query_complete(c, cb, depth + 1, region);
                } else {
                    assert forall|j: int| 0 <= j < c.all_vals().len() implies !hits(region)(
                        c.all_vals()[j],
                    ) by {
                        let v = c.all_vals()[j];
                        assert(c.all_vals().contains(v));
                        if v.intersects_rect_sp(region) {
                            assert(n.all_vals().contains(v));
                            assert(quadrant_of(bounds, v.aabb_sp()) == Some(i));
                            assert(v.wf()) by {
                                assert(vals_wf(n.all_vals()));
                            }
                            lemma_hit_means_aabb_meets(v, region);
                            lemma_descend_needed(bounds, region, v, i);
                        }
                    }
                    assert(c.all_vals().all(|x: QuadVal| !hits(region)(x)));
                    c.all_vals().lemma_all_neg_filter_empty(hits(region));
                    assert(c.all_vals().filter(hits(region)) =~= Seq::<QuadVal>::empty());
                }
            }
            assert(n.query_sp(bounds, region) == n.values@.filter(hits(region)) + branch(k.bl, 0)
                + branch(k.br, 1) + branch(k.tr, 2) + branch(k.tl, 3));
            assert(branch(k.bl, 0) == branch(n.child(0), 0) && branch(k.br, 1) == branch(n.child(1), 1) && branch(
                k.tr,
                2,
            ) == branch(n.child(2), 2) && branch(k.tl, 3) == branch(n.child(3), 3));
            assert(n.all_vals().filter(hits(region)) == n.values@.filter(hits(region))
                + k.bl.all_vals().filter(hits(region)) + k.br.all_vals().filter(hits(region))
                + k.tr.all_vals().filter(hits(region)) + k.tl.all_vals().filter(hits(region))) by {
                assert(n.all_vals() == n.values@ + k.bl.all_vals() + k.br.all_vals()
                    + k.tr.all_vals() + k.tl.all_vals());
            }
        },
    }
}

/// The nearest-neighbour scan of a non-empty value list returns one of
/// its values, and none of them lies closer to the point. Together with
/// the contract of `Quadtree::nearest`, a lookup on a tree whose root is
/// a leaf returns a value at the true minimum center distance.
pub proof fn lemma_best_of_minimal(s: Seq<QuadVal>, px: int, py: int)
    requires
        s.len() > 0,
    ensures
        s.contains(QNode::best_of(s, px, py)),
        forall|j: int|
            0 <= j < s.len() ==> center_dist_sq(px, py, QNode::best_of(s, px, py))
                <= center_dist_sq(px, py, #[trigger] s[j]),
    decreases s.len(),
{
    let best = QNode::best_of(s, px, py);
    if s.len() == 1 {
        assert(s[0] == best);
    } else {
        lemma_best_of_minimal(s.drop_last(), px, py);
        let prev = QNode::best_of(s.drop_last(), px, py);
        if best == s.last() {
            assert(s[s.len() - 1] == best);
        } else {
            assert(best == prev);
            let j = choose|j: int| 0 <= j < s.drop_last().len() && s.drop_last()[j] == prev;
            assert(s[j] == best);
        }
        assert forall|j: int| 0 <= j < s.len() implies center_dist_sq(px, py, best)
            <= center_dist_sq(px, py, #[trigger] s[j]) by {
            if j < s.len() - 1 {
                assert(s.drop_last()[j] == s[j]);
            }
        }
    }
}

/// The unordered pair of two values: a two-element multiset.
pub open spec fn upair(a: QuadVal, b: QuadVal) -> Multiset<QuadVal> {
    Multiset::<QuadVal>::empty().insert(a).insert(b)
}

/// A sequence of reported pairs, read as a multiset of unordered pairs.
pub open spec fn pair_ms(ps: Seq<(QuadVal, QuadVal)>) -> Multiset<Multiset<QuadVal>>
    decreases ps.len(),
{
    if ps.len() == 0 {
        Multiset::<Multiset<QuadVal>>::empty()
    } else {
        pair_ms(ps.drop_last()).insert(upair(ps.last().0, ps.last().1))
    }
}

/// The unordered intersecting pairs within `s`: for every index pair
/// `j < i` with meeting shapes, the unordered pair of `s[j]` and `s[i]`,
/// counted once per index pair.
pub open spec fn upairs_of(s: Seq<QuadVal>) -> Multiset<Multiset<QuadVal>>
    decreases s.len(),
{
    if s.len() == 0 {
        Multiset::<Multiset<QuadVal>>::empty()
    } else {
        upairs_of(s.drop_last()).add(pair_ms(pairs_with(s.drop_last(), s.last())))
    }
}

/// The unordered intersecting pairs with one element from `s` and one
/// from `t`, counted once per index pair.
pub open spec fn cross_ms(s: Seq<QuadVal>, t: Seq<QuadVal>) -> Multiset<Multiset<QuadVal>>
    decreases t.len(),
{
    if t.len() == 0 {
        Multiset::<Multiset<QuadVal>>::empty()
    } else {
        cross_ms(s, t.drop_last()).add(pair_ms(pairs_with(s, t.last())))
    }
}

/// `pair_ms` distributes over concatenation.
proof fn lemma_pair_ms_concat(a: Seq<(QuadVal, QuadVal)>, b: Seq<(QuadVal, QuadVal)>)
    ensures
        pair_ms(a + b) == pair_ms(a).add(pair_ms(b)),
    decreases b.len(),
{
    if b.len() == 0 {
        assert(a + b =~= a);
        assert(pair_ms(a + b) =~= pair_ms(a).add(pair_ms(b)));
    } else {
        lemma_pair_ms_concat(a, b.drop_last());
        assert((a + b).drop_last() =~= a + b.drop_last());
        assert((a + b).last() == b.last());
        assert(pair_ms(a + b) =~= pair_ms(a).add(pair_ms(b)));
    }
}

/// `pairs_with` distributes over concatenation of the scanned sequence.
proof fn lemma_pairs_with_concat(s: Seq<QuadVal>, u: Seq<QuadVal>, v: QuadVal)
    ensures
        pairs_with(s + u, v) == pairs_with(s, v) + pairs_with(u, v),
    decreases u.len(),
{
    if u.len() == 0 {
        assert(s + u =~= s);
        assert(pairs_with(u, v) =~= Seq::<(QuadVal, QuadVal)>::empty());
        assert(pairs_with(s + u, v) =~= pairs_with(s, v) + pairs_with(u, v));
    } else {
        lemma_pairs_with_concat(s, u.drop_last(), v);
        assert((s + u).drop_last() =~= s + u.drop_last());
        assert((s + u).last() == u.last());
        assert(pairs_with(s + u, v) =~= pairs_with(s, v) + pairs_with(u, v));
    }
}

/// The pairs among one sequence, read unordered, are exactly its
/// intersecting index pairs.
proof fn lemma_pairs_among_upairs(s: Seq<QuadVal>)
    ensures
        pair_ms(pairs_among(s)) == upairs_of(s),
    decreases s.len(),
{
    if s.len() > 0 {
        lemma_pairs_among_upairs(s.drop_last());
        lemma_pair_ms_concat(pairs_among(s.drop_last()), pairs_with(s.drop_last(), s.last()));
    }
}

/// The intersecting index pairs of a concatenation: the pairs within
/// each part plus the pairs across the two parts.
proof fn lemma_upairs_concat(s: Seq<QuadVal>, t: Seq<QuadVal>)
    ensures
        upairs_of(s + t) == upairs_of(s).add(cross_ms(s, t)).add(upairs_of(t)),
    decreases t.len(),
{
    if t.len() == 0 {
        assert(s + t =~= s);
        assert(upairs_of(s + t) =~= upairs_of(s).add(cross_ms(s, t)).add(upairs_of(t)));
    } else {
        lemma_upairs_concat(s, t.drop_last());
        assert((s + t).drop_last() =~= s + t.drop_last());
        assert((s + t).last() == t.last());
        lemma_pairs_with_concat(s, t.drop_last(), t.last());
        lemma_pair_ms_concat(pairs_with(s, t.last()), pairs_with(t.drop_last(), t.last()));
        assert(upairs_of(s + t) =~= upairs_of(s).add(cross_ms(s, t)).add(upairs_of(t)));
    }
}

/// Cross pairs distribute over concatenation of the first sequence.
proof fn lemma_cross_first_concat(s: Seq<QuadVal>, u: Seq<QuadVal>, t: Seq<QuadVal>)
    ensures
        cross_ms(s + u, t) == cross_ms(s, t).add(cross_ms(u, t)),
    decreases t.len(),
{
    if t.len() == 0 {
        assert(cross_ms(s + u, t) =~= cross_ms(s, t).add(cross_ms(u, t)));
    } else {
        lemma_cross_first_concat(s, u, t.drop_last());
        lemma_pairs_with_concat(s, u, t.last());
        lemma_pair_ms_concat(pairs_with(s, t.last()), pairs_with(u, t.last()));
        assert(cross_ms(s + u, t) =~= cross_ms(s, t).add(cross_ms(u, t)));
    }
}

/// A scan against a value nothing in the sequence meets reports nothing.
proof fn lemma_pairs_with_all_empty(s: Seq<QuadVal>, v: QuadVal)
    requires
        forall|j: int| 0 <= j < s.len() ==> !v.intersects_sp(#[trigger] s[j]),
    ensures
        pairs_with(s, v) == Seq::<(QuadVal, QuadVal)>::empty(),
    decreases s.len(),
{
    if s.len() > 0 {
        lemma_pairs_with_all_empty(s.drop_last(), v);
        assert(!v.intersects_sp(s[s.len() - 1]));
        assert(pairs_with(s, v) =~= Seq::<(QuadVal, QuadVal)>::empty());
    }
}

/// No cross pairs exist against an empty left sequence.
proof fn lemma_cross_empty_left(t: Seq<QuadVal>)
    ensures
        cross_ms(Seq::<QuadVal>::empty(), t) == Multiset::<Multiset<QuadVal>>::empty(),
    decreases t.len(),
{
    if t.len() > 0 {
        lemma_cross_empty_left(t.drop_last());
        assert(pairs_with(Seq::<QuadVal>::empty(), t.last()) == Seq::<(QuadVal, QuadVal)>::empty());
        assert(cross_ms(Seq::<QuadVal>::empty(), t) =~= Multiset::<Multiset<QuadVal>>::empty());
    }
}

/// The unordered reading of a single reported pair.
proof fn lemma_pair_ms_singleton(p: (QuadVal, QuadVal))
    ensures
        pair_ms(seq![p]) == Multiset::<Multiset<QuadVal>>::empty().insert(upair(p.0, p.1)),
{
    assert(seq![p].drop_last() =~= Seq::<(QuadVal, QuadVal)>::empty());
    assert(seq![p].last() == p);
    assert(pair_ms(Seq::<(QuadVal, QuadVal)>::empty()) == Multiset::<Multiset<QuadVal>>::empty());
}

/// The cross pairs of a single value against `t` are the unordered scan
/// of `t` against that value.
proof fn lemma_cross_single(a: QuadVal, t: Seq<QuadVal>)
    ensures
        cross_ms(seq![a], t) == pair_ms(pairs_with(t, a)),
    decreases t.len(),
{
    if t.len() == 0 {
        assert(pairs_with(t, a) == Seq::<(QuadVal, QuadVal)>::empty());
        assert(cross_ms(seq![a], t) =~= pair_ms(pairs_with(t, a)));
    } else {
        lemma_cross_single(a, t.drop_last());
        let w = t.last();
        assert(seq![a].drop_last() =~= Seq::<QuadVal>::empty());
        assert(seq![a].last() == a);
        assert(pairs_with(Seq::<QuadVal>::empty(), w) == Seq::<(QuadVal, QuadVal)>::empty());
        crate::quad_val::lemma_intersects_symmetric(a, w);
        if w.intersects_sp(a) {
            assert(pairs_with(seq![a], w) =~= Seq::<(QuadVal, QuadVal)>::empty() + seq![(w, a)]);
            assert(pairs_with(seq![a], w) =~= seq![(w, a)]);
            lemma_pair_ms_singleton((w, a));
            lemma_pair_ms_singleton((a, w));
            assert(upair(w, a) =~= upair(a, w));
            lemma_pair_ms_concat(pairs_with(t.drop_last(), a), seq![(a, w)]);
            assert(pairs_with(t, a) == pairs_with(t.drop_last(), a) + seq![(a, w)]);
        } else {
            assert(pairs_with(seq![a], w) =~= Seq::<(QuadVal, QuadVal)>::empty());
            assert(pairs_with(t, a) == pairs_with(t.drop_last(), a) + Seq::<(QuadVal,
                QuadVal,
            )>::empty());
            assert(pairs_with(t, a) =~= pairs_with(t.drop_last(), a));
        }
        assert(cross_ms(seq![a], t) =~= pair_ms(pairs_with(t, a)));
    }
}

/// Cross pairs are symmetric in the two sequences.
proof fn lemma_cross_sym(s: Seq<QuadVal>, t: Seq<QuadVal>)
    ensures
        cross_ms(s, t) == cross_ms(t, s),
    decreases t.len(),
{
    if t.len() == 0 {
        lemma_cross_empty_left(s);
    } else {
        lemma_cross_sym(s, t.drop_last());
        assert(t =~= t.drop_last() + seq![t.last()]);
        lemma_cross_first_concat(t.drop_last(), seq![t.last()], s);
        assert(cross_ms(t, s) == cross_ms(t.drop_last(), s).add(cross_ms(seq![t.last()], s)));
        lemma_cross_single(t.last(), s);
        assert(cross_ms(s, t) =~= cross_ms(t, s));
    }
}

/// A value scan is blind to tree structure: scanning a subtree equals
/// scanning its flattened value sequence.
proof fn lemma_pairs_with_subtree_flat(c: QNode, v: QuadVal)
    ensures
        c.pairs_with_subtree(v) == pairs_with(c.all_vals(), v),
    decreases c,
{
    match c.kids {
        None => {},
        Some(k) => {
            lemma_pairs_with_subtree_flat(k.bl, v);
            lemma_pairs_with_subtree_flat(k.br, v);
            lemma_pairs_with_subtree_flat(k.tr, v);
            lemma_pairs_with_subtree_flat(k.tl, v);
            lemma_pairs_with_concat(c.values@, k.bl.all_vals(), v);
            lemma_pairs_with_concat(c.values@ + k.bl.all_vals(), k.br.all_vals(), v);
            lemma_pairs_with_concat(
                c.values@ + k.bl.all_vals() + k.br.all_vals(),
                k.tr.all_vals(),
                v,
            );
            lemma_pairs_with_concat(
                c.values@ + k.bl.all_vals() + k.br.all_vals() + k.tr.all_vals(),
                k.tl.all_vals(),
                v,
            );
        },
    }
}

/// The cross scan of a subtree against a value list, read unordered, is
/// the cross pairs of the list against the subtree's values.
proof fn lemma_cross_pairs_ms(c: QNode, vs: Seq<QuadVal>)
    ensures
        pair_ms(c.cross_pairs(vs)) == cross_ms(c.all_vals(), vs),
    decreases vs.len(),
{
    if vs.len() > 0 {
        lemma_cross_pairs_ms(c, vs.drop_last());
        lemma_pair_ms_concat(c.cross_pairs(vs.drop_last()), c.pairs_with_subtree(vs.last()));
        lemma_pairs_with_subtree_flat(c, vs.last());
    }
}

/// Values assigned to different quadrants of the same bounds never meet:
/// their bounding boxes are separated by a center line.
proof fn lemma_quadrants_disjoint(bounds: Rect, u: QuadVal, w: QuadVal, i: int, j: int)
    requires
        u.wf(),
        w.wf(),
        quadrant_of(bounds, u.aabb_sp()) == Some(j),
        quadrant_of(bounds, w.aabb_sp()) == Some(i),
        i != j,
    ensures
        !w.intersects_sp(u),
{
    if w.intersects_sp(u) {
        crate::quad_val::lemma_meet_means_aabbs_meet(w, u);
    }
}

/// Two child value sequences of different quadrants produce no cross
/// pairs.
proof fn lemma_cross_children_empty(
    bounds: Rect,
    s: Seq<QuadVal>,
    t: Seq<QuadVal>,
    j: int,
    i: int,
)
    requires
        i != j,
        forall|v: QuadVal| #[trigger] s.contains(v) ==> v.wf() && quadrant_of(bounds, v.aabb_sp())
            == Some(j),
        forall|v: QuadVal| #[trigger] t.contains(v) ==> v.wf() && quadrant_of(bounds, v.aabb_sp())
            == Some(i),
    ensures
        cross_ms(s, t) == Multiset::<Multiset<QuadVal>>::empty(),
    decreases t.len(),
{
    if t.len() > 0 {
        assert forall|v: QuadVal| #[trigger] t.drop_last().contains(v) implies t.contains(v) by {
            let x = choose|x: int| 0 <= x < t.drop_last().len() && t.drop_last()[x] == v;
            assert(t[x] == v);
        }
        lemma_cross_children_empty(bounds, s, t.drop_last(), j, i);
        let w = t.last();
        assert(t.contains(w)) by {
            assert(t[t.len() - 1] == w);
        }
        assert forall|x: int| 0 <= x < s.len() implies !w.intersects_sp(#[trigger] s[x]) by {
            assert(s.contains(s[x]));
            lemma_quadrants_disjoint(bounds, s[x], w, i, j);
        }
        lemma_pairs_with_all_empty(s, w);
        assert(cross_ms(s, t) =~= Multiset::<Multiset<QuadVal>>::empty());
    }
}

/// Intersection-pair completeness and no duplication: on a well-formed
/// tree, the all-pairs search reports, as unordered pairs, exactly the
/// intersecting index pairs of the stored value sequence — every pair of
/// stored values whose shapes meet appears exactly once, no matter which
/// nodes hold them.
#[verifier::rlimit(100)]
pub proof fn lemma_find_all_intersections_exact(n: QNode, bounds: Rect, depth: nat)
    requires
        n.wf(bounds, depth),
        bounds.wf(),
    ensures
        pair_ms(n.all_pairs_sp()) == upairs_of(n.all_vals()),
    decreases n,
{
    match n.kids {
        None => {
            lemma_pairs_among_upairs(n.values@);
        },
        Some(k) => {
            let vs = n.values@;
            let a0 = k.bl.all_vals();
            let a1 = k.br.all_vals();
            let a2 = k.tr.all_vals();
            let a3 = k.tl.all_vals();
            crate::geom::lemma_child_bounds_wf(bounds, 0);
            crate::geom::lemma_child_bounds_wf(bounds, 1);
            crate::geom::lemma_child_bounds_wf(bounds, 2);
            crate::geom::lemma_child_bounds_wf(bounds, 3);
            lemma_find_all_intersections_exact(k.bl, child_bounds(bounds, 0), depth + 1);
            lemma_find_all_intersections_exact(k.br, child_bounds(bounds, 1), depth + 1);
            lemma_find_all_intersections_exact(k.tr, child_bounds(bounds, 2), depth + 1);
            lemma_find_all_intersections_exact(k.tl, child_bounds(bounds, 3), depth + 1);
            k.bl.lemma_all_vals_wf(child_bounds(bounds, 0), depth + 1);
            k.br.lemma_all_vals_wf(child_bounds(bounds, 1), depth + 1);
            k.tr.lemma_all_vals_wf(child_bounds(bounds, 2), depth + 1);
            k.tl.lemma_all_vals_wf(child_bounds(bounds, 3), depth + 1);
            // the reported side, unordered
            lemma_pairs_among_upairs(vs);
            lemma_cross_pairs_ms(k.bl, vs);
            lemma_cross_pairs_ms(k.br, vs);
            lemma_cross_pairs_ms(k.tr, vs);
            lemma_cross_pairs_ms(k.tl, vs);
            lemma_cross_sym(a0, vs);
            lemma_cross_sym(a1, vs);
            lemma_cross_sym(a2, vs);
            lemma_cross_sym(a3, vs);
            let p = n.all_pairs_sp();
            lemma_pair_ms_concat(pairs_among(vs), k.bl.cross_pairs(vs) + k.bl.all_pairs_sp());
            lemma_pair_ms_concat(k.bl.cross_pairs(vs), k.bl.all_pairs_sp());
            lemma_pair_ms_concat(
                pairs_among(vs) + (k.bl.cross_pairs(vs) + k.bl.all_pairs_sp()),
                k.br.cross_pairs(vs) + k.br.all_pairs_sp(),
            );
            lemma_pair_ms_concat(k.br.cross_pairs(vs), k.br.all_pairs_sp());
            lemma_pair_ms_concat(
                pairs_among(vs) + (k.bl.cross_pairs(vs) + k.bl.all_pairs_sp()) + (
                k.br.cross_pairs(vs) + k.br.all_pairs_sp()),
                k.tr.cross_pairs(vs) + k.tr.all_pairs_sp(),
            );
            lemma_pair_ms_concat(k.tr.cross_pairs(vs), k.tr.all_pairs_sp());
            lemma_pair_ms_concat(
                pairs_among(vs) + (k.bl.cross_pairs(vs) + k.bl.all_pairs_sp()) + (
                k.br.cross_pairs(vs) + k.br.all_pairs_sp()) + (k.tr.cross_pairs(vs)
                    + k.tr.all_pairs_sp()),
                k.tl.cross_pairs(vs) + k.tl.all_pairs_sp(),
            );
            lemma_pair_ms_concat(k.tl.cross_pairs(vs), k.tl.all_pairs_sp());
            // the stored side, decomposed by node
            lemma_upairs_concat(vs, a0);
            lemma_upairs_concat(vs + a0, a1);
            lemma_upairs_concat(vs + a0 + a1, a2);
            lemma_upairs_concat(vs + a0 + a1 + a2, a3);
            lemma_cross_first_concat(vs, a0, a1);
            lemma_cross_first_concat(vs, a0, a2);
            lemma_cross_first_concat(vs + a0, a1, a2);
            lemma_cross_first_concat(vs, a0, a3);
            lemma_cross_first_concat(vs + a0, a1, a3);
            lemma_cross_first_concat(vs + a0 + a1, a2, a3);
            // sibling quadrants never meet
            lemma_cross_children_empty(bounds, a0, a1, 0, 1);
            lemma_cross_children_empty(bounds, a0, a2, 0, 2);
            lemma_cross_children_empty(bounds, a0, a3, 0, 3);
            lemma_cross_children_empty(bounds, a1, a2, 1, 2);
            lemma_cross_children_empty(bounds, a1, a3, 1, 3);
            lemma_cross_children_empty(bounds, a2, a3, 2, 3);
            assert(n.all_vals() == vs + a0 + a1 + a2 + a3);
            assert(pair_ms(n.all_pairs_sp()) =~= upairs_of(n.all_vals()));
        },
    }
}

/// Query soundness, unconditionally: every value a region query returns
/// is stored in the subtree it was asked about, and its shape meets the
/// region — there are no false positives and no values invented.
pub proof fn lemma_query_sound(n: QNode, bounds: Rect, region: Rect, v: QuadVal)
    requires
        n.query_sp(bounds, region).contains(v),
    ensures
        n.all_vals().contains(v),
        v.intersects_rect_sp(region),
    decreases n,
{
    match n.kids {
        None => {
            crate::quadtree::lemma_filter_is_subset(n.values@, hits(region), v);
        },
        Some(k) => {
            let own = n.values@.filter(hits(region));
            let q0 = if rects_overlap_strict(child_bounds(bounds, 0), region) {
                k.bl.query_sp(child_bounds(bounds, 0), region)
            } else {
                Seq::<QuadVal>::empty()
            };
            let q1 = if rects_overlap_strict(child_bounds(bounds, 1), region) {
                k.br.query_sp(child_bounds(bounds, 1), region)
            } else {
                Seq::<QuadVal>::empty()
            };
            let q2 = if rects_overlap_strict(child_bounds(bounds, 2), region) {
                k.tr.query_sp(child_bounds(bounds, 2), region)
            } else {
                Seq::<QuadVal>::empty()
            };
            let q3 = if rects_overlap_strict(child_bounds(bounds, 3), region) {
                k.tl.query_sp(child_bounds(bounds, 3), region)
            } else {
                Seq::<QuadVal>::empty()
            };
            assert(n.query_sp(bounds, region) == own + q0 + q1 + q2 + q3);
            assert(n.all_vals() == n.values@ + k.bl.all_vals() + k.br.all_vals() + k.tr.all_vals()
                + k.tl.all_vals());
            if own.contains(v) {
                crate::quadtree::lemma_filter_is_subset(n.values@, hits(region), v);
            } else if q0.contains(v) {
                lemma_query_sound(k.bl, child_bounds(bounds, 0), region, v);
            } else if q1.contains(v) {
                lemma_query_sound(k.br, child_bounds(bounds, 1), region, v);
            } else if q2.contains(v) {
                lemma_query_sound(k.tr, child_bounds(bounds, 2), region, v);
            } else {
                assert(q3.contains(v));
                lemma_query_sound(k.tl, child_bounds(bounds, 3), region, v);
            }
        },
    }
}

/// Query completeness at the tree level: under the tree invariant, and
/// with the caveat on edge-on regions above, `Quadtree::query` returns
/// exactly the stored values whose shape meets the region, in traversal
/// order.
pub proof fn lemma_tree_query_complete(t: Quadtree, region: Rect)
    requires
        t.wf(),
        rects_overlap_strict(t.bounds, region),
        forall|v: QuadVal| #[trigger] t@.contains(v) && v.intersects_rect_sp(region)
            ==> v.aabb_sp().min_x != region.max_x && v.aabb_sp().min_y != region.max_y,
    ensures
        t.root.query_sp(t.bounds, region) == t@.filter(hits(region)),
{
    assert forall|v: QuadVal|
        #[trigger] t.root.all_vals().contains(v) && v.intersects_rect_sp(region) implies v.aabb_sp().min_x
        != region.max_x && v.aabb_sp().min_y != region.max_y by {
        assert(t@.contains(v));
    }
    lemma_query_complete(t.root, t.bounds, 0, region);
}

/// Intersection-pair exactness at the tree level: under the tree
/// invariant, `Quadtree::find_all_intersections` reports, as unordered
/// pairs, exactly the intersecting index pairs of the stored values.
pub proof fn lemma_tree_pairs_exact(t: Quadtree)
    requires
        t.wf(),
    ensures
        pair_ms(t.root.all_pairs_sp()) == upairs_of(t@),
{
    lemma_find_all_intersections_exact(t.root, t.bounds, 0);
}

} // verus!
