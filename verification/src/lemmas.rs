//! What follows from the definitions of the model, step by step.

use vstd::prelude::*;
use crate::aabb::Region;
use crate::cardinal::Quadrant;
use crate::model::divisible;
use crate::model::grow;
use crate::model::routed;
use crate::model::routes_to;
use crate::model::separable;
use crate::model::subdivide;
use crate::model::Tree;
use crate::point::Placed;

verus! {

/// A share of no points is empty.
pub proof fn lemma_routed_empty<P>(r: Region, d: Quadrant)
    ensures
        routed(r, Seq::<Placed<P>>::empty(), d) == Seq::<Placed<P>>::empty(),
{
    reveal(Seq::filter);
}

/// One more point goes to the share of its quadrant and to no other.
pub proof fn lemma_routed_push<P>(r: Region, pts: Seq<Placed<P>>, q: Placed<P>, d: Quadrant)
    ensures
        routed(r, pts.push(q), d) == if r.holds(q) && r.quadrant_of(q.x, q.y) == d {
            routed(r, pts, d).push(q)
        } else {
            routed(r, pts, d)
        },
{
    pts.lemma_filter_push(q, routes_to(r, d));
}

/// A share is no longer than the whole, lies in the region, and lies in its
/// quadrant where the quadrants cover the points.
pub proof fn lemma_routed_share<P>(r: Region, pts: Seq<Placed<P>>, d: Quadrant)
    ensures
        routed(r, pts, d).len() <= pts.len(),
        r.holds_all(routed(r, pts, d)),
        r.covers_all(pts) ==> r.split().at(d).holds_all(routed(r, pts, d)),
    decreases pts.len(),
{
    if pts.len() > 0 {
        let rest = pts.drop_last();
        let q = pts.last();
        assert(rest.push(q) =~= pts);
        lemma_routed_share(r, rest, d);
        lemma_routed_push(r, rest, q, d);
    }
}

/// The four shares of points that all lie in the region add up to the whole.
pub proof fn lemma_routed_total<P>(r: Region, pts: Seq<Placed<P>>)
    requires
        r.holds_all(pts),
    ensures
        routed(r, pts, Quadrant::Northwest).len() + routed(r, pts, Quadrant::Northeast).len()
            + routed(r, pts, Quadrant::Southwest).len() + routed(
            r,
            pts,
            Quadrant::Southeast,
        ).len() == pts.len(),
    decreases pts.len(),
{
    if pts.len() > 0 {
        let rest = pts.drop_last();
        let q = pts.last();
        assert(rest.push(q) =~= pts);
        lemma_routed_total(r, rest);
        lemma_routed_push(r, rest, q, Quadrant::Northwest);
        lemma_routed_push(r, rest, q, Quadrant::Northeast);
        lemma_routed_push(r, rest, q, Quadrant::Southwest);
        lemma_routed_push(r, rest, q, Quadrant::Southeast);
    }
}

/// At most `cutoff` points, each in the quadrant it is handed to, can be
/// taken by a node.
pub proof fn lemma_covered_are_divisible<P>(r: Region, cutoff: nat, pts: Seq<Placed<P>>)
    requires
        pts.len() <= cutoff,
        r.holds_all(pts),
        r.covers_all(pts),
    ensures
        divisible(r, cutoff, pts),
{
    lemma_routed_share(r, pts, Quadrant::Northwest);
    lemma_routed_share(r, pts, Quadrant::Northeast);
    lemma_routed_share(r, pts, Quadrant::Southwest);
    lemma_routed_share(r, pts, Quadrant::Southeast);
}

/// Points that a node can take each lie in the quadrant they are handed to.
pub proof fn lemma_divisible_covers<P>(r: Region, cutoff: nat, pts: Seq<Placed<P>>)
    requires
        divisible(r, cutoff, pts),
    ensures
        r.covers_all(pts),
{
    assert forall|i: int| 0 <= i < pts.len() implies r.covers((#[trigger] pts[i]).x, pts[i].y) by {
        let d = r.quadrant_of(pts[i].x, pts[i].y);
        let share = routed(r, pts, d);
        pts.lemma_filter_contains(routes_to(r, d), i);
        let j = choose|j: int| 0 <= j < share.len() && share[j] == pts[i];
        assert(r.split().at(d).holds(share[j]));
    }
}

/// More than `cutoff` separable points can be taken by a node over the same
/// region, which can still be halved.
pub proof fn lemma_many_are_divisible<P>(r: Region, cutoff: nat, pts: Seq<Placed<P>>)
    requires
        separable(r, cutoff, pts),
        pts.len() > cutoff,
    ensures
        divisible(r, cutoff, pts),
        r.w >= 1,
        grow(r, cutoff, pts) == subdivide(r, cutoff, pts),
{
}

/// What grows from separable points spans the region, keeps the cutoff, is
/// well formed and holds each of the points once.
pub proof fn lemma_grow<P>(r: Region, cutoff: nat, pts: Seq<Placed<P>>)
    requires
        separable(r, cutoff, pts),
    ensures
        grow(r, cutoff, pts).region() == r,
        grow(r, cutoff, pts).cutoff() == cutoff,
        grow(r, cutoff, pts).wf(),
        grow(r, cutoff, pts).count() == pts.len(),
    decreases r.w,
{
    if pts.len() > cutoff {
        let s = r.split();
        lemma_grow(s.nw, cutoff, routed(r, pts, Quadrant::Northwest));
        lemma_grow(s.ne, cutoff, routed(r, pts, Quadrant::Northeast));
        lemma_grow(s.sw, cutoff, routed(r, pts, Quadrant::Southwest));
        lemma_grow(s.se, cutoff, routed(r, pts, Quadrant::Southeast));
        lemma_routed_total(r, pts);
    }
}

/// The node that takes divisible points is well formed and holds each of the
/// points once.
pub proof fn lemma_subdivide<P>(r: Region, cutoff: nat, pts: Seq<Placed<P>>)
    requires
        divisible(r, cutoff, pts),
    ensures
        subdivide(r, cutoff, pts).wf(),
        subdivide(r, cutoff, pts).count() == pts.len(),
{
    let s = r.split();
    lemma_grow(s.nw, cutoff, routed(r, pts, Quadrant::Northwest));
    lemma_grow(s.ne, cutoff, routed(r, pts, Quadrant::Northeast));
    lemma_grow(s.sw, cutoff, routed(r, pts, Quadrant::Southwest));
    lemma_grow(s.se, cutoff, routed(r, pts, Quadrant::Southeast));
    lemma_routed_total(r, pts);
}

/// The node that has taken no points is the node of four empty leaves.
pub proof fn lemma_subdivide_none<P>(r: Region, cutoff: nat)
    ensures
        subdivide(r, cutoff, Seq::<Placed<P>>::empty()) == Tree::<P>::fresh(r, cutoff),
        Tree::<P>::fresh(r, cutoff).wf(),
        Tree::<P>::fresh(r, cutoff).count() == 0,
{
    lemma_routed_empty::<P>(r, Quadrant::Northwest);
    lemma_routed_empty::<P>(r, Quadrant::Northeast);
    lemma_routed_empty::<P>(r, Quadrant::Southwest);
    lemma_routed_empty::<P>(r, Quadrant::Southeast);
    let s = r.split();
    assert(Tree::<P>::empty(s.nw, cutoff).wf() && Tree::<P>::empty(s.nw, cutoff).count() == 0);
    assert(Tree::<P>::empty(s.ne, cutoff).wf() && Tree::<P>::empty(s.ne, cutoff).count() == 0);
    assert(Tree::<P>::empty(s.sw, cutoff).wf() && Tree::<P>::empty(s.sw, cutoff).count() == 0);
    assert(Tree::<P>::empty(s.se, cutoff).wf() && Tree::<P>::empty(s.se, cutoff).count() == 0);
}

/// A node that has taken at most `cutoff` points is what `breakup` makes of
/// the leaf that holds them: four leaves.
pub proof fn lemma_subdivide_few<P>(r: Region, cutoff: nat, pts: Seq<Placed<P>>)
    requires
        pts.len() <= cutoff,
    ensures
        subdivide(r, cutoff, pts) == (Tree::Leaf { region: r, points: pts, cutoff }).breakup(),
        subdivide(r, cutoff, pts).height() == 1,
{
    let s = r.split();
    lemma_routed_share(r, pts, Quadrant::Northwest);
    lemma_routed_share(r, pts, Quadrant::Northeast);
    lemma_routed_share(r, pts, Quadrant::Southwest);
    lemma_routed_share(r, pts, Quadrant::Southeast);
    assert(grow(s.nw, cutoff, routed(r, pts, Quadrant::Northwest)).height() == 0);
    assert(grow(s.ne, cutoff, routed(r, pts, Quadrant::Northeast)).height() == 0);
    assert(grow(s.sw, cutoff, routed(r, pts, Quadrant::Southwest)).height() == 0);
    assert(grow(s.se, cutoff, routed(r, pts, Quadrant::Southeast)).height() == 0);
}

/// A node that has taken the points `pts` admits one more that it can take
/// with them, and inserting it gives the node that has taken them all.
pub proof fn lemma_subdivide_insert<P>(r: Region, cutoff: nat, pts: Seq<Placed<P>>, q: Placed<P>)
    requires
        divisible(r, cutoff, pts.push(q)),
    ensures
        subdivide(r, cutoff, pts).admits(q),
        subdivide(r, cutoff, pts).insert(q) == subdivide(r, cutoff, pts.push(q)),
    decreases r.w,
{
    // `q` lies in `r` and in the quadrant `d` that it is handed to
    let all = pts.push(q);
    assert(all[pts.len() as int] == q);
    lemma_divisible_covers(r, cutoff, all);
    let d = r.quadrant_of(q.x, q.y);
    // the share of `d` gains `q`, the others stay as they are
    lemma_routed_push(r, pts, q, Quadrant::Northwest);
    lemma_routed_push(r, pts, q, Quadrant::Northeast);
    lemma_routed_push(r, pts, q, Quadrant::Southwest);
    lemma_routed_push(r, pts, q, Quadrant::Southeast);
    let sub = r.split().at(d);
    let share = routed(r, pts, d);
    let child = grow(sub, cutoff, share);
    if share.len() > cutoff {
        // the child is a node that has taken its share
        lemma_subdivide_insert(sub, cutoff, share, q);
    } else if share.len() < cutoff {
        // the child is a leaf with room
        assert(child.admits(q));
        assert(child.insert(q) == grow(sub, cutoff, share.push(q)));
    }
}

/// Separable points stay separable when the last of them is left out.
pub proof fn lemma_separable_prefix<P>(r: Region, cutoff: nat, pts: Seq<Placed<P>>, q: Placed<P>)
    requires
        separable(r, cutoff, pts.push(q)),
    ensures
        separable(r, cutoff, pts),
    decreases r.w,
{
    let all = pts.push(q);
    assert(all[pts.len() as int] == q);
    assert forall|i: int| 0 <= i < pts.len() implies r.holds(#[trigger] pts[i]) by {
        assert(all[i] == pts[i]);
    }
    if pts.len() > cutoff {
        let d = r.quadrant_of(q.x, q.y);
        lemma_routed_push(r, pts, q, Quadrant::Northwest);
        lemma_routed_push(r, pts, q, Quadrant::Northeast);
        lemma_routed_push(r, pts, q, Quadrant::Southwest);
        lemma_routed_push(r, pts, q, Quadrant::Southeast);
        lemma_separable_prefix(r.split().at(d), cutoff, routed(r, pts, d), q);
    }
}

/// Points that a node can take, it can take without the last of them.
pub proof fn lemma_divisible_prefix<P>(r: Region, cutoff: nat, pts: Seq<Placed<P>>, q: Placed<P>)
    requires
        divisible(r, cutoff, pts.push(q)),
    ensures
        divisible(r, cutoff, pts),
{
    let all = pts.push(q);
    assert(all[pts.len() as int] == q);
    assert forall|i: int| 0 <= i < pts.len() implies r.holds(#[trigger] pts[i]) by {
        assert(all[i] == pts[i]);
    }
    let d = r.quadrant_of(q.x, q.y);
    lemma_routed_push(r, pts, q, Quadrant::Northwest);
    lemma_routed_push(r, pts, q, Quadrant::Northeast);
    lemma_routed_push(r, pts, q, Quadrant::Southwest);
    lemma_routed_push(r, pts, q, Quadrant::Southeast);
    lemma_separable_prefix(r.split().at(d), cutoff, routed(r, pts, d), q);
}

} // verus!
