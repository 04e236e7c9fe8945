//! The scene's settings and the tracer that picks the nearest hit.

use vstd::prelude::*;
use vstd::seq_lib::to_multiset_contains;

verus! {

/// What a ray met: the key of the hit distance and the index of the surface.
#[derive(Clone, Copy, Debug, PartialEq, Eq)]
pub struct Intersection {
    pub dist: u32,
    pub elem: usize,
}

impl Intersection {
    /// The hit of surface `elem` at the distance whose key is `dist`.
    pub fn new(dist: u32, elem: usize) -> (hit: Intersection)
        ensures
            hit.dist == dist,
            hit.elem == elem,
    {
        Intersection { dist, elem }
    }
}

/// Whether `hits` holds a hit at all.
pub open spec fn any_hit(hits: Seq<Option<u32>>) -> bool {
    exists|j: int| 0 <= j < hits.len() && (#[trigger] hits[j]) is Some
}

/// Whether `i` is the first of the nearest hits in `hits`.
pub open spec fn is_nearest(hits: Seq<Option<u32>>, i: int) -> bool {
    &&& 0 <= i < hits.len()
    &&& hits[i] is Some
    &&& forall|j: int|
        0 <= j < hits.len() && hits[j] is Some ==> hits[i].unwrap() <= (#[trigger] hits[j]).unwrap()
    &&& forall|j: int|
        0 <= j < i && hits[j] is Some ==> hits[i].unwrap() < (#[trigger] hits[j]).unwrap()
}

/// The nearest of the candidate hits.
///
/// `hits[i]` is the key of the distance of candidate `i`, or `None` where
/// there is no hit ahead. Among equally near candidates the first is taken.
pub fn nearest(hits: &[Option<u32>]) -> (found: Option<Intersection>)
    ensures
        found is Some <==> any_hit(hits@),
        found matches Some(hit) ==> is_nearest(hits@, hit.elem as int) && hits@[hit.elem as int]
            == Some(hit.dist),
{
    let mut best: Option<Intersection> = None;
    let mut i: usize = 0;
    while i < hits.len()
        invariant
            i <= hits.len(),
            best is None ==> forall|j: int| 0 <= j < i ==> (#[trigger] hits@[j]) is None,
            best matches Some(hit) ==> hit.elem < i && is_nearest(
                hits@.take(i as int),
                hit.elem as int,
            ) && hits@[hit.elem as int] == Some(hit.dist),
        decreases hits.len() - i,
    {
        match hits[i] {
            Some(dist) => {
                let nearer = match best {
                    Some(hit) => dist < hit.dist,
                    None => true,
                };
                if nearer {
                    best = Some(Intersection::new(dist, i));
                }
            },
            None => {},
        }
        i = i + 1;
    }
    assert(hits@.take(i as int) =~= hits@);
    best
}

/// The settings of a render: the frame's size, the rays per pixel and the
/// depth at which the tracer stops following bounces.
#[derive(Clone, Copy, Debug, PartialEq, Eq)]
pub struct Scene {
    pub width: u32,
    pub height: u32,
    pub samples: u32,
    pub tracing_depth: u32,
}

impl Scene {
    /// Whether a ray at `depth` that meets the surfaces as `hits` says is
    /// reported as a hit.
    pub open spec fn traces(&self, hits: Seq<Option<u32>>, depth: int) -> bool {
        depth < self.tracing_depth && any_hit(hits)
    }

    /// A scene of the given size that follows bounces three levels deep.
    pub fn new(width: u32, height: u32, samples: u32) -> (scene: Scene)
        ensures
            scene.width == width,
            scene.height == height,
            scene.samples == samples,
            scene.tracing_depth == 3,
    {
        Scene { width, height, samples, tracing_depth: 3 }
    }

    /// Whether rays at recursion level `depth` are still traced.
    pub fn within_depth(&self, depth: u32) -> (within: bool)
        ensures
            within == (depth < self.tracing_depth),
    {
        depth < self.tracing_depth
    }

    /// The nearest hit of a ray at recursion level `depth`.
    ///
    /// `hits[i]` is the key of the distance at which the ray meets surface
    /// `i`, or `None` where it misses. At or beyond the depth limit nothing is
    /// looked at and the answer is `None`. Among equally near hits the first
    /// one is taken.
    pub fn trace(&self, hits: &[Option<u32>], depth: u32) -> (found: Option<Intersection>)
        ensures
            found is Some <==> self.traces(hits@, depth as int),
            found matches Some(hit) ==> is_nearest(hits@, hit.elem as int) && hits@[hit.elem as int]
                == Some(hit.dist),
    {
        if self.within_depth(depth) {
            nearest(hits)
        } else {
            None
        }
    }
}

/// A chain of bounces that starts at level 0, each traced one level deeper than
/// the one before it, holds at most `tracing_depth` hits: at the depth limit
/// the tracer reports none, whatever the surfaces are.
pub proof fn lemma_bounces_bounded(scene: Scene, chain: Seq<Seq<Option<u32>>>)
    requires
        forall|depth: int|
            0 <= depth < chain.len() ==> scene.traces(#[trigger] chain[depth], depth),
    ensures
        chain.len() <= scene.tracing_depth,
{
    if chain.len() > scene.tracing_depth {
        assert(scene.traces(chain[scene.tracing_depth as int], scene.tracing_depth as int));
    }
}

/// An entry of one list is found in another list that holds the same entries.
proof fn lemma_listed_in(a: Seq<Option<u32>>, b: Seq<Option<u32>>, i: int) -> (j: int)
    requires
        0 <= i < a.len(),
        a.to_multiset() == b.to_multiset(),
    ensures
        0 <= j < b.len(),
        b[j] == a[i],
{
    to_multiset_contains(a, a[i]);
    to_multiset_contains(b, a[i]);
    choose|j: int| 0 <= j < b.len() && b[j] == a[i]
}

/// The order in which the surfaces are listed does not matter to what is
/// found: two lists of the same hits agree on whether there is a hit and on
/// the distance of the nearest one.
pub proof fn lemma_nearest_ignores_order(a: Seq<Option<u32>>, b: Seq<Option<u32>>)
    requires
        a.to_multiset() == b.to_multiset(),
    ensures
        any_hit(a) == any_hit(b),
        forall|i: int, j: int| is_nearest(a, i) && is_nearest(b, j) ==> a[i] == b[j],
{
    if any_hit(a) {
        let i = choose|i: int| 0 <= i < a.len() && (#[trigger] a[i]) is Some;
        lemma_listed_in(a, b, i);
    }
    if any_hit(b) {
        let j = choose|j: int| 0 <= j < b.len() && (#[trigger] b[j]) is Some;
        lemma_listed_in(b, a, j);
    }
    assert forall|i: int, j: int| is_nearest(a, i) && is_nearest(b, j) implies a[i] == b[j] by {
        // Each list holds the other's nearest hit, so neither is nearer.
        lemma_listed_in(a, b, i);
        lemma_listed_in(b, a, j);
    }
}

} // verus!
