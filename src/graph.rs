use vstd::prelude::*;

use crate::bits::{has_bit, rank};

verus! {

/// A node of an abstract octree-shaped graph: its child mask, and the indices
/// of its present children in increasing octant order.
pub type GNode = (u8, Seq<usize>);

/// The node reached from `n` by descending through the octants in `path`;
/// `None` where the path leaves the graph or meets an absent octant.
pub open spec fn follow(g: Seq<GNode>, n: int, path: Seq<int>) -> Option<int>
    decreases path.len(),
{
    if path.len() == 0 {
        if 0 <= n < g.len() {
            Some(n)
        } else {
            None
        }
    } else if 0 <= n < g.len() && has_bit(g[n].0, path[0]) && rank(g[n].0, path[0]) < g[n].1.len() {
        follow(g, g[n].1[rank(g[n].0, path[0]) as int] as int, path.drop_first())
    } else {
        None
    }
}

/// The child mask found at the end of `path` from `n`, if the path exists.
pub open spec fn mask_at(g: Seq<GNode>, n: int, path: Seq<int>) -> Option<u8> {
    match follow(g, n, path) {
        Some(m) => Some(g[m].0),
        None => None,
    }
}

/// Every child index names a node of the graph.
pub open spec fn closed(g: Seq<GNode>) -> bool {
    forall|k: int, t: int| 0 <= k < g.len() && 0 <= t < g[k].1.len() ==> #[trigger] g[k].1[t] < g.len()
}

/// `map` sends each node of `g` to a node of `h` with the same mask whose
/// children are the images of its children.
pub open spec fn mirrors(g: Seq<GNode>, h: Seq<GNode>, map: Seq<usize>) -> bool {
    &&& map.len() == g.len()
    &&& forall|k: int| 0 <= k < g.len() ==> #[trigger] map[k] < h.len()
    &&& forall|k: int| 0 <= k < g.len() ==> (#[trigger] h[map[k] as int]).0 == g[k].0
    &&& forall|k: int| 0 <= k < g.len() ==> (#[trigger] h[map[k] as int]).1.len() == g[k].1.len()
    &&& forall|k: int, t: int|
        0 <= k < g.len() && 0 <= t < g[k].1.len() ==> (#[trigger] h[map[k] as int].1[t]) == map[g[k].1[t] as int]
}

/// A graph that mirrors another through a map has the same expansion from
/// corresponding nodes: every path meets the same masks.
pub proof fn lemma_mirrored_expansion(g: Seq<GNode>, h: Seq<GNode>, map: Seq<usize>, n: int, path: Seq<int>)
    requires
        closed(g),
        mirrors(g, h, map),
        0 <= n < g.len(),
    ensures
        mask_at(g, n, path) == mask_at(h, map[n] as int, path),
    decreases path.len(),
{
    let m = map[n] as int;
    assert(h[m].0 == g[n].0);
    assert(h[m].1.len() == g[n].1.len());
    if path.len() > 0 {
        let j = path[0];
        if has_bit(g[n].0, j) && rank(g[n].0, j) < g[n].1.len() {
            let t = rank(g[n].0, j) as int;
            assert(h[m].1[t] == map[g[n].1[t] as int]);
            assert(g[n].1[t] < g.len());
            lemma_mirrored_expansion(g, h, map, g[n].1[t] as int, path.drop_first());
        }
    }
}

/// Some path leads from `root` to `k`.
pub open spec fn reaches(g: Seq<GNode>, root: int, k: int) -> bool {
    exists|path: Seq<int>| #[trigger] follow(g, root, path) == Some(k)
}

/// Every node of `g` is reached from `root` by some path.
pub open spec fn reachable(g: Seq<GNode>, root: int) -> bool {
    forall|k: int| 0 <= k < g.len() ==> #[trigger] reaches(g, root, k)
}

/// Following `p1` then `p2` is following their concatenation.
pub proof fn lemma_follow_concat(g: Seq<GNode>, a: int, p1: Seq<int>, p2: Seq<int>)
    ensures
        follow(g, a, p1 + p2) == match follow(g, a, p1) {
            Some(b) => follow(g, b, p2),
            None => None,
        },
    decreases p1.len(),
{
    if p1.len() > 0 {
        assert((p1 + p2).drop_first() =~= p1.drop_first() + p2);
        assert((p1 + p2)[0] == p1[0]);
        if 0 <= a < g.len() && has_bit(g[a].0, p1[0]) && rank(g[a].0, p1[0]) < g[a].1.len() {
            lemma_follow_concat(g, g[a].1[rank(g[a].0, p1[0]) as int] as int, p1.drop_first(), p2);
        }
    } else {
        assert(p1 + p2 =~= p2);
        if !(0 <= a < g.len()) && p2.len() > 0 {
            assert(follow(g, a, p2) is None);
        }
        if !(0 <= a < g.len()) && p2.len() == 0 {
            assert(follow(g, a, p2) is None);
        }
    }
}

/// Following a path in a mirror follows the image of the same path.
pub proof fn lemma_mirrored_follow(g: Seq<GNode>, h: Seq<GNode>, map: Seq<usize>, n: int, path: Seq<int>)
    requires
        closed(g),
        mirrors(g, h, map),
        0 <= n < g.len(),
    ensures
        match follow(g, n, path) {
            Some(x) => 0 <= x < g.len() && follow(h, map[n] as int, path) == Some(map[x] as int),
            None => follow(h, map[n] as int, path) is None,
        },
    decreases path.len(),
{
    let m = map[n] as int;
    assert(h[m].0 == g[n].0);
    assert(h[m].1.len() == g[n].1.len());
    if path.len() > 0 {
        let j = path[0];
        if has_bit(g[n].0, j) && rank(g[n].0, j) < g[n].1.len() {
            let t = rank(g[n].0, j) as int;
            assert(h[m].1[t] == map[g[n].1[t] as int]);
            assert(g[n].1[t] < g.len());
            lemma_mirrored_follow(g, h, map, g[n].1[t] as int, path.drop_first());
        }
    }
}

/// Some entry of `map` is `m`.
pub open spec fn is_image(map: Seq<usize>, m: int) -> bool {
    exists|x: int| 0 <= x < map.len() && #[trigger] map[x] == m
}

/// The image of a graph reachable from `root`, when every node of `h` is an
/// image, is reachable from the image of `root`.
pub proof fn lemma_image_reachable(g: Seq<GNode>, h: Seq<GNode>, map: Seq<usize>, root: int)
    requires
        closed(g),
        mirrors(g, h, map),
        0 <= root < g.len(),
        reachable(g, root),
        forall|m: int| 0 <= m < h.len() ==> #[trigger] is_image(map, m),
    ensures
        reachable(h, map[root] as int),
{
    assert forall|m: int| 0 <= m < h.len() implies #[trigger] reaches(h, map[root] as int, m) by {
        assert(is_image(map, m));
        let x = choose|x: int| 0 <= x < map.len() && #[trigger] map[x] == m;
        assert(reaches(g, root, x));
        let path = choose|path: Seq<int>| #[trigger] follow(g, root, path) == Some(x);
        lemma_mirrored_follow(g, h, map, root, path);
        assert(follow(h, map[root] as int, path) == Some(m));
    }
}

} // verus!
