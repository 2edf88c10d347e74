use vstd::prelude::*;

use crate::bits::{has_bit, lemma_empty_mask, lemma_full_mask, lemma_rank_inverse, popcount, rank};
use crate::graph::{GNode, closed, follow, is_image, lemma_follow_concat, reaches, lemma_image_reachable, mirrors, mask_at, lemma_mirrored_expansion, reachable};
use crate::octree::{Octant, Octree};

verus! {

/// A node of the canonical DAG: which octants are present, and the ids of
/// their nodes in increasing octant order.
#[derive(Debug)]
pub struct CanonicalNode {
    pub mask: u8,
    pub children: Vec<usize>,
}

/// The structural identity of each node.
pub open spec fn nodes_view(nodes: Seq<CanonicalNode>) -> Seq<GNode> {
    Seq::new(nodes.len(), |i: int| (nodes[i].mask, nodes[i].children@))
}

/// No two nodes of the graph have the same identity.
pub open spec fn distinct(g: Seq<GNode>) -> bool {
    forall|a: int, b: int| 0 <= a < g.len() && 0 <= b < g.len() && a != b ==> g[a] != g[b]
}

/// Every node lists one child per set bit of its mask, each with a smaller id.
pub open spec fn ordered_dag(g: Seq<GNode>) -> bool {
    forall|m: int|
        0 <= m < g.len() ==> {
            &&& popcount((#[trigger] g[m]).0) == g[m].1.len()
            &&& forall|t: int| 0 <= t < g[m].1.len() ==> #[trigger] g[m].1[t] < m
        }
}

/// A DAG of canonical nodes with a designated root.
pub struct Dag {
    pub nodes: Vec<CanonicalNode>,
    pub root: usize,
}

impl Dag {
    /// Structural identity of every node.
    pub open spec fn graph(&self) -> Seq<GNode> {
        nodes_view(self.nodes@)
    }

    /// The root exists; each node has one child per mask bit, each older than
    /// itself; every node is reached from the root.
    pub open spec fn well_formed(&self) -> bool {
        &&& self.root < self.nodes@.len()
        &&& ordered_dag(self.graph())
        &&& reachable(self.graph(), self.root as int)
    }

    /// Well formed, and no two nodes share an identity.
    pub open spec fn is_canonical(&self) -> bool {
        &&& self.well_formed()
        &&& distinct(self.graph())
    }

    pub fn node_count(&self) -> (r: usize)
        ensures
            r == self.nodes@.len(),
    {
        self.nodes.len()
    }
}

/// Some entry of `map` in `[lo, hi)` is `m`.
pub open spec fn made_in(map: Seq<usize>, lo: int, hi: int, m: int) -> bool {
    exists|x: int| lo <= x < hi && #[trigger] map[x] == m
}

/// Identity that compaction gives octant `k`, given the ids of its children.
pub open spec fn octant_image(os: Seq<Octant>, map: Seq<usize>, k: int) -> GNode {
    match os[k].first_child {
        Some(f) => (0xffu8, Seq::new(8, |j: int| map[f + j])),
        None => (0u8, Seq::empty()),
    }
}

/// Hash of a node identity into `nb` buckets.
pub open spec fn hash_upto(k: GNode, i: int, nb: int) -> int
    decreases i,
{
    if i <= 0 {
        k.0 as int % nb
    } else {
        (hash_upto(k, i - 1, nb) * 31 + k.1[i - 1] as int % nb) % nb
    }
}

pub open spec fn key_hash(k: GNode, nb: int) -> int {
    hash_upto(k, k.1.len() as int, nb)
}

/// Hash-consing table: the nodes made so far, and for each bucket a chain
/// through them from the newest to the oldest node of that bucket.
struct NodeTable {
    nodes: Vec<CanonicalNode>,
    heads: Vec<Option<usize>>,
    next: Vec<Option<usize>>,
}

impl NodeTable {
    spec fn view(&self) -> Seq<GNode> {
        nodes_view(self.nodes@)
    }

    spec fn buckets(&self) -> nat {
        self.heads@.len()
    }

    spec fn hash_of(&self, n: int) -> int {
        key_hash(self.view()[n], self.heads@.len() as int)
    }

    /// The chains hold every node exactly once, in the bucket of its hash,
    /// in decreasing order of id; no identity occurs twice.
    spec fn inv(&self) -> bool {
        let len = self.nodes@.len() as int;
        &&& self.heads@.len() >= 1
        &&& self.next@.len() == len
        &&& distinct(self.view())
        &&& forall|b: int|
            0 <= b < self.heads@.len() ==> match #[trigger] self.heads@[b] {
                None => forall|n: int| 0 <= n < len ==> #[trigger] self.hash_of(n) != b,
                Some(m) => {
                    &&& m < len
                    &&& self.hash_of(m as int) == b
                    &&& forall|n: int| m < n < len ==> #[trigger] self.hash_of(n) != b
                },
            }
        &&& forall|n: int|
            0 <= n < len ==> match #[trigger] self.next@[n] {
                None => forall|x: int| 0 <= x < n ==> #[trigger] self.hash_of(x) != self.hash_of(n),
                Some(m) => {
                    &&& m < n
                    &&& self.hash_of(m as int) == self.hash_of(n)
                    &&& forall|x: int| m < x < n ==> #[trigger] self.hash_of(x) != self.hash_of(n)
                },
            }
    }

    /// An empty table with `nb` buckets.
    fn new(nb: usize) -> (r: Self)
        requires
            nb >= 1,
        ensures
            r.inv(),
            distinct(r.view()),
            r.view().len() == 0,
            r.buckets() == nb,
    {
        let mut heads: Vec<Option<usize>> = Vec::new();
        let mut i: usize = 0;
        while i < nb
            invariant
                i <= nb,
                heads@.len() == i,
                forall|b: int| 0 <= b < i ==> heads@[b] is None,
            decreases nb - i,
        {
            heads.push(None);
            i = i + 1;
        }
        let r = NodeTable { nodes: Vec::new(), heads, next: Vec::new() };
        assert(r.view() =~= Seq::<GNode>::empty());
        r
    }

    /// Bucket of a node identity.
    fn hash_key(&self, mask: u8, children: &Vec<usize>) -> (h: usize)
        requires
            self.heads@.len() >= 1,
        ensures
            h == key_hash((mask, children@), self.heads@.len() as int),
            h < self.heads@.len(),
    {
        let nb = self.heads.len() as u128;
        let ghost k: GNode = (mask, children@);
        let mut h: u128 = mask as u128 % nb;
        let mut i: usize = 0;
        while i < children.len()
            invariant
                i <= children@.len(),
                nb == self.heads@.len(),
                nb >= 1,
                nb <= 0xffff_ffff_ffff_ffff,
                k == (mask, children@),
                h == hash_upto(k, i as int, nb as int),
                h < nb,
            decreases children@.len() - i,
        {
            h = (h * 31 + children[i] as u128 % nb) % nb;
            i = i + 1;
        }
        h as usize
    }

    /// The id of the node with identity `(mask, children)`, made if it is new.
    fn intern(&mut self, mask: u8, children: Vec<usize>) -> (r: usize)
        requires
            old(self).inv(),
        ensures
            final(self).inv(),
            distinct(final(self).view()),
            final(self).buckets() == old(self).buckets(),
            r < final(self).view().len(),
            final(self).view()[r as int] == (mask, children@),
            (r < old(self).view().len()) == (exists|n: int|
                0 <= n < old(self).view().len() && #[trigger] old(self).view()[n] == (mask, children@)),
            r < old(self).view().len() ==> final(self).view() == old(self).view(),
            r >= old(self).view().len() ==> final(self).view() == old(self).view().push((mask, children@)),
    {
        let ghost key: GNode = (mask, children@);
        let h = self.hash_key(mask, &children);
        let mut cur = self.heads[h];
        while cur.is_some()
            invariant
                self.inv(),
                key == (mask, children@),
                h == key_hash(key, self.heads@.len() as int),
                h < self.heads@.len(),
                match cur {
                    Some(c) => {
                        &&& c < self.nodes@.len()
                        &&& self.hash_of(c as int) == h
                        &&& forall|x: int| c < x < self.nodes@.len() && #[trigger] self.hash_of(x) == h ==> self.view()[x] != key
                    },
                    None => forall|x: int| 0 <= x < self.nodes@.len() && #[trigger] self.hash_of(x) == h ==> self.view()[x] != key,
                },
            decreases match cur {
                Some(c) => c + 1,
                None => 0,
            },
        {
            let c = cur.unwrap();
            if self.nodes[c].mask == mask && same_children(&self.nodes[c].children, &children) {
                assert(self.view()[c as int] =~= key);
                return c;
            }
            cur = self.next[c];
        }
        proof {
            assert forall|n: int| 0 <= n < self.view().len() implies self.view()[n] != key by {
                if self.hash_of(n) != h {
                    if self.view()[n] == key {
                        assert(self.hash_of(n) == key_hash(key, self.heads@.len() as int));
                    }
                }
            }
        }
        let ghost old_view = self.view();
        let ghost t0 = *self;
        let id = self.nodes.len();
        let prev = self.heads[h];
        self.nodes.push(CanonicalNode { mask, children });
        self.next.push(prev);
        self.heads.set(h, Some(id));
        proof {
            assert(self.view() =~= old_view.push(key));
            assert(self.hash_of(id as int) == h);
            assert forall|n: int| 0 <= n < id implies #[trigger] self.hash_of(n) == t0.hash_of(n) by {}
            let len = self.nodes@.len() as int;
            assert forall|b: int| 0 <= b < self.heads@.len() implies match #[trigger] self.heads@[b] {
                None => forall|n: int| 0 <= n < len ==> #[trigger] self.hash_of(n) != b,
                Some(m) => {
                    &&& m < len
                    &&& self.hash_of(m as int) == b
                    &&& forall|n: int| m < n < len ==> #[trigger] self.hash_of(n) != b
                },
            } by {
                if b != h {
                    assert(self.heads@[b] == t0.heads@[b]);
                    match t0.heads@[b] {
                        None => {
                            assert forall|n: int| 0 <= n < len implies #[trigger] self.hash_of(n) != b by {
                                if n < id {
                                    assert(t0.hash_of(n) != b);
                                }
                            }
                        },
                        Some(m) => {
                            assert forall|n: int| m < n < len implies #[trigger] self.hash_of(n) != b by {
                                if n < id {
                                    assert(t0.hash_of(n) != b);
                                }
                            }
                        },
                    }
                }
            }
            assert forall|n: int| 0 <= n < len implies match #[trigger] self.next@[n] {
                None => forall|x: int| 0 <= x < n ==> #[trigger] self.hash_of(x) != self.hash_of(n),
                Some(m) => {
                    &&& m < n
                    &&& self.hash_of(m as int) == self.hash_of(n)
                    &&& forall|x: int| m < x < n ==> #[trigger] self.hash_of(x) != self.hash_of(n)
                },
            } by {
                if n < id {
                    assert(self.next@[n] == t0.next@[n]);
                    match t0.next@[n] {
                        None => {
                            assert forall|x: int| 0 <= x < n implies #[trigger] self.hash_of(x) != self.hash_of(n) by {
                                assert(t0.hash_of(x) != t0.hash_of(n));
                            }
                        },
                        Some(m) => {
                            assert forall|x: int| m < x < n implies #[trigger] self.hash_of(x) != self.hash_of(n) by {
                                assert(t0.hash_of(x) != t0.hash_of(n));
                            }
                        },
                    }
                } else {
                    assert(self.next@[n] == prev);
                    match prev {
                        None => {
                            assert forall|x: int| 0 <= x < n implies #[trigger] self.hash_of(x) != self.hash_of(n) by {
                                assert(t0.hash_of(x) != h);
                            }
                        },
                        Some(m) => {
                            assert forall|x: int| m < x < n implies #[trigger] self.hash_of(x) != self.hash_of(n) by {
                                assert(t0.hash_of(x) != h);
                            }
                        },
                    }
                }
            }
            assert forall|a: int, b: int| 0 <= a < len && 0 <= b < len && a != b implies self.view()[a] != self.view()[b] by {
                if a < id && b < id {
                    assert(old_view[a] != old_view[b]);
                } else if a == id {
                    assert(old_view[b] != key);
                } else {
                    assert(old_view[a] != key);
                }
            }
        }
        id
    }
}

/// Whether two child lists are equal.
fn same_children(a: &Vec<usize>, b: &Vec<usize>) -> (r: bool)
    ensures
        r == (a@ == b@),
{
    if a.len() != b.len() {
        return false;
    }
    let mut i: usize = 0;
    while i < a.len()
        invariant
            i <= a@.len(),
            a@.len() == b@.len(),
            forall|t: int| 0 <= t < i ==> a@[t] == b@[t],
        decreases a@.len() - i,
    {
        if a[i] != b[i] {
            return false;
        }
        i = i + 1;
    }
    assert(a@ =~= b@);
    true
}

/// Collapses the octree's structurally identical subtrees bottom up (deepest
/// nodes first), hash-consing each node on its mask and its children's ids.
/// Also returns the canonical id given to each octant.
pub fn compact_indexed(octree: &Octree) -> (r: (Dag, Vec<usize>))
    requires
        octree.well_formed(),
    ensures
        r.0.is_canonical(),
        mirrors(octree.graph(), r.0.graph(), r.1@),
        r.0.root == r.1@[0],
        forall|path: Seq<int>| #[trigger] mask_at(octree.graph(), 0, path) == mask_at(r.0.graph(), r.0.root as int, path),
        r.0.nodes@.len() <= octree.octants@.len(),
        octree.has_two_leaves() ==> r.0.nodes@.len() < octree.octants@.len(),
{
    let ghost os = octree.octants@;
    let n = octree.octants.len();
    let mut table = NodeTable::new(n);
    let mut map: Vec<usize> = Vec::new();
    let mut k: usize = 0;
    while k < n
        invariant
            k <= n,
            map@.len() == k,
        decreases n - k,
    {
        map.push(0);
        k = k + 1;
    }
    let ghost mut merged = false;
    let mut i = n;
    proof {
        lemma_full_mask(8);
        lemma_empty_mask(8);
    }
    while i > 0
        invariant
            i <= n,
            n == os.len(),
            os == octree.octants@,
            octree.well_formed(),
            table.inv(),
            distinct(table.view()),
            ordered_dag(table.view()),
            map@.len() == n,
            crate::bits::popcount(0xff) == 8,
            crate::bits::popcount(0) == 0,
            forall|x: int| i <= x < n ==> #[trigger] map@[x] < table.view().len(),
            forall|x: int| i <= x < n ==> table.view()[#[trigger] map@[x] as int] == octant_image(os, map@, x),
            table.view().len() + (if merged { 1int } else { 0int }) <= n - i,
            forall|m: int| 0 <= m < table.view().len() ==> #[trigger] made_in(map@, i as int, n as int, m),
            forall|a: int, b: int|
                i <= a < n && i <= b < n && a != b && (#[trigger] os[a]).first_child is None && (#[trigger] os[b]).first_child is None
                    ==> merged,
        decreases i,
    {
        i = i - 1;
        let o = octree.octants[i];
        assert(os[i as int] == o);
        let ghost before = table.view();
        let ghost map0 = map@;
        let id = match o.first_child {
            Some(f) => {
                let mut ch: Vec<usize> = Vec::new();
                let mut j: usize = 0;
                while j < 8
                    invariant
                        j <= 8,
                        i < f,
                        f + 8 <= n,
                        map@ == map0,
                        map@.len() == n,
                        ch@.len() == j,
                        forall|t: int| 0 <= t < j ==> ch@[t] == map@[f + t],
                    decreases 8 - j,
                {
                    ch.push(map[f + j]);
                    j = j + 1;
                }
                assert(ch@ =~= Seq::new(8, |j: int| map0[f + j]));
                table.intern(0xff, ch)
            },
            None => {
                let none: Vec<usize> = Vec::new();
                assert(none@ =~= Seq::<usize>::empty());
                table.intern(0, none)
            },
        };
        proof {
            if id < before.len() {
                merged = true;
            } else {
                assert(table.view() == before.push(octant_image(os, map0, i as int)));
                assert forall|m: int| 0 <= m < table.view().len() implies {
                    &&& popcount((#[trigger] table.view()[m]).0) == table.view()[m].1.len()
                    &&& forall|t: int| 0 <= t < table.view()[m].1.len() ==> #[trigger] table.view()[m].1[t] < m
                } by {
                    if m < before.len() {
                        assert(table.view()[m] == before[m]);
                    } else {
                        match o.first_child {
                            Some(f) => {
                                assert forall|t: int| 0 <= t < table.view()[m].1.len() implies #[trigger] table.view()[m].1[t] < m by {
                                    assert(map0[f + t] < before.len());
                                }
                            },
                            None => {},
                        }
                    }
                }
            }
            if o.first_child is None {
                assert forall|a: int, b: int|
                    i <= a < n && i <= b < n && a != b && (#[trigger] os[a]).first_child is None && (#[trigger] os[b]).first_child is None
                    implies merged by {
                    if a != i && b != i {
                    } else {
                        let other = if a == i { b } else { a };
                        assert(before[map0[other] as int] == octant_image(os, map0, other));
                        assert(before[map0[other] as int] == (0u8, Seq::<usize>::empty()));
                    }
                }
            }
        }
        map.set(i, id);
        proof {
            assert forall|m: int| 0 <= m < table.view().len() implies #[trigger] made_in(map@, i as int, n as int, m) by {
                if m == id {
                    assert(map@[i as int] == m);
                } else {
                    assert(made_in(map0, i + 1, n as int, m));
                    let x = choose|x: int| i + 1 <= x < n && #[trigger] map0[x] == m;
                    assert(map@[x] == m);
                }
            }
            assert forall|x: int| i <= x < n implies table.view()[#[trigger] map@[x] as int] == octant_image(os, map@, x) by {
                if x > i {
                    assert(before[map0[x] as int] == octant_image(os, map0, x));
                    match os[x].first_child {
                        Some(f) => {
                            assert(octant_image(os, map@, x) =~= octant_image(os, map0, x));
                        },
                        None => {},
                    }
                } else {
                    match os[x].first_child {
                        Some(f) => {
                            assert(octant_image(os, map@, x) =~= octant_image(os, map0, x));
                        },
                        None => {},
                    }
                }
            }
        }
    }
    let root = map[0];
    let dag = Dag { nodes: table.nodes, root };
    proof {
        let g = octree.graph();
        let h = dag.graph();
        assert(h == table.view());
        octree.lemma_graph_closed();
        assert forall|k: int, t: int| 0 <= k < g.len() && 0 <= t < g[k].1.len()
            implies (#[trigger] h[map@[k] as int].1[t]) == map@[g[k].1[t] as int] by {
            assert(h[map@[k] as int] == octant_image(os, map@, k));
        }
        assert forall|k: int| 0 <= k < g.len() implies (#[trigger] h[map@[k] as int]).0 == g[k].0
            && h[map@[k] as int].1.len() == g[k].1.len() by {
            assert(h[map@[k] as int] == octant_image(os, map@, k));
        }
        assert(mirrors(g, h, map@));
        assert forall|m: int| 0 <= m < h.len() implies #[trigger] is_image(map@, m) by {
            assert(made_in(map@, 0, n as int, m));
        }
        octree.lemma_reachable();
        lemma_image_reachable(g, h, map@, 0);
        assert forall|path: Seq<int>| #[trigger] mask_at(g, 0, path) == mask_at(h, root as int, path) by {
            lemma_mirrored_expansion(g, h, map@, 0, path);
        }
        if octree.has_two_leaves() {
            let (a, b) = choose|a: int, b: int|
                0 <= a < os.len() && 0 <= b < os.len() && a != b
                    && (#[trigger] os[a]).first_child is None && (#[trigger] os[b]).first_child is None;
            assert(merged);
        }
    }
    (dag, map)
}

/// Collapses the octree's structurally identical subtrees into a canonical DAG
/// whose expansion from the root is the octree.
pub fn compact(octree: &Octree) -> (r: Dag)
    requires
        octree.well_formed(),
    ensures
        r.is_canonical(),
        forall|path: Seq<int>| #[trigger] mask_at(octree.graph(), 0, path) == mask_at(r.graph(), r.root as int, path),
        r.nodes@.len() <= octree.octants@.len(),
        octree.has_two_leaves() ==> r.nodes@.len() < octree.octants@.len(),
{
    let (dag, _ids) = compact_indexed(octree);
    dag
}

/// In an ordered DAG, descending never reaches a larger id.
pub proof fn lemma_follow_descends(g: Seq<GNode>, a: int, path: Seq<int>)
    requires
        ordered_dag(g),
    ensures
        follow(g, a, path) matches Some(k) ==> k <= a,
    decreases path.len(),
{
    if path.len() > 0 && 0 <= a < g.len() && has_bit(g[a].0, path[0]) && rank(g[a].0, path[0]) < g[a].1.len() {
        let t = rank(g[a].0, path[0]) as int;
        assert(g[a].1[t] < a);
        lemma_follow_descends(g, g[a].1[t] as int, path.drop_first());
    }
}

/// The root of a well-formed DAG is its newest node.
pub proof fn lemma_root_is_last(dag: &Dag)
    requires
        dag.well_formed(),
    ensures
        dag.root == dag.nodes@.len() - 1,
{
    let g = dag.graph();
    let k = g.len() - 1;
    assert(crate::graph::reaches(g, dag.root as int, k));
    let path = choose|path: Seq<int>| #[trigger] follow(g, dag.root as int, path) == Some(k);
    lemma_follow_descends(g, dag.root as int, path);
}

/// Children of a node of an ordered DAG are nodes of the DAG.
pub proof fn lemma_ordered_closed(g: Seq<GNode>)
    requires
        ordered_dag(g),
    ensures
        closed(g),
{
    assert forall|k: int, t: int| 0 <= k < g.len() && 0 <= t < g[k].1.len() implies #[trigger] g[k].1[t] < g.len() by {
        assert(g[k].1[t] < k);
    }
}

/// In a canonical DAG, two nodes with the same expansion are the same node.
pub proof fn lemma_canonical_unique(g: Seq<GNode>, a: int, b: int)
    requires
        ordered_dag(g),
        distinct(g),
        0 <= a < g.len(),
        0 <= b < g.len(),
        forall|path: Seq<int>| #[trigger] mask_at(g, a, path) == mask_at(g, b, path),
    ensures
        a == b,
    decreases a + b,
{
    let e = Seq::<int>::empty();
    assert(mask_at(g, a, e) == mask_at(g, b, e));
    let mask = g[a].0;
    assert(g[b].0 == mask);
    assert(popcount(g[a].0) == g[a].1.len());
    assert(popcount(g[b].0) == g[b].1.len());
    assert forall|t: int| 0 <= t < g[a].1.len() implies g[a].1[t] == g[b].1[t] by {
        lemma_rank_inverse(mask, 8, t);
        let j = choose|j: int| 0 <= j < 8 && has_bit(mask, j) && #[trigger] rank(mask, j) == t;
        let ca = g[a].1[t] as int;
        let cb = g[b].1[t] as int;
        assert(ca < a && cb < b);
        assert forall|p: Seq<int>| #[trigger] mask_at(g, ca, p) == mask_at(g, cb, p) by {
            let path = seq![j].add(p);
            assert(path.drop_first() =~= p);
            assert(path[0] == j);
            assert(follow(g, a, path) == follow(g, ca, p));
            assert(follow(g, b, path) == follow(g, cb, p));
            assert(mask_at(g, a, path) == mask_at(g, b, path));
        }
        lemma_canonical_unique(g, ca, cb);
    }
    assert(g[a].1 =~= g[b].1);
}

/// Compaction gives structurally identical subtrees of the octree (the same
/// masks along every path) the same canonical id.
pub proof fn lemma_same_structure_same_id(octree: &Octree, dag: &Dag, ids: Seq<usize>, i: int, k: int)
    requires
        octree.well_formed(),
        dag.is_canonical(),
        mirrors(octree.graph(), dag.graph(), ids),
        0 <= i < octree.octants@.len(),
        0 <= k < octree.octants@.len(),
        forall|path: Seq<int>| #[trigger] mask_at(octree.graph(), i, path) == mask_at(octree.graph(), k, path),
    ensures
        ids[i] == ids[k],
{
    octree.lemma_graph_closed();
    assert forall|path: Seq<int>| #[trigger] mask_at(dag.graph(), ids[i] as int, path) == mask_at(dag.graph(), ids[k] as int, path) by {
        lemma_mirrored_expansion(octree.graph(), dag.graph(), ids, i, path);
        lemma_mirrored_expansion(octree.graph(), dag.graph(), ids, k, path);
        assert(mask_at(octree.graph(), i, path) == mask_at(octree.graph(), k, path));
    }
    lemma_canonical_unique(dag.graph(), ids[i] as int, ids[k] as int);
}

/// Identity of node `x` of `g` once its children are renamed through `map`.
pub open spec fn renamed(g: Seq<GNode>, map: Seq<usize>, x: int) -> GNode {
    (g[x].0, Seq::new(g[x].1.len(), |t: int| map[g[x].1[t] as int]))
}

impl Dag {
    /// Compacts this DAG again: hash-conses its nodes, oldest first. The
    /// result expands to the same tree, and a DAG that is already canonical
    /// comes back node for node.
    pub fn recompact(&self) -> (r: Dag)
        requires
            self.well_formed(),
        ensures
            r.is_canonical(),
            forall|path: Seq<int>| #[trigger] mask_at(r.graph(), r.root as int, path) == mask_at(self.graph(), self.root as int, path),
            r.nodes@.len() <= self.nodes@.len(),
            self.is_canonical() ==> r.graph() == self.graph() && r.root == self.root,
    {
        let ghost g = self.graph();
        let n = self.nodes.len();
        let mut table = NodeTable::new(if n == 0 { 1 } else { n });
        let mut map: Vec<usize> = Vec::new();
        let mut k: usize = 0;
        while k < n
            invariant
                k <= n,
                n == g.len(),
                g == self.graph(),
                self.well_formed(),
                table.inv(),
                distinct(table.view()),
                ordered_dag(table.view()),
                map@.len() == k,
                table.view().len() <= k,
                forall|x: int| 0 <= x < k ==> #[trigger] map@[x] < table.view().len(),
                forall|x: int| 0 <= x < k ==> table.view()[#[trigger] map@[x] as int] == renamed(g, map@, x),
                self.is_canonical() ==> table.view() == g.take(k as int),
                self.is_canonical() ==> forall|x: int| 0 <= x < k ==> #[trigger] map@[x] == x,
                forall|m: int| 0 <= m < table.view().len() ==> #[trigger] made_in(map@, 0, k as int, m),
            decreases n - k,
        {
            let node = &self.nodes[k];
            assert(g[k as int] == (node.mask, node.children@));
            let mut ch: Vec<usize> = Vec::new();
            let mut t: usize = 0;
            while t < node.children.len()
                invariant
                    t <= node.children@.len(),
                    g[k as int] == (node.mask, node.children@),
                    ordered_dag(g),
                    k < n == g.len(),
                    map@.len() == k,
                    ch@.len() == t,
                    forall|u: int| 0 <= u < t ==> ch@[u] == map@[node.children@[u] as int],
                decreases node.children@.len() - t,
            {
                assert(node.children@[t as int] < k);
                ch.push(map[node.children[t]]);
                t = t + 1;
            }
            let ghost key = renamed(g, map@, k as int);
            assert(ch@ =~= key.1);
            let ghost before = table.view();
            let ghost map0 = map@;
            proof {
                if self.is_canonical() {
                    assert(key.1 =~= g[k as int].1);
                    assert forall|x: int| 0 <= x < before.len() implies before[x] != key by {
                        assert(before[x] == g[x]);
                    }
                }
            }
            let id = table.intern(node.mask, ch);
            map.push(id);
            proof {
                assert forall|m: int| 0 <= m < table.view().len() implies #[trigger] made_in(map@, 0, k + 1, m) by {
                    if m == id {
                        assert(map@[k as int] == m);
                    } else {
                        assert(made_in(map0, 0, k as int, m));
                        let x = choose|x: int| 0 <= x < k && #[trigger] map0[x] == m;
                        assert(map@[x] == m);
                    }
                }
                if id >= before.len() {
                    assert forall|m: int| 0 <= m < table.view().len() implies {
                        &&& popcount((#[trigger] table.view()[m]).0) == table.view()[m].1.len()
                        &&& forall|t: int| 0 <= t < table.view()[m].1.len() ==> #[trigger] table.view()[m].1[t] < m
                    } by {
                        if m < before.len() {
                            assert(table.view()[m] == before[m]);
                        } else {
                            assert forall|u: int| 0 <= u < table.view()[m].1.len() implies #[trigger] table.view()[m].1[u] < m by {
                                assert(g[k as int].1[u] < k);
                                assert(map0[g[k as int].1[u] as int] < before.len());
                            }
                        }
                    }
                }
                assert forall|x: int| 0 <= x <= k implies table.view()[#[trigger] map@[x] as int] == renamed(g, map@, x) by {
                    if x < k {
                        assert(before[map0[x] as int] == renamed(g, map0, x));
                        assert forall|u: int| 0 <= u < g[x].1.len() implies g[x].1[u] < x by {}
                        assert(renamed(g, map@, x) =~= renamed(g, map0, x));
                    } else {
                        assert forall|u: int| 0 <= u < g[x].1.len() implies g[x].1[u] < x by {}
                        assert(renamed(g, map@, x) =~= renamed(g, map0, x));
                    }
                }
                if self.is_canonical() {
                    assert(table.view() =~= g.take(k + 1));
                }
            }
            k = k + 1;
        }
        let root = map[self.root];
        let r = Dag { nodes: table.nodes, root };
        proof {
            let h = r.graph();
            assert(h == table.view());
            lemma_ordered_closed(g);
            assert forall|x: int, t: int| 0 <= x < g.len() && 0 <= t < g[x].1.len()
                implies (#[trigger] h[map@[x] as int].1[t]) == map@[g[x].1[t] as int] by {
                assert(h[map@[x] as int] == renamed(g, map@, x));
            }
            assert forall|x: int| 0 <= x < g.len() implies (#[trigger] h[map@[x] as int]).0 == g[x].0
                && h[map@[x] as int].1.len() == g[x].1.len() by {
                assert(h[map@[x] as int] == renamed(g, map@, x));
            }
            assert(mirrors(g, h, map@));
            assert forall|m: int| 0 <= m < h.len() implies #[trigger] is_image(map@, m) by {
                assert(made_in(map@, 0, n as int, m));
            }
            lemma_image_reachable(g, h, map@, self.root as int);
            assert forall|path: Seq<int>| #[trigger] mask_at(h, root as int, path) == mask_at(g, self.root as int, path) by {
                lemma_mirrored_expansion(g, h, map@, self.root as int, path);
            }
            if self.is_canonical() {
                assert(g.take(n as int) =~= g);
            }
        }
        r
    }
}

proof fn lemma_follow_in_range(g: Seq<GNode>, a: int, path: Seq<int>)
    ensures
        follow(g, a, path) matches Some(k) ==> 0 <= k < g.len(),
    decreases path.len(),
{
    if path.len() > 0 && 0 <= a < g.len() && has_bit(g[a].0, path[0]) && rank(g[a].0, path[0]) < g[a].1.len() {
        lemma_follow_in_range(g, g[a].1[rank(g[a].0, path[0]) as int] as int, path.drop_first());
    }
}

/// The node of `g2` found by following, from `r2`, a path that leads from
/// `r1` to `a` in `g1`.
pub open spec fn relabel(g1: Seq<GNode>, r1: int, g2: Seq<GNode>, r2: int, a: int) -> int {
    let path = choose|path: Seq<int>| #[trigger] follow(g1, r1, path) == Some(a);
    match follow(g2, r2, path) {
        Some(b) => b,
        None => -1,
    }
}

proof fn lemma_relabel(g1: Seq<GNode>, r1: int, g2: Seq<GNode>, r2: int, a: int)
    requires
        reachable(g1, r1),
        0 <= a < g1.len(),
        forall|path: Seq<int>| #[trigger] mask_at(g1, r1, path) == mask_at(g2, r2, path),
    ensures
        0 <= relabel(g1, r1, g2, r2, a) < g2.len(),
        forall|q: Seq<int>| #[trigger] mask_at(g1, a, q) == mask_at(g2, relabel(g1, r1, g2, r2, a), q),
{
    assert(reaches(g1, r1, a));
    let path = choose|path: Seq<int>| #[trigger] follow(g1, r1, path) == Some(a);
    assert(mask_at(g1, r1, path) == mask_at(g2, r2, path));
    let b = follow(g2, r2, path).unwrap();
    lemma_follow_in_range(g2, r2, path);
    assert forall|q: Seq<int>| #[trigger] mask_at(g1, a, q) == mask_at(g2, b, q) by {
        lemma_follow_concat(g1, r1, path, q);
        lemma_follow_concat(g2, r2, path, q);
        assert(mask_at(g1, r1, path + q) == mask_at(g2, r2, path + q));
    }
}

proof fn lemma_size_le(g1: Seq<GNode>, r1: int, g2: Seq<GNode>, r2: int)
    requires
        ordered_dag(g1),
        distinct(g1),
        reachable(g1, r1),
        forall|path: Seq<int>| #[trigger] mask_at(g1, r1, path) == mask_at(g2, r2, path),
    ensures
        g1.len() <= g2.len(),
{
    let f = |a: int| relabel(g1, r1, g2, r2, a);
    let x = vstd::set_lib::set_int_range(0, g1.len() as int);
    let y = vstd::set_lib::set_int_range(0, g2.len() as int);
    vstd::set_lib::lemma_int_range(0, g1.len() as int);
    vstd::set_lib::lemma_int_range(0, g2.len() as int);
    assert forall|a: int, b: int| x.contains(a) && x.contains(b) && #[trigger] f(a) == #[trigger] f(b) implies a == b by {
        lemma_relabel(g1, r1, g2, r2, a);
        lemma_relabel(g1, r1, g2, r2, b);
        assert forall|q: Seq<int>| #[trigger] mask_at(g1, a, q) == mask_at(g1, b, q) by {
            assert(mask_at(g1, a, q) == mask_at(g2, f(a), q));
            assert(mask_at(g1, b, q) == mask_at(g2, f(b), q));
        }
        lemma_canonical_unique(g1, a, b);
    }
    assert(vstd::relations::injective_on(f, x));
    vstd::set_lib::lemma_map_size(x, x.map(f), f);
    assert forall|b: int| x.map(f).contains(b) implies y.contains(b) by {
        let a = choose|a: int| x.contains(a) && f(a) == b;
        lemma_relabel(g1, r1, g2, r2, a);
    }
    vstd::set_lib::lemma_len_subset(x.map(f), y);
}

/// `relabel` over all nodes of `g1`.
pub open spec fn relabeling(g1: Seq<GNode>, r1: int, g2: Seq<GNode>, r2: int) -> Seq<usize> {
    Seq::new(g1.len(), |a: int| relabel(g1, r1, g2, r2, a) as usize)
}

/// Two canonical DAGs with the same expansion from their roots are the same
/// DAG up to numbering: they have the same number of nodes, and `relabeling`
/// sends the first root to the second and each node to one with the same mask
/// whose children are the images of its children.
pub proof fn lemma_same_expansion_same_size(d1: &Dag, d2: &Dag)
    requires
        d1.is_canonical(),
        d2.is_canonical(),
        d2.nodes@.len() <= usize::MAX,
        forall|path: Seq<int>| #[trigger] mask_at(d1.graph(), d1.root as int, path) == mask_at(d2.graph(), d2.root as int, path),
    ensures
        d1.nodes@.len() == d2.nodes@.len(),
        forall|a: int| 0 <= a < d1.nodes@.len() ==> {
            &&& 0 <= #[trigger] relabel(d1.graph(), d1.root as int, d2.graph(), d2.root as int, a) < d2.nodes@.len()
            &&& forall|q: Seq<int>| #[trigger] mask_at(d1.graph(), a, q) == mask_at(
                d2.graph(),
                relabel(d1.graph(), d1.root as int, d2.graph(), d2.root as int, a),
                q,
            )
        },
        mirrors(d1.graph(), d2.graph(), relabeling(d1.graph(), d1.root as int, d2.graph(), d2.root as int)),
        relabeling(d1.graph(), d1.root as int, d2.graph(), d2.root as int)[d1.root as int] == d2.root,
{
    let g1 = d1.graph();
    let g2 = d2.graph();
    let r1 = d1.root as int;
    let r2 = d2.root as int;
    let f = relabeling(g1, r1, g2, r2);
    lemma_size_le(g1, d1.root as int, g2, d2.root as int);
    lemma_size_le(g2, d2.root as int, g1, d1.root as int);
    assert forall|a: int| 0 <= a < d1.nodes@.len() implies {
        &&& 0 <= #[trigger] relabel(g1, d1.root as int, g2, d2.root as int, a) < d2.nodes@.len()
        &&& forall|q: Seq<int>| #[trigger] mask_at(g1, a, q) == mask_at(g2, relabel(g1, d1.root as int, g2, d2.root as int, a), q)
    } by {
        lemma_relabel(g1, d1.root as int, g2, d2.root as int, a);
    }
    assert forall|k: int| 0 <= k < g1.len() implies {
        &&& #[trigger] f[k] < g2.len()
        &&& g2[f[k] as int].0 == g1[k].0
        &&& g2[f[k] as int].1.len() == g1[k].1.len()
        &&& forall|t: int| 0 <= t < g1[k].1.len() ==> (#[trigger] g2[f[k] as int].1[t]) == f[g1[k].1[t] as int]
    } by {
        lemma_relabel(g1, r1, g2, r2, k);
        let b = relabel(g1, r1, g2, r2, k);
        assert(f[k] as int == b);
        let e = Seq::<int>::empty();
        assert(mask_at(g1, k, e) == mask_at(g2, b, e));
        assert(popcount(g1[k].0) == g1[k].1.len());
        assert(popcount(g2[b].0) == g2[b].1.len());
        assert forall|t: int| 0 <= t < g1[k].1.len() implies (#[trigger] g2[f[k] as int].1[t]) == f[g1[k].1[t] as int] by {
            let mask = g1[k].0;
            lemma_rank_inverse(mask, 8, t);
            let j = choose|j: int| 0 <= j < 8 && has_bit(mask, j) && #[trigger] rank(mask, j) == t;
            let c1 = g1[k].1[t] as int;
            let c2 = g2[b].1[t] as int;
            assert(c1 < k);
            lemma_relabel(g1, r1, g2, r2, c1);
            assert(f[c1] as int == relabel(g1, r1, g2, r2, c1));
            let step = seq![j];
            assert(step.drop_first() =~= Seq::<int>::empty());
            assert(follow(g1, k, step) == follow(g1, c1, e));
            assert(follow(g2, b, step) == follow(g2, c2, e));
            assert(c2 < b);
            assert forall|q: Seq<int>| #[trigger] mask_at(g2, c2, q) == mask_at(g2, relabel(g1, r1, g2, r2, c1), q) by {
                lemma_follow_concat(g1, k, step, q);
                lemma_follow_concat(g2, b, step, q);
                assert(mask_at(g1, k, step + q) == mask_at(g2, b, step + q));
                assert(mask_at(g1, c1, q) == mask_at(g2, relabel(g1, r1, g2, r2, c1), q));
            }
            lemma_canonical_unique(g2, c2, relabel(g1, r1, g2, r2, c1));
        }
    }
    assert(mirrors(g1, g2, f));
    lemma_relabel(g1, r1, g2, r2, r1);
    assert forall|q: Seq<int>| #[trigger] mask_at(g2, r2, q) == mask_at(g2, relabel(g1, r1, g2, r2, r1), q) by {
        assert(mask_at(g1, r1, q) == mask_at(g2, r2, q));
    }
    lemma_canonical_unique(g2, r2, relabel(g1, r1, g2, r2, r1));
}

} // verus!
