use vstd::prelude::*;

use crate::bits::{
    has_bit, lemma_empty_mask, lemma_popcount_zero, lemma_rank_below_popcount, lemma_rank_inverse,
    lemma_rank_is_masked_popcount, lemma_rank_le, popcount, rank,
};
use crate::dag::{Dag, lemma_root_is_last};
use crate::graph::{
    GNode, closed, follow, lemma_follow_concat, lemma_mirrored_expansion, lemma_mirrored_follow, mask_at, mirrors, reaches,
};

verus! {

/// One record of the GPU buffer: the child mask in the low eight bits, and the
/// slot of the first present child. The child in octant `i` (bit `i` set) sits
/// at `child` plus the number of set bits below bit `i`. A leaf has mask 0 and
/// `child` 0.
#[derive(Clone, Copy, Debug, PartialEq, Eq, Structural)]
pub struct Node {
    pub childmask: u32,
    pub child: u32,
}

impl Node {
    pub fn new(childmask: u32, child: u32) -> (r: Self)
        ensures
            r.childmask == childmask,
            r.child == child,
    {
        Node { childmask, child }
    }

    /// The two words of the record, mask first.
    pub fn get_raw(&self) -> (r: (u32, u32))
        ensures
            r == (self.childmask, self.child),
    {
        (self.childmask, self.child)
    }
}

/// The tree that a buffer describes under the decoding rule.
pub open spec fn buffer_graph(recs: Seq<Node>) -> Seq<GNode> {
    Seq::new(
        recs.len(),
        |s: int|
            (
                recs[s].childmask as u8,
                Seq::new(popcount(recs[s].childmask as u8), |t: int| (recs[s].child + t) as usize),
            ),
    )
}

/// First slot of the run of node `m`'s children: slot 0 holds the root,
/// then come the runs of the nodes from the newest down to the oldest, so
/// the run of `m` follows those of all nodes newer than `m`.
/// `runs_above(g, -1)` is the length of the whole buffer.
pub open spec fn runs_above(g: Seq<GNode>, m: int) -> int
    decreases (if m + 1 < g.len() { g.len() - m } else { 0 }),
{
    if m + 1 >= g.len() {
        1
    } else {
        runs_above(g, m + 1) + g[m + 1].1.len()
    }
}

/// The record of node `c`: its mask, and the start of its run (0 for a leaf).
pub open spec fn rec_of(g: Seq<GNode>, c: int) -> Node {
    Node {
        childmask: g[c].0 as u32,
        child: if g[c].1.len() == 0 { 0 } else { runs_above(g, c) as u32 },
    }
}

/// The exact buffer for a DAG: the root's record at slot 0, and at slot
/// `runs_above(g, m) + t` the record of the `t`-th child of node `m`.
pub open spec fn layout(g: Seq<GNode>, root: int, recs: Seq<Node>) -> bool {
    &&& recs.len() == runs_above(g, -1)
    &&& recs[0] == rec_of(g, root)
    &&& forall|m: int, t: int|
        0 <= m < g.len() && 0 <= t < g[m].1.len() ==> #[trigger] recs[runs_above(g, m) + t] == rec_of(g, g[m].1[t] as int)
}

proof fn lemma_runs_grow(g: Seq<GNode>, a: int, b: int)
    requires
        -1 <= a < b < g.len(),
    ensures
        runs_above(g, a) >= runs_above(g, b) + g[b].1.len(),
    decreases b - a,
{
    if a + 1 < b {
        lemma_runs_grow(g, a + 1, b);
    }
}

proof fn lemma_runs_bound(g: Seq<GNode>, m: int)
    requires
        -1 <= m < g.len(),
        forall|x: int| 0 <= x < g.len() ==> (#[trigger] g[x]).1.len() <= 8,
    ensures
        1 <= runs_above(g, m) <= 1 + 8 * (g.len() - 1 - m),
    decreases g.len() - m,
{
    if m + 1 < g.len() {
        lemma_runs_bound(g, m + 1);
        assert(g[m + 1].1.len() <= 8);
    }
}

/// Lays the DAG out as GPU records. Slot 0 is the root; each node with
/// children owns one contiguous run holding one record per child in octant
/// order, and every record of that node points at the run. Runs are placed
/// from the newest node down to the oldest, so every parent's run comes
/// before its children's; for a compacted octree, whose ids are handed out
/// deepest level first, this is level order from the root.
pub fn encode(dag: &Dag) -> (r: Vec<Node>)
    requires
        dag.well_formed(),
        dag.nodes@.len() <= 0x0fff_ffff,
    ensures
        layout(dag.graph(), dag.root as int, r@),
        1 <= r@.len() <= 1 + 8 * dag.nodes@.len(),
        closed(buffer_graph(r@)),
        forall|s: int| 0 <= s < r@.len() ==> (#[trigger] r@[s]).childmask < 256,
        forall|s: int| 0 <= s < r@.len() && (#[trigger] r@[s]).childmask == 0 ==> r@[s].child == 0,
        forall|s: int|
            0 <= s < r@.len() && (#[trigger] r@[s]).childmask != 0 ==> s < r@[s].child && r@[s].child + popcount(
                r@[s].childmask as u8,
            ) <= r@.len(),
        forall|s: int| 0 <= s < r@.len() ==> #[trigger] reaches(buffer_graph(r@), 0, s),
        forall|path: Seq<int>| #[trigger] mask_at(buffer_graph(r@), 0, path) == mask_at(dag.graph(), dag.root as int, path),
{
    let ghost g = dag.graph();
    let n = dag.nodes.len();
    proof {
        lemma_root_is_last(dag);
        assert forall|x: int| 0 <= x < g.len() implies (#[trigger] g[x]).1.len() <= 8 by {
            lemma_rank_le(g[x].0, 8);
        }
        lemma_runs_bound(g, -1);
    }
    let mut run_start: Vec<u32> = Vec::new();
    let mut k: usize = 0;
    while k < n
        invariant
            k <= n,
            run_start@.len() == k,
        decreases n - k,
    {
        run_start.push(0);
        k = k + 1;
    }
    let mut next: u32 = 1;
    let mut m: usize = n;
    while m > 0
        invariant
            m <= n,
            n == g.len(),
            g == dag.graph(),
            n <= 0x0fff_ffff,
            forall|x: int| 0 <= x < g.len() ==> (#[trigger] g[x]).1.len() <= 8,
            run_start@.len() == n,
            next == runs_above(g, m - 1),
            forall|x: int| m <= x < n ==> #[trigger] run_start@[x] == runs_above(g, x),
        decreases m,
    {
        m = m - 1;
        proof {
            lemma_runs_bound(g, m - 1);
        }
        run_start.set(m, next);
        assert(g[m as int].1 == dag.nodes@[m as int].children@);
        next = next + dag.nodes[m].children.len() as u32;
    }
    let root = dag.root;
    let mut recs: Vec<Node> = Vec::new();
    recs.push(Node {
        childmask: dag.nodes[root].mask as u32,
        child: if dag.nodes[root].children.len() == 0 { 0 } else { run_start[root] },
    });
    let ghost mut lab: Seq<usize> = seq![root];
    let ghost mut owner: Seq<int> = seq![0int];
    let mut m: usize = n;
    while m > 0
        invariant
            m <= n,
            n == g.len(),
            g == dag.graph(),
            dag.well_formed(),
            root == dag.root,
            forall|x: int| 0 <= x < g.len() ==> (#[trigger] g[x]).1.len() <= 8,
            run_start@.len() == n,
            forall|x: int| 0 <= x < n ==> #[trigger] run_start@[x] == runs_above(g, x),
            recs@.len() == runs_above(g, m - 1),
            lab.len() == recs@.len(),
            owner.len() == recs@.len(),
            lab[0] == root,
            forall|s: int| 0 <= s < recs@.len() ==> #[trigger] lab[s] < n && recs@[s] == rec_of(g, lab[s] as int),
            forall|s: int|
                1 <= s < recs@.len() ==> {
                    &&& m <= #[trigger] owner[s] < n
                    &&& runs_above(g, owner[s]) <= s < runs_above(g, owner[s]) + g[owner[s]].1.len()
                    &&& lab[s] == g[owner[s]].1[s - runs_above(g, owner[s])]
                },
            forall|x: int, t: int|
                m <= x < n && 0 <= t < g[x].1.len() ==> #[trigger] lab[runs_above(g, x) + t] == g[x].1[t],
        decreases m,
    {
        m = m - 1;
        let kids = &dag.nodes[m].children;
        assert(g[m as int].1 == kids@);
        let ghost len0 = recs@.len();
        let ghost lab0 = lab;
        proof {
            if m + 1 < n {
                lemma_runs_grow(g, m as int, m as int + 1);
            }
            assert(len0 == runs_above(g, m as int));
            lemma_runs_pos(g, m as int);
        }
        let mut t: usize = 0;
        while t < kids.len()
            invariant
                n == g.len(),
                g == dag.graph(),
                dag.well_formed(),
                m < n,
                g[m as int].1 == kids@,
                t <= kids@.len(),
                run_start@.len() == n,
                forall|x: int| 0 <= x < n ==> #[trigger] run_start@[x] == runs_above(g, x),
                len0 == runs_above(g, m as int),
                recs@.len() == len0 + t,
                lab.len() == recs@.len(),
                owner.len() == recs@.len(),
                forall|s: int| 0 <= s < len0 ==> lab[s] == lab0[s],
                len0 >= 1,
                lab[0] == root,
                forall|x: int| 0 <= x < g.len() ==> (#[trigger] g[x]).1.len() <= 8,
                forall|s: int| 0 <= s < recs@.len() ==> #[trigger] lab[s] < n && recs@[s] == rec_of(g, lab[s] as int),
                forall|s: int|
                    1 <= s < recs@.len() ==> {
                        &&& m <= #[trigger] owner[s] < n
                        &&& runs_above(g, owner[s]) <= s < runs_above(g, owner[s]) + g[owner[s]].1.len()
                        &&& lab[s] == g[owner[s]].1[s - runs_above(g, owner[s])]
                    },
                forall|u: int| 0 <= u < t ==> #[trigger] lab[len0 + u] == kids@[u],
            decreases kids@.len() - t,
        {
            let ch = kids[t];
            assert(g[m as int].1[t as int] < m as int);
            let ck = dag.nodes[ch].children.len();
            assert(g[ch as int].1 == dag.nodes@[ch as int].children@);
            recs.push(Node {
                childmask: dag.nodes[ch].mask as u32,
                child: if ck == 0 { 0 } else { run_start[ch] },
            });
            proof {
                lab = lab.push(ch);
                owner = owner.push(m as int);
                lemma_runs_bound(g, ch as int);
            }
            t = t + 1;
        }
        proof {
            assert forall|x: int, u: int| m <= x < n && 0 <= u < g[x].1.len() implies #[trigger] lab[runs_above(g, x) + u] == g[x].1[u] by {
                if x > m {
                    lemma_runs_grow(g, m as int, x);
                    lemma_runs_pos(g, x);
                    assert(lab0[runs_above(g, x) + u] == g[x].1[u]);
                } else {
                    assert(lab[len0 + u] == kids@[u]);
                }
            }
        }
    }
    proof {
        let bg = buffer_graph(recs@);
        lemma_empty_mask(8);
        assert forall|s: int| 0 <= s < recs@.len() implies popcount(recs@[s].childmask as u8) == g[lab[s] as int].1.len()
            && (recs@[s].childmask as u8) == g[lab[s] as int].0 by {
            assert(recs@[s] == rec_of(g, lab[s] as int));
        }
        assert forall|s: int| 0 <= s < recs@.len() && g[lab[s] as int].1.len() > 0 implies
            recs@[s].child as int == runs_above(g, lab[s] as int)
            && runs_above(g, lab[s] as int) + g[lab[s] as int].1.len() <= recs@.len() by {
            assert(recs@[s] == rec_of(g, lab[s] as int));
            lemma_runs_bound(g, lab[s] as int);
            if lab[s] > 0 {
                lemma_runs_grow(g, -1, lab[s] as int);
            } else {
                lemma_runs_grow(g, -1, 0);
            }
        }
        assert forall|k: int, t: int| 0 <= k < bg.len() && 0 <= t < bg[k].1.len() implies #[trigger] bg[k].1[t] < bg.len() by {
            let c = lab[k] as int;
            assert(recs@[k] == rec_of(g, c));
            assert(g[c].1.len() > 0);
            lemma_runs_grow(g, -1, c);
            lemma_runs_bound(g, c);
            assert(bg[k].1[t] == (recs@[k].child + t) as usize);
        }
        assert(recs@[0] == rec_of(g, root as int));
        assert forall|x: int, t: int| 0 <= x < g.len() && 0 <= t < g[x].1.len() implies #[trigger] recs@[runs_above(g, x) + t]
            == rec_of(g, g[x].1[t] as int) by {
            assert(lab[runs_above(g, x) + t] == g[x].1[t]);
            lemma_runs_pos(g, x);
            lemma_runs_grow(g, -1, x);
        }
        assert forall|k: int, t: int| 0 <= k < bg.len() && 0 <= t < bg[k].1.len()
            implies (#[trigger] g[lab[k] as int].1[t]) == lab[bg[k].1[t] as int] by {
            let c = lab[k] as int;
            assert(recs@[k] == rec_of(g, c));
            assert(g[c].1.len() > 0);
            lemma_runs_bound(g, c);
            assert(bg[k].1[t] == (recs@[k].child + t) as usize);
            assert(lab[runs_above(g, c) + t] == g[c].1[t]);
        }
        assert(mirrors(bg, g, lab));
        assert forall|path: Seq<int>| #[trigger] mask_at(bg, 0, path) == mask_at(g, root as int, path) by {
            lemma_mirrored_expansion(bg, g, lab, 0, path);
        }
        assert forall|s: int| 0 <= s < recs@.len() implies (#[trigger] recs@[s]).childmask < 256 by {
            assert(recs@[s] == rec_of(g, lab[s] as int));
        }
        assert forall|s: int| 0 <= s < recs@.len() && (#[trigger] recs@[s]).childmask == 0 implies recs@[s].child == 0 by {
            assert(recs@[s] == rec_of(g, lab[s] as int));
        }
        assert forall|s: int| 0 <= s < recs@.len() && (#[trigger] recs@[s]).childmask != 0 implies s < recs@[s].child
            && recs@[s].child + popcount(recs@[s].childmask as u8) <= recs@.len() by {
            let c = lab[s] as int;
            assert(recs@[s] == rec_of(g, c));
            if g[c].1.len() == 0 {
                lemma_popcount_zero(g[c].0);
            }
            if s == 0 {
                lemma_runs_pos(g, c);
            } else {
                let x = owner[s];
                assert(lab[s] == g[x].1[s - runs_above(g, x)]);
                assert(c < x);
                lemma_runs_grow(g, c, x);
            }
        }
        assert forall|s: int| 0 <= s < recs@.len() implies #[trigger] reaches(bg, 0, s) by {
            if s == 0 {
                assert(follow(bg, 0, Seq::<int>::empty()) == Some(0int));
            } else {
                let x = owner[s];
                let t = s - runs_above(g, x);
                assert(crate::graph::reaches(g, root as int, x));
                let path = choose|path: Seq<int>| #[trigger] follow(g, root as int, path) == Some(x);
                lemma_mirrored_follow(bg, g, lab, 0, path);
                let y = follow(bg, 0, path).unwrap();
                assert(lab[y] == x);
                lemma_rank_inverse(g[x].0, 8, t);
                let j = choose|j: int| 0 <= j < 8 && has_bit(g[x].0, j) && #[trigger] rank(g[x].0, j) == t;
                assert(bg[y].0 == g[x].0);
                assert(bg[y].1[t] == (recs@[y].child + t) as usize);
                assert(seq![j].drop_first() =~= Seq::<int>::empty());
                assert(follow(bg, y, seq![j]) == follow(bg, s, Seq::<int>::empty()));
                lemma_follow_concat(bg, 0, path, seq![j]);
                assert(follow(bg, 0, path + seq![j]) == Some(s));
            }
        }
    }
    recs
}

proof fn lemma_runs_pos(g: Seq<GNode>, m: int)
    ensures
        runs_above(g, m) >= 1,
    decreases (if m + 1 < g.len() { g.len() - m } else { 0 }),
{
    if m + 1 < g.len() {
        lemma_runs_pos(g, m + 1);
    }
}

/// In an encoded buffer the child in octant `i` of record `s` is the record at
/// `child + popcount(mask & ((1 << i) - 1))`, and that record exists.
pub proof fn lemma_child_slot(recs: Seq<Node>, s: int, i: u8)
    requires
        closed(buffer_graph(recs)),
        0 <= s < recs.len(),
        i < 8,
        has_bit(recs[s].childmask as u8, i as int),
        recs[s].child + 8 <= usize::MAX,
    ensures
        recs[s].child + popcount(recs[s].childmask as u8 & (((1u8 << i) - 1) as u8)) < recs.len(),
        follow(buffer_graph(recs), s, seq![i as int]) == Some(
            recs[s].child + popcount(recs[s].childmask as u8 & (((1u8 << i) - 1) as u8)),
        ),
{
    let bg = buffer_graph(recs);
    let m = recs[s].childmask as u8;
    lemma_rank_is_masked_popcount(m, i);
    lemma_rank_below_popcount(m, i as int, 8);
    lemma_rank_le(m, i as int);
    let t = crate::bits::rank(m, i as int) as int;
    assert(bg[s].1[t] == (recs[s].child + t) as usize);
    assert((recs[s].child + t) as usize == recs[s].child + t);
    assert(bg[s].1[t] < bg.len());
    let path = seq![i as int];
    assert(path.drop_first() =~= Seq::<int>::empty());
    assert(bg[s].0 == m && bg[s].1.len() == popcount(m));
    assert(follow(bg, bg[s].1[t] as int, Seq::<int>::empty()) == Some(bg[s].1[t] as int));
    assert(follow(bg, s, path) == follow(bg, bg[s].1[t] as int, path.drop_first()));
}


} // verus!
