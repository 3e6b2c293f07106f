//! Dominance analysis: the dominator tree of a control flow graph.
//!
//! Block `a` dominates block `b` when `b` can be reached from the entry and
//! every path from the entry to `b` passes through `a`. For each block the
//! tree holds which blocks it dominates, found by searching the graph with
//! the block taken out, and its immediate dominator.

use vstd::prelude::*;

use crate::analysis::{
    cfg::{lemma_reaches_self, reaches, ControlFlowGraph},
    paths::{
        immediate_dominator_of, lemma_avoiding_start, lemma_avoiding_step, lemma_closed_avoiding,
        lemma_dominates_itself, lemma_dominators_ordered, lemma_dominates_transitive, lemma_start_dominates,
        path_dominates, reaches_avoiding, strictly_dominates,
    },
    sorted::strictly_sorted,
};

verus! {

/// Every block dominates itself.
pub proof fn lemma_dominates_self(v: DomView, b: usize)
    requires
        b < v.len(),
    ensures
        v.dominates(b, b),
{
}

/// The entry block dominates every block reachable from it.
pub proof fn lemma_entry_dominates(v: DomView, succs: Seq<Set<usize>>, entry: usize, b: usize)
    requires
        tree_ok(v, succs, entry),
        b < succs.len(),
        reaches(succs, entry, b),
    ensures
        v.dominates(entry, b),
{
    lemma_start_dominates(succs, entry, b);
    crate::analysis::cfg::lemma_reaches_self_of(succs, entry, b);
}

/// Dominance in the tree is dominance by paths: `a` dominates `b` exactly
/// when they are the same block, or `b` is reachable from the entry and
/// every path from the entry to `b` passes through `a`.
pub proof fn lemma_dominates_paths(v: DomView, succs: Seq<Set<usize>>, entry: usize, a: usize, b: usize)
    requires
        tree_ok(v, succs, entry),
    ensures
        v.dominates(a, b) <==> (a < succs.len() && b < succs.len() && (a == b || path_dominates(succs, entry, a, b))),
{
}

/// Only reachable blocks dominate, or are dominated by, other blocks.
pub proof fn lemma_dominance_reachable(v: DomView, succs: Seq<Set<usize>>, entry: usize, a: usize, b: usize)
    requires
        tree_ok(v, succs, entry),
        v.dominates(a, b),
        a != b,
    ensures
        reaches(succs, entry, a),
        reaches(succs, entry, b),
{
    let p = choose|p: Seq<usize>| #[trigger] crate::analysis::cfg::is_path(succs, p) && p[0] == entry && p.last() == b;
    assert(p.contains(a));
    let i = choose|i: int| 0 <= i < p.len() && p[i] == a;
    let q = p.subrange(0, i + 1);
    assert forall|k: int| 0 <= k < q.len() - 1 implies succs[q[k] as int].contains(#[trigger] q[k + 1]) by {
        assert(q[k] == p[k] && q[k + 1] == p[k + 1]);
    }
    assert forall|k: int| 0 <= k < q.len() implies (#[trigger] q[k]) < succs.len() by {
        assert(q[k] == p[k]);
    }
    assert(crate::analysis::cfg::is_path(succs, q) && q[0] == entry && q.last() == a);
}

/// Dominator tree for a function.
#[derive(Debug, Clone)]
pub struct DominatorTree {
    /// Immediate dominator for each block (None = unreachable or entry)
    idom: Vec<Option<usize>>,
    /// Reverse post-order numbers (1-based; 0 for unreachable blocks)
    rpo_numbers: Vec<u32>,
    /// Entry block index
    entry: usize,
    /// Number of blocks
    num_blocks: usize,
    /// For each block, which blocks it dominates, by block index
    dom: Vec<Vec<bool>>,
}

/// The abstract content of a dominator tree.
pub struct DomView {
    /// Immediate dominator of each block.
    pub idom: Seq<Option<usize>>,
    /// Reverse post-order number of each block, 0 for an unreachable one.
    pub rpo: Seq<u32>,
    /// The entry block.
    pub entry: usize,
    /// For each block, which blocks it dominates.
    pub dom: Seq<Seq<bool>>,
}

impl View for DominatorTree {
    type V = DomView;

    closed spec fn view(&self) -> DomView {
        DomView {
            idom: self.idom@,
            rpo: self.rpo_numbers@,
            entry: self.entry,
            dom: self.dom@.map_values(|row: Vec<bool>| row@),
        }
    }
}

impl DomView {
    /// Number of blocks.
    pub open spec fn len(self) -> nat {
        self.rpo.len()
    }

    /// Block `a` dominates block `b`: the same block, or one the tree
    /// records `a` as dominating.
    pub open spec fn dominates(self, a: usize, b: usize) -> bool {
        &&& a < self.len()
        &&& b < self.len()
        &&& (a == b || self.dom[a as int][b as int])
    }
}

/// The tree of a graph: a reverse post-order number for exactly the
/// reachable blocks; dominance by paths from the entry; and, for exactly
/// the reachable blocks other than the entry, the immediate dominator.
pub open spec fn tree_ok(v: DomView, succs: Seq<Set<usize>>, entry: usize) -> bool {
    let n = succs.len();
    &&& v.rpo.len() == n
    &&& v.idom.len() == n
    &&& v.dom.len() == n
    &&& v.entry == entry
    &&& forall|b: usize| b < n ==> (v.rpo[b as int] > 0 <==> #[trigger] reaches(succs, entry, b))
    &&& forall|a: usize| a < n ==> (#[trigger] v.dom[a as int]).len() == n
    &&& forall|a: usize, b: usize|
        a < n && b < n ==> (#[trigger] v.dom[a as int][b as int] <==> path_dominates(succs, entry, a, b))
    &&& forall|b: usize|
        b < n ==> match #[trigger] v.idom[b as int] {
            Some(d) => d < n && b != entry && immediate_dominator_of(succs, entry, d, b),
            None => b == entry || !reaches(succs, entry, b),
        }
}

impl DominatorTree {
    /// Well-formedness: the sizes agree.
    pub closed spec fn wf(&self) -> bool {
        &&& self.idom@.len() == self.num_blocks
        &&& self.rpo_numbers@.len() == self.num_blocks
        &&& self.dom@.len() == self.num_blocks
        &&& forall|a: int| 0 <= a < self.num_blocks ==> (#[trigger] self.dom@[a])@.len() == self.num_blocks
    }

    /// The sizes a well-formed tree keeps to.
    pub proof fn lemma_wf(&self)
        requires
            self.wf(),
        ensures
            self@.idom.len() == self@.len(),
            self@.dom.len() == self@.len(),
    {
    }

    /// Compute dominator tree from CFG.
    ///
    /// Block `a` dominates block `b` when `b` is reachable and no path from
    /// the entry reaches `b` without passing through `a`; the immediate
    /// dominator of a reachable block other than the entry is the strict
    /// dominator that all its other strict dominators dominate.
    pub fn from_cfg(cfg: &ControlFlowGraph) -> (r: Self)
        requires
            cfg.wf(),
            cfg@.succs.len() < u32::MAX,
        ensures
            r.wf(),
            tree_ok(r@, cfg@.succs, cfg@.entry),
    {
        proof {
            cfg.lemma_wf();
        }
        let num_blocks = cfg.num_blocks();
        let entry = cfg.entry();
        let ghost succs = cfg@.succs;
        let rpo = cfg.reverse_post_order();
        let mut rpo_numbers: Vec<u32> = Vec::new();
        let mut i: usize = 0;
        while i < num_blocks
            invariant
                i <= num_blocks,
                rpo_numbers@.len() == i,
                forall|j: int| 0 <= j < i ==> rpo_numbers@[j] == 0,
            decreases num_blocks - i,
        {
            rpo_numbers.push(0);
            i = i + 1;
        }
        proof {
            assert(rpo@.len() <= num_blocks) by {
                crate::layout::Layout::lemma_len_bound_usize(rpo@, num_blocks as nat);
            }
        }
        let mut k: usize = 0;
        while k < rpo.len()
            invariant
                num_blocks == succs.len(),
                num_blocks < u32::MAX,
                rpo@.len() <= num_blocks,
                rpo@.no_duplicates(),
                forall|j: int| 0 <= j < rpo@.len() ==> #[trigger] rpo@[j] < num_blocks,
                k <= rpo@.len(),
                rpo_numbers@.len() == num_blocks,
                forall|b: usize|
                    b < num_blocks ==> (#[trigger] rpo_numbers@[b as int] > 0 <==> rpo@.subrange(0, k as int).contains(b)),
            decreases rpo@.len() - k,
        {
            let b = rpo[k];
            rpo_numbers.set(b, (k + 1) as u32);
            proof {
                assert forall|x: usize|
                    x < num_blocks implies (#[trigger] rpo_numbers@[x as int] > 0 <==> rpo@.subrange(0, k + 1).contains(x)) by {
                    if x == b {
                        assert(rpo@.subrange(0, k + 1)[k as int] == b);
                    } else {
                        if rpo@.subrange(0, k + 1).contains(x) {
                            let j = choose|j: int| 0 <= j < k + 1 && #[trigger] rpo@.subrange(0, k + 1)[j] == x;
                            assert(rpo@.subrange(0, k as int)[j] == x);
                        }
                        if rpo@.subrange(0, k as int).contains(x) {
                            let j = choose|j: int| 0 <= j < k && #[trigger] rpo@.subrange(0, k as int)[j] == x;
                            assert(rpo@.subrange(0, k + 1)[j] == x);
                        }
                    }
                }
            }
            k = k + 1;
        }
        proof {
            assert(rpo@.subrange(0, k as int) =~= rpo@);
        }
        let mut dom: Vec<Vec<bool>> = Vec::new();
        let mut a: usize = 0;
        while a < num_blocks
            invariant
                cfg.wf(),
                succs == cfg@.succs,
                entry == cfg@.entry,
                num_blocks == succs.len(),
                rpo_numbers@.len() == num_blocks,
                forall|b: usize|
                    b < num_blocks ==> (#[trigger] rpo_numbers@[b as int] > 0 <==> reaches(succs, entry, b)),
                a <= num_blocks,
                dom@.len() == a,
                forall|x: int| 0 <= x < a ==> (#[trigger] dom@[x])@.len() == num_blocks,
                forall|x: usize, b: usize|
                    x < a && b < num_blocks ==> (#[trigger] dom@[x as int]@[b as int] <==> path_dominates(
                        succs,
                        entry,
                        x,
                        b,
                    )),
            decreases num_blocks - a,
        {
            let avoid = Self::avoiding_reach(cfg, a);
            let mut row: Vec<bool> = Vec::new();
            let mut b: usize = 0;
            while b < num_blocks
                invariant
                    num_blocks == succs.len(),
                    rpo_numbers@.len() == num_blocks,
                    forall|y: usize|
                        y < num_blocks ==> (#[trigger] rpo_numbers@[y as int] > 0 <==> reaches(succs, entry, y)),
                    avoid@.len() == num_blocks,
                    forall|y: usize|
                        y < num_blocks ==> (avoid@[y as int] <==> #[trigger] reaches_avoiding(succs, entry, a, y)),
                    b <= num_blocks,
                    row@.len() == b,
                    forall|y: usize| y < b ==> (#[trigger] row@[y as int] <==> path_dominates(succs, entry, a, y)),
                decreases num_blocks - b,
            {
                proof {
                    assert(rpo_numbers@[b as int] > 0 <==> reaches(succs, entry, b));
                    assert(avoid@[b as int] <==> reaches_avoiding(succs, entry, a, b));
                }
                row.push(rpo_numbers[b] > 0 && !avoid[b]);
                b = b + 1;
            }
            let ghost before = dom@;
            dom.push(row);
            proof {
                assert forall|x: usize, y: usize|
                    x < a + 1 && y < num_blocks implies (#[trigger] dom@[x as int]@[y as int] <==> path_dominates(
                        succs,
                        entry,
                        x,
                        y,
                    )) by {
                    if x < a {
                        assert(dom@[x as int] == before[x as int]);
                    }
                }
                assert forall|x: int| 0 <= x < a + 1 implies (#[trigger] dom@[x])@.len() == num_blocks by {
                    if x < a {
                        assert(dom@[x] == before[x]);
                    }
                }
            }
            a = a + 1;
        }
        let mut idom: Vec<Option<usize>> = Vec::new();
        let mut b: usize = 0;
        while b < num_blocks
            invariant
                cfg.wf(),
                succs == cfg@.succs,
                entry == cfg@.entry,
                entry == 0,
                num_blocks == succs.len(),
                rpo_numbers@.len() == num_blocks,
                forall|y: usize|
                    y < num_blocks ==> (#[trigger] rpo_numbers@[y as int] > 0 <==> reaches(succs, entry, y)),
                dom@.len() == num_blocks,
                forall|x: int| 0 <= x < num_blocks ==> (#[trigger] dom@[x])@.len() == num_blocks,
                forall|x: usize, y: usize|
                    x < num_blocks && y < num_blocks ==> (#[trigger] dom@[x as int]@[y as int] <==> path_dominates(
                        succs,
                        entry,
                        x,
                        y,
                    )),
                b <= num_blocks,
                idom@.len() == b,
                forall|y: usize|
                    y < b ==> match #[trigger] idom@[y as int] {
                        Some(d) => d < num_blocks && y != entry && immediate_dominator_of(succs, entry, d, y),
                        None => y == entry || !reaches(succs, entry, y),
                    },
            decreases num_blocks - b,
        {
            if b != entry && rpo_numbers[b] > 0 {
                let mut d: usize = entry;
                proof {
                    lemma_start_dominates(succs, entry, b);
                }
                let mut c: usize = 0;
                while c < num_blocks
                    invariant
                        num_blocks == succs.len(),
                        dom@.len() == num_blocks,
                        forall|x: int| 0 <= x < num_blocks ==> (#[trigger] dom@[x])@.len() == num_blocks,
                        forall|x: usize, y: usize|
                            x < num_blocks && y < num_blocks ==> (#[trigger] dom@[x as int]@[y as int]
                                <==> path_dominates(succs, entry, x, y)),
                        b < num_blocks,
                        d < num_blocks,
                        c <= num_blocks,
                        strictly_dominates(succs, entry, d, b),
                        forall|x: usize|
                            x < c && #[trigger] strictly_dominates(succs, entry, x, b) ==> path_dominates(
                                succs,
                                entry,
                                x,
                                d,
                            ),
                    decreases num_blocks - c,
                {
                    if c != b && dom[c][b] && dom[d][c] {
                        proof {
                            assert(path_dominates(succs, entry, c, b));
                            assert(path_dominates(succs, entry, d, c));
                            assert forall|x: usize|
                                x < c + 1 && #[trigger] strictly_dominates(succs, entry, x, b) implies path_dominates(
                                    succs,
                                    entry,
                                    x,
                                    c,
                                ) by {
                                if x == c {
                                    lemma_dominates_itself(succs, entry, c);
                                } else {
                                    lemma_dominates_transitive(succs, entry, x, d, c);
                                }
                            }
                        }
                        d = c;
                    } else {
                        proof {
                            if c != b && path_dominates(succs, entry, c, b) {
                                assert(!path_dominates(succs, entry, d, c));
                                lemma_dominators_ordered(succs, entry, d, c, b);
                            }
                        }
                    }
                    c = c + 1;
                }
                proof {
                    assert forall|x: usize| #[trigger] strictly_dominates(succs, entry, x, b) implies path_dominates(
                        succs,
                        entry,
                        x,
                        d,
                    ) by {
                        if x >= num_blocks {
                            let p = choose|p: Seq<usize>| #[trigger] crate::analysis::cfg::is_path(succs, p)
                                && p[0] == entry && p.last() == b;
                            assert(p.contains(x));
                            let k = choose|k: int| 0 <= k < p.len() && p[k] == x;
                        }
                    }
                }
                idom.push(Some(d));
            } else {
                idom.push(None);
            }
            b = b + 1;
        }
        DominatorTree { idom, rpo_numbers, entry, num_blocks, dom }
    }

    /// Which blocks the entry reaches along paths that avoid block `a`.
    fn avoiding_reach(cfg: &ControlFlowGraph, a: usize) -> (r: Vec<bool>)
        requires
            cfg.wf(),
        ensures
            r@.len() == cfg@.succs.len(),
            forall|b: usize|
                b < cfg@.succs.len() ==> (r@[b as int] <==> #[trigger] reaches_avoiding(cfg@.succs, cfg@.entry, a, b)),
    {
        proof {
            cfg.lemma_wf();
        }
        let ghost succs = cfg@.succs;
        let n = cfg.num_blocks();
        let entry = cfg.entry();
        let mut marked: Vec<bool> = Vec::new();
        let mut z: usize = 0;
        while z < n
            invariant
                z <= n,
                marked@.len() == z,
                forall|j: int| 0 <= j < z ==> !marked@[j],
            decreases n - z,
        {
            marked.push(false);
            z = z + 1;
        }
        let mut order: Vec<usize> = Vec::new();
        if n > 0 && entry != a {
            marked.set(entry, true);
            order.push(entry);
            proof {
                lemma_avoiding_start(succs, entry, a);
                assert(order@[0] == entry);
            }
        }
        let mut i: usize = 0;
        while i < order.len()
            invariant
                cfg.wf(),
                succs == cfg@.succs,
                entry == cfg@.entry,
                entry == 0,
                n == succs.len(),
                forall|x: int, y: usize| 0 <= x < n && #[trigger] succs[x].contains(y) ==> y < n,
                marked@.len() == n,
                i <= order@.len(),
                order@.no_duplicates(),
                forall|j: int| 0 <= j < order@.len() ==> #[trigger] order@[j] < n && marked@[order@[j] as int],
                forall|b: usize| b < n && #[trigger] marked@[b as int] ==> order@.contains(b),
                forall|b: usize| b < n && #[trigger] marked@[b as int] ==> reaches_avoiding(succs, entry, a, b),
                forall|j: int, y: usize|
                    0 <= j < i && #[trigger] succs[order@[j] as int].contains(y) && y != a ==> marked@[y as int],
                n > 0 && entry != a ==> marked@[entry as int],
            decreases n - i,
        {
            proof {
                crate::layout::Layout::lemma_len_bound_usize(order@, n as nat);
            }
            let x = order[i];
            let succ_list = cfg.successors(x);
            let mut k: usize = 0;
            while k < succ_list.len()
                invariant
                    cfg.wf(),
                    succs == cfg@.succs,
                    entry == cfg@.entry,
                    n == succs.len(),
                    forall|x2: int, y: usize| 0 <= x2 < n && #[trigger] succs[x2].contains(y) ==> y < n,
                    x < n,
                    i < order@.len(),
                    order@[i as int] == x,
                    succ_list@.to_set() == succs[x as int],
                    forall|j: int| 0 <= j < succ_list@.len() ==> #[trigger] succ_list@[j] < n,
                    marked@.len() == n,
                    order@.no_duplicates(),
                    forall|j: int| 0 <= j < order@.len() ==> #[trigger] order@[j] < n && marked@[order@[j] as int],
                    forall|b: usize| b < n && #[trigger] marked@[b as int] ==> order@.contains(b),
                    forall|b: usize| b < n && #[trigger] marked@[b as int] ==> reaches_avoiding(succs, entry, a, b),
                    forall|j: int, y: usize|
                        0 <= j < i && #[trigger] succs[order@[j] as int].contains(y) && y != a ==> marked@[y as int],
                    forall|j: int| 0 <= j < k && succ_list@[j] != a ==> marked@[#[trigger] succ_list@[j] as int],
                    n > 0 && entry != a ==> marked@[entry as int],
                    k <= succ_list@.len(),
                decreases succ_list@.len() - k,
            {
                let y = succ_list[k];
                if y != a && !marked[y] {
                    proof {
                        assert(succ_list@.to_set().contains(y));
                        assert(marked@[x as int]);
                        lemma_avoiding_step(succs, entry, a, x, y);
                        assert(!order@.contains(y)) by {
                            if order@.contains(y) {
                                let j = choose|j: int| 0 <= j < order@.len() && order@[j] == y;
                            }
                        }
                    }
                    let ghost mb = marked@;
                    let ghost ob = order@;
                    marked.set(y, true);
                    order.push(y);
                    proof {
                        assert(order@.no_duplicates()) by {
                            assert forall|p: int, q: int| 0 <= p < q < order@.len() implies order@[p] != order@[q] by {
                                if q == ob.len() {
                                    assert(ob[p] != y) by {
                                        assert(ob.contains(ob[p]));
                                    }
                                } else {
                                    assert(ob[p] != ob[q]);
                                }
                            }
                        }
                        assert forall|j: int| 0 <= j < order@.len() implies #[trigger] order@[j] < n
                            && marked@[order@[j] as int] by {
                            if j < ob.len() {
                                assert(order@[j] == ob[j]);
                            }
                        }
                        assert forall|b: usize| b < n && #[trigger] marked@[b as int] implies order@.contains(b) by {
                            if b == y {
                                assert(order@[ob.len() as int] == y);
                            } else {
                                assert(mb[b as int]);
                                let j = choose|j: int| 0 <= j < ob.len() && ob[j] == b;
                                assert(order@[j] == b);
                            }
                        }
                        assert forall|j: int, y2: usize|
                            0 <= j < i && #[trigger] succs[order@[j] as int].contains(y2) && y2 != a implies marked@[y2 as int] by {
                            assert(order@[j] == ob[j]);
                            assert(mb[y2 as int]);
                        }
                    }
                }
                k = k + 1;
            }
            proof {
                assert forall|j: int, y: usize|
                    0 <= j < i + 1 && #[trigger] succs[order@[j] as int].contains(y) && y != a implies marked@[y as int] by {
                    if j == i {
                        assert(succ_list@.to_set().contains(y));
                        let q = choose|q: int| 0 <= q < succ_list@.len() && succ_list@[q] == y;
                        assert(marked@[succ_list@[q] as int]);
                    }
                }
            }
            i = i + 1;
        }
        proof {
            let s = Set::new(|b: usize| b < n && marked@[b as int]);
            assert forall|b: usize| b < n implies (marked@[b as int] <==> #[trigger] reaches_avoiding(succs, entry, a, b)) by {
                if reaches_avoiding(succs, entry, a, b) {
                    let p = choose|p: Seq<usize>| #[trigger] crate::analysis::cfg::is_path(succs, p) && p[0] == entry
                        && p.last() == b && !p.contains(a);
                    assert(p[0] == entry);
                    assert(entry != a) by {
                        if entry == a {
                            assert(p.contains(a));
                        }
                    }
                    assert(n > 0);
                    assert forall|x: usize, y: usize|
                        s.contains(x) && x < succs.len() && #[trigger] succs[x as int].contains(y) && y != a implies s.contains(y) by {
                        let j = choose|j: int| 0 <= j < order@.len() && order@[j] == x;
                        assert(succs[order@[j] as int].contains(y));
                    }
                    lemma_closed_avoiding(succs, s, entry, a, b);
                }
            }
        }
        marked
    }

    /// Check if block_a dominates block_b.
    ///
    /// A block dominates itself. Entry block dominates all reachable blocks.
    pub fn dominates(&self, block_a: usize, block_b: usize) -> (r: bool)
        requires
            self.wf(),
        ensures
            r == self@.dominates(block_a, block_b),
    {
        if block_a >= self.num_blocks || block_b >= self.num_blocks {
            return false;
        }
        if block_a == block_b {
            return true;
        }
        proof {
            assert(self@.dom[block_a as int] == self.dom@[block_a as int]@);
        }
        self.dom[block_a][block_b]
    }

    /// Get immediate dominator of a block.
    pub fn immediate_dominator(&self, block: usize) -> (r: Option<usize>)
        requires
            self.wf(),
        ensures
            block < self@.len() ==> r == self@.idom[block as int],
            block >= self@.len() ==> r is None,
    {
        if block >= self.num_blocks {
            return None;
        }
        self.idom[block]
    }

    /// Get all blocks dominated by a given block, in increasing order.
    pub fn dominated_blocks(&self, block: usize) -> (r: Vec<usize>)
        requires
            self.wf(),
        ensures
            strictly_sorted(r@),
            forall|x: usize| #[trigger] r@.contains(x) <==> self@.dominates(block, x),
    {
        let mut dominated: Vec<usize> = Vec::new();
        if block >= self.num_blocks {
            return dominated;
        }
        let mut other: usize = 0;
        while other < self.num_blocks
            invariant
                self.wf(),
                block < self.num_blocks,
                other <= self.num_blocks,
                strictly_sorted(dominated@),
                forall|j: int| 0 <= j < dominated@.len() ==> #[trigger] dominated@[j] < other,
                forall|x: usize| #[trigger] dominated@.contains(x) <==> (x < other && self@.dominates(block, x)),
            decreases self.num_blocks - other,
        {
            if self.dominates(block, other) {
                let ghost before = dominated@;
                dominated.push(other);
                proof {
                    assert forall|x: usize| #[trigger] dominated@.contains(x) <==> (x < other + 1 && self@.dominates(block, x)) by {
                        if x == other {
                            assert(dominated@[before.len() as int] == other);
                        } else {
                            if dominated@.contains(x) {
                                let j = choose|j: int| 0 <= j < dominated@.len() && dominated@[j] == x;
                                assert(j < before.len());
                                assert(before[j] == x);
                                assert(before.contains(x));
                            }
                            if x < other && self@.dominates(block, x) {
                                assert(before.contains(x));
                                let j = choose|j: int| 0 <= j < before.len() && before[j] == x;
                                assert(dominated@[j] == x);
                            }
                        }
                    }
                }
            }
            other = other + 1;
        }
        dominated
    }

}

} // verus!
