//! Control Flow Graph construction and analysis.

use vstd::prelude::*;

use crate::{
    analysis::sorted::{contains_sorted, insert_sorted, strictly_sorted},
    dfg::{inst_data::InstDataView, InstData, Opcode},
    entity::Block,
    function::Function,
};

verus! {

/// Whether an instruction transfers control to block `t`: a jump or a
/// branch that names `t` among its targets.
pub open spec fn jumps_to(d: InstDataView, t: usize) -> bool {
    &&& (d.opcode is Jump || d.opcode is Br)
    &&& d.block_args is Some
    &&& exists|k: int| 0 <= k < d.block_args.unwrap().len() && d.block_args.unwrap()[k].0.0 == t
}

/// Whether block `b` of `f` holds an instruction that transfers control to
/// block `t`.
pub open spec fn block_jumps_to(f: &Function, b: int, t: usize) -> bool {
    exists|q: int|
        0 <= q < f.layout@.contents[b].len() && #[trigger] jumps_to(
            f.dfg.insts@[f.layout@.contents[b][q] as int]@,
            t,
        )
}

/// The control flow edge `b -> t` of `f`, between two of its blocks.
pub open spec fn edge(f: &Function, b: int, t: usize) -> bool {
    0 <= b < f.blocks@.len() && t < f.blocks@.len() && block_jumps_to(f, b, t)
}

/// A path in a graph given by its successor sets: consecutive blocks are
/// joined by edges.
pub open spec fn is_path(succs: Seq<Set<usize>>, p: Seq<usize>) -> bool {
    &&& p.len() > 0
    &&& forall|i: int| 0 <= i < p.len() ==> (#[trigger] p[i]) < succs.len()
    &&& forall|i: int| 0 <= i < p.len() - 1 ==> succs[p[i] as int].contains(#[trigger] p[i + 1])
}

/// Block `b` can be reached from `from` along edges.
pub open spec fn reaches(succs: Seq<Set<usize>>, from: usize, b: usize) -> bool {
    exists|p: Seq<usize>| #[trigger] is_path(succs, p) && p[0] == from && p.last() == b
}

/// Whether successor `y` of the block at position `k` of a post-order is
/// finished before it, or reaches it back.
pub open spec fn finished_before(succs: Seq<Set<usize>>, post: Seq<usize>, k: int, y: usize) -> bool {
    post.subrange(0, k).contains(y) || reaches(succs, y, post[k])
}

/// The indices set in a list of flags.
pub open spec fn flagged(v: Seq<bool>) -> Set<usize> {
    Set::new(|i: usize| i < v.len() && v[i as int])
}

/// The number of set flags.
pub open spec fn count_true(v: Seq<bool>) -> nat
    decreases v.len(),
{
    if v.len() == 0 {
        0
    } else {
        count_true(v.drop_last()) + if v.last() {
            1nat
        } else {
            0nat
        }
    }
}

/// At most as many flags are set as there are flags.
pub proof fn lemma_count_le(v: Seq<bool>)
    ensures
        count_true(v) <= v.len(),
    decreases v.len(),
{
    if v.len() > 0 {
        lemma_count_le(v.drop_last());
    }
}

/// Setting more flags sets at least as many.
pub proof fn lemma_count_mono(v1: Seq<bool>, v2: Seq<bool>)
    requires
        v1.len() == v2.len(),
        forall|i: int| 0 <= i < v1.len() && v1[i] ==> v2[i],
    ensures
        count_true(v1) <= count_true(v2),
    decreases v1.len(),
{
    if v1.len() > 0 {
        lemma_count_mono(v1.drop_last(), v2.drop_last());
    }
}

/// Setting a flag that was clear adds one.
pub proof fn lemma_count_set(v: Seq<bool>, i: int)
    requires
        0 <= i < v.len(),
        !v[i],
    ensures
        count_true(v.update(i, true)) == count_true(v) + 1,
    decreases v.len(),
{
    if i < v.len() - 1 {
        lemma_count_set(v.drop_last(), i);
        assert(v.update(i, true).drop_last() =~= v.drop_last().update(i, true));
    } else {
        assert(v.update(i, true).drop_last() =~= v.drop_last());
    }
}

/// A block reaches itself.
pub proof fn lemma_reaches_self(succs: Seq<Set<usize>>, b: usize)
    requires
        b < succs.len(),
    ensures
        reaches(succs, b, b),
{
    let p = seq![b];
    assert(is_path(succs, p));
}

/// A block that something is reachable from is a block, and reaches itself.
pub proof fn lemma_reaches_self_of(succs: Seq<Set<usize>>, from: usize, b: usize)
    requires
        reaches(succs, from, b),
    ensures
        from < succs.len(),
        reaches(succs, from, from),
{
    let p = choose|p: Seq<usize>| #[trigger] is_path(succs, p) && p[0] == from && p.last() == b;
    assert(p[0] < succs.len());
    lemma_reaches_self(succs, from);
}

/// Reaching a block and following one of its edges reaches the target.
pub proof fn lemma_reaches_step(succs: Seq<Set<usize>>, from: usize, a: usize, b: usize)
    requires
        reaches(succs, from, a),
        a < succs.len(),
        b < succs.len(),
        succs[a as int].contains(b),
    ensures
        reaches(succs, from, b),
{
    let p = choose|p: Seq<usize>| #[trigger] is_path(succs, p) && p[0] == from && p.last() == a;
    let q = p.push(b);
    assert(is_path(succs, q)) by {
        assert forall|i: int| 0 <= i < q.len() - 1 implies succs[q[i] as int].contains(#[trigger] q[i + 1]) by {
            if i < p.len() - 1 {
                assert(q[i] == p[i] && q[i + 1] == p[i + 1]);
            }
        }
    }
    assert(q[0] == from);
}

/// A set of blocks that holds `from` and every successor of its members
/// holds every block reachable from `from`.
pub proof fn lemma_closed_reach(succs: Seq<Set<usize>>, s: Set<usize>, from: usize, b: usize)
    requires
        s.contains(from),
        forall|x: usize, y: usize| s.contains(x) && x < succs.len() && #[trigger] succs[x as int].contains(y) ==> s.contains(y),
        reaches(succs, from, b),
    ensures
        s.contains(b),
{
    let p = choose|p: Seq<usize>| #[trigger] is_path(succs, p) && p[0] == from && p.last() == b;
    lemma_path_in(succs, s, p, p.len() - 1);
}

/// Every block of a path that starts in a closed set stays in it.
proof fn lemma_path_in(succs: Seq<Set<usize>>, s: Set<usize>, p: Seq<usize>, i: int)
    requires
        is_path(succs, p),
        s.contains(p[0]),
        forall|x: usize, y: usize| s.contains(x) && x < succs.len() && #[trigger] succs[x as int].contains(y) ==> s.contains(y),
        0 <= i < p.len(),
    ensures
        s.contains(p[i]),
    decreases i,
{
    if i > 0 {
        lemma_path_in(succs, s, p, i - 1);
        let j = i - 1;
        assert(succs[p[j] as int].contains(p[j + 1]));
    }
}

/// A block other than `from` that is reachable from it has a reachable
/// predecessor.
pub proof fn lemma_reach_pred(succs: Seq<Set<usize>>, from: usize, b: usize) -> (p: usize)
    requires
        reaches(succs, from, b),
        b != from,
    ensures
        reaches(succs, from, p),
        p < succs.len(),
        succs[p as int].contains(b),
{
    let path = choose|path: Seq<usize>| #[trigger] is_path(succs, path) && path[0] == from && path.last() == b;
    let m = path.len() - 2;
    let prefix = path.subrange(0, m + 1);
    assert(is_path(succs, prefix)) by {
        assert forall|i: int| 0 <= i < prefix.len() - 1 implies succs[prefix[i] as int].contains(#[trigger] prefix[i + 1]) by {
            assert(prefix[i] == path[i] && prefix[i + 1] == path[i + 1]);
        }
    }
    assert(prefix[0] == from);
    assert(succs[path[m] as int].contains(path[m + 1]));
    path[m]
}

/// Control Flow Graph for a function.
///
/// Represents the control flow relationships between basic blocks.
#[derive(Debug, Clone)]
pub struct ControlFlowGraph {
    /// For each block index, its predecessor block indices, sorted
    predecessors: Vec<Vec<usize>>,
    /// For each block index, its successor block indices, sorted
    successors: Vec<Vec<usize>>,
    /// Entry block index (always 0)
    entry: usize,
}

/// The abstract content of a control flow graph.
pub struct CfgView {
    /// Successor sets, by block index.
    pub succs: Seq<Set<usize>>,
    /// Predecessor sets, by block index.
    pub preds: Seq<Set<usize>>,
    /// The entry block index.
    pub entry: usize,
}

impl View for ControlFlowGraph {
    type V = CfgView;

    closed spec fn view(&self) -> CfgView {
        CfgView {
            succs: self.successors@.map_values(|v: Vec<usize>| v@.to_set()),
            preds: self.predecessors@.map_values(|v: Vec<usize>| v@.to_set()),
            entry: self.entry,
        }
    }
}

impl ControlFlowGraph {
    /// Well-formedness: one sorted successor and predecessor list per block,
    /// naming blocks only, each edge recorded on both ends.
    pub closed spec fn wf(&self) -> bool {
        let n = self.successors@.len();
        &&& self.predecessors@.len() == n
        &&& self.entry == 0
        &&& forall|b: int| 0 <= b < n ==> strictly_sorted(#[trigger] self.successors@[b]@)
        &&& forall|b: int| 0 <= b < n ==> strictly_sorted(#[trigger] self.predecessors@[b]@)
        &&& forall|b: int, k: int|
            0 <= b < n && 0 <= k < self.successors@[b]@.len() ==> #[trigger] self.successors@[b]@[k] < n
        &&& forall|b: int, k: int|
            0 <= b < n && 0 <= k < self.predecessors@[b]@.len() ==> #[trigger] self.predecessors@[b]@[k]
                < n
        &&& forall|b: int, t: usize|
            0 <= b < n && t < n ==> (#[trigger] self.successors@[b]@.contains(t)
                <==> self.predecessors@[t as int]@.contains(b as usize))
    }

    /// Build CFG from function.
    ///
    /// Block `t` is a successor of block `b` when an instruction of `b` is a
    /// jump or a branch to `t`.
    pub fn from_function(func: &Function) -> (r: Self)
        requires
            func.wf(),
        ensures
            r.wf(),
            r@.entry == 0,
            r@.succs.len() == func.blocks@.len(),
            r@.preds.len() == func.blocks@.len(),
            forall|b: int, t: usize|
                0 <= b < func.blocks@.len() ==> (#[trigger] r@.succs[b].contains(t) <==> edge(func, b, t)),
            forall|b: usize, t: int|
                0 <= t < func.blocks@.len() ==> (#[trigger] r@.preds[t].contains(b) <==> edge(
                    func,
                    b as int,
                    t as usize,
                )),
    {
        let num_blocks = func.blocks.len();
        proof {
            func.layout.lemma_wf_bounds();
        }
        let mut successors: Vec<Vec<usize>> = Vec::new();
        let mut b: usize = 0;
        while b < num_blocks
            invariant
                func.wf(),
                num_blocks == func.blocks@.len(),
                num_blocks < u32::MAX,
                b <= num_blocks,
                successors@.len() == b,
                forall|x: int| 0 <= x < b ==> strictly_sorted(#[trigger] successors@[x]@),
                forall|x: int, k: int|
                    0 <= x < b && 0 <= k < successors@[x]@.len() ==> #[trigger] successors@[x]@[k] < num_blocks,
                forall|x: int, t: usize|
                    0 <= x < b ==> (#[trigger] successors@[x]@.contains(t) <==> edge(func, x, t)),
            decreases num_blocks - b,
        {
            let targets = Self::block_targets(func, Block(b as u32), num_blocks);
            successors.push(targets);
            b = b + 1;
        }
        let mut predecessors: Vec<Vec<usize>> = Vec::new();
        let mut t: usize = 0;
        while t < num_blocks
            invariant
                t <= num_blocks,
                predecessors@.len() == t,
                forall|x: int| 0 <= x < t ==> (#[trigger] predecessors@[x]@).len() == 0,
            decreases num_blocks - t,
        {
            predecessors.push(Vec::new());
            t = t + 1;
        }
        let mut src: usize = 0;
        while src < num_blocks
            invariant
                num_blocks == successors@.len(),
                predecessors@.len() == num_blocks,
                src <= num_blocks,
                forall|x: int| 0 <= x < num_blocks ==> strictly_sorted(#[trigger] successors@[x]@),
                forall|x: int, k: int|
                    0 <= x < num_blocks && 0 <= k < successors@[x]@.len() ==> #[trigger] successors@[x]@[k]
                        < num_blocks,
                forall|x: int| 0 <= x < num_blocks ==> strictly_sorted(#[trigger] predecessors@[x]@),
                forall|x: int, k: int|
                    0 <= x < num_blocks && 0 <= k < predecessors@[x]@.len() ==> #[trigger] predecessors@[x]@[k]
                        < src,
                forall|x: usize, y: int|
                    0 <= y < num_blocks ==> (#[trigger] predecessors@[y]@.contains(x) <==> (x < src
                        && successors@[x as int]@.contains(y as usize))),
            decreases num_blocks - src,
        {
            let succs = &successors[src];
            let mut k: usize = 0;
            while k < succs.len()
                invariant
                    num_blocks == successors@.len(),
                    predecessors@.len() == num_blocks,
                    src < num_blocks,
                    succs@ == successors@[src as int]@,
                    k <= succs@.len(),
                    strictly_sorted(succs@),
                    forall|j: int| 0 <= j < succs@.len() ==> #[trigger] succs@[j] < num_blocks,
                    forall|x: int| 0 <= x < num_blocks ==> strictly_sorted(#[trigger] predecessors@[x]@),
                    forall|x: int, j: int|
                        0 <= x < num_blocks && 0 <= j < predecessors@[x]@.len() ==> #[trigger] predecessors@[x]@[j]
                            <= src,
                    forall|x: usize, y: int|
                        0 <= y < num_blocks ==> (#[trigger] predecessors@[y]@.contains(x) <==> ((x < src
                            && successors@[x as int]@.contains(y as usize)) || (x == src
                            && succs@.subrange(0, k as int).contains(y as usize)))),
                decreases succs@.len() - k,
            {
                let tgt = succs[k];
                let mut inner = copy_usizes(&predecessors[tgt]);
                let ghost before = inner@;
                insert_sorted(&mut inner, src);
                proof {
                    assert forall|j: int| 0 <= j < inner@.len() implies inner@[j] <= src by {
                        assert(inner@.to_set().contains(inner@[j]));
                        if inner@[j] != src {
                            assert(before.to_set().contains(inner@[j]));
                            let jj = choose|jj: int| 0 <= jj < before.len() && before[jj] == inner@[j];
                            assert(predecessors@[tgt as int]@[jj] <= src);
                        }
                    }
                }
                predecessors.set(tgt, inner);
                proof {
                    assert forall|x: usize, y: int|
                        0 <= y < num_blocks implies (#[trigger] predecessors@[y]@.contains(x) <==> ((x < src
                            && successors@[x as int]@.contains(y as usize)) || (x == src
                            && succs@.subrange(0, k + 1).contains(y as usize)))) by {
                        if y == tgt {
                            assert(predecessors@[y]@.to_set().contains(x) == predecessors@[y]@.contains(x));
                            if x == src {
                                assert(succs@.subrange(0, k + 1)[k as int] == tgt);
                            }
                        }
                        if succs@.subrange(0, k + 1).contains(y as usize) && !succs@.subrange(0, k as int).contains(y as usize) {
                            let j = choose|j: int| 0 <= j < k + 1 && #[trigger] succs@.subrange(0, k + 1)[j] == y;
                            assert(j == k);
                        }
                        if succs@.subrange(0, k as int).contains(y as usize) {
                            let j = choose|j: int| 0 <= j < k && #[trigger] succs@.subrange(0, k as int)[j] == y;
                            assert(succs@.subrange(0, k + 1)[j] == y);
                        }
                    }
                }
                k = k + 1;
            }
            proof {
                assert(succs@.subrange(0, k as int) =~= succs@);
            }
            src = src + 1;
        }
        let r = ControlFlowGraph { predecessors, successors, entry: 0 };
        proof {
            assert forall|b: int, t: usize| 0 <= b < num_blocks && t < num_blocks implies (#[trigger] r.successors@[b]@.contains(t)
                <==> r.predecessors@[t as int]@.contains(b as usize)) by {}
        }
        r
    }

    /// The sorted targets of the jumps and branches of a block, among the
    /// first `n` blocks.
    fn block_targets(func: &Function, block: Block, n: usize) -> (r: Vec<usize>)
        requires
            func.wf(),
            n == func.blocks@.len(),
            block.0 < n,
        ensures
            strictly_sorted(r@),
            forall|k: int| 0 <= k < r@.len() ==> #[trigger] r@[k] < n,
            forall|t: usize| #[trigger] r@.contains(t) <==> edge(func, block.0 as int, t),
    {
        let insts = func.block_insts(block);
        let ghost c = func.layout@.contents[block.0 as int];
        let mut out: Vec<usize> = Vec::new();
        let mut q: usize = 0;
        while q < insts.len()
            invariant
                func.wf(),
                n == func.blocks@.len(),
                block.0 < n,
                c == func.layout@.contents[block.0 as int],
                insts@.len() == c.len(),
                forall|k: int| 0 <= k < insts@.len() ==> (#[trigger] insts@[k]).0 == c[k],
                q <= insts@.len(),
                strictly_sorted(out@),
                forall|k: int| 0 <= k < out@.len() ==> #[trigger] out@[k] < n,
                forall|t: usize|
                    #[trigger] out@.contains(t) <==> (t < n && exists|j: int|
                        0 <= j < q && #[trigger] jumps_to(func.dfg.insts@[c[j] as int]@, t)),
            decreases insts@.len() - q,
        {
            let inst = insts[q];
            proof {
                func.layout.lemma_contents_bound(block.0 as int, q as int);
            }
            let data = func.dfg.inst_data(inst).unwrap();
            let ghost before = out@;
            Self::inst_targets_into(data, n, &mut out);
            proof {
                assert forall|t: usize| #[trigger] out@.contains(t) <==> (t < n && exists|j: int|
                    0 <= j < q + 1 && #[trigger] jumps_to(func.dfg.insts@[c[j] as int]@, t)) by {
                    assert(out@.to_set().contains(t) == out@.contains(t));
                    assert(before.to_set().contains(t) == before.contains(t));
                    if t < n && jumps_to(func.dfg.insts@[c[q as int] as int]@, t) {
                        assert(jumps_to(func.dfg.insts@[c[q as int] as int]@, t));
                    }
                    if exists|j: int| 0 <= j < q + 1 && #[trigger] jumps_to(func.dfg.insts@[c[j] as int]@, t) {
                        let j = choose|j: int| 0 <= j < q + 1 && #[trigger] jumps_to(func.dfg.insts@[c[j] as int]@, t);
                        if j < q {
                            assert(exists|j2: int| 0 <= j2 < q && #[trigger] jumps_to(func.dfg.insts@[c[j2] as int]@, t));
                        }
                    }
                }
            }
            q = q + 1;
        }
        proof {
            assert forall|t: usize| #[trigger] out@.contains(t) <==> edge(func, block.0 as int, t) by {
                if t < n && block_jumps_to(func, block.0 as int, t) {
                    let j = choose|j: int|
                        0 <= j < c.len() && #[trigger] jumps_to(func.dfg.insts@[c[j] as int]@, t);
                    assert(jumps_to(func.dfg.insts@[c[j] as int]@, t));
                }
                if out@.contains(t) {
                    let j = choose|j: int| 0 <= j < q && #[trigger] jumps_to(func.dfg.insts@[c[j] as int]@, t);
                    assert(jumps_to(func.dfg.insts@[func.layout@.contents[block.0 as int][j] as int]@, t));
                }
            }
        }
        out
    }

    /// Add the targets (among the first `n` blocks) of a jump or branch to
    /// a sorted list.
    fn inst_targets_into(data: &InstData, n: usize, out: &mut Vec<usize>)
        requires
            strictly_sorted(old(out)@),
            forall|k: int| 0 <= k < old(out)@.len() ==> #[trigger] old(out)@[k] < n,
        ensures
            strictly_sorted(final(out)@),
            forall|k: int| 0 <= k < final(out)@.len() ==> #[trigger] final(out)@[k] < n,
            forall|t: usize|
                #[trigger] final(out)@.contains(t) <==> (old(out)@.contains(t) || (t < n && jumps_to(
                    data@,
                    t,
                ))),
    {
        let is_cf = match &data.opcode {
            Opcode::Jump | Opcode::Br => true,
            _ => false,
        };
        if !is_cf {
            return;
        }
        match &data.block_args {
            None => {},
            Some(ba) => {
                let mut k: usize = 0;
                while k < ba.targets.len()
                    invariant
                        data.opcode is Jump || data.opcode is Br,
                        data.block_args == Some(*ba),
                        k <= ba.targets@.len(),
                        strictly_sorted(out@),
                        forall|j: int| 0 <= j < out@.len() ==> #[trigger] out@[j] < n,
                        forall|t: usize|
                            #[trigger] out@.contains(t) <==> (old(out)@.contains(t) || (t < n && exists|j: int|
                                0 <= j < k && ba.targets@[j].0.0 == t)),
                    decreases ba.targets@.len() - k,
                {
                    let t = ba.targets[k].0.0 as usize;
                    if t < n {
                        let ghost before = out@;
                        insert_sorted(out, t);
                        proof {
                            assert forall|j: int| 0 <= j < out@.len() implies #[trigger] out@[j] < n by {
                                assert(out@.to_set().contains(out@[j]));
                                if out@[j] != t {
                                    assert(before.to_set().contains(out@[j]));
                                }
                            }
                            assert forall|x: usize| #[trigger] out@.contains(x) <==> (old(out)@.contains(x) || (x < n
                                && exists|j: int| 0 <= j < k + 1 && ba.targets@[j].0.0 == x)) by {
                                assert(out@.to_set().contains(x) == out@.contains(x));
                                assert(before.to_set().contains(x) == before.contains(x));
                                if x == t {
                                    assert(ba.targets@[k as int].0.0 == x);
                                }
                                if exists|j: int| 0 <= j < k + 1 && ba.targets@[j].0.0 == x {
                                    let j = choose|j: int| 0 <= j < k + 1 && ba.targets@[j].0.0 == x;
                                    if j < k {
                                        assert(exists|j2: int| 0 <= j2 < k && ba.targets@[j2].0.0 == x);
                                    }
                                }
                            }
                        }
                    } else {
                        proof {
                            assert forall|x: usize| #[trigger] out@.contains(x) <==> (old(out)@.contains(x) || (x < n
                                && exists|j: int| 0 <= j < k + 1 && ba.targets@[j].0.0 == x)) by {
                                if x < n && exists|j: int| 0 <= j < k + 1 && ba.targets@[j].0.0 == x {
                                    let j = choose|j: int| 0 <= j < k + 1 && ba.targets@[j].0.0 == x;
                                    if j < k {
                                        assert(exists|j2: int| 0 <= j2 < k && ba.targets@[j2].0.0 == x);
                                    }
                                }
                            }
                        }
                    }
                    k = k + 1;
                }
                proof {
                    assert forall|x: usize| #[trigger] out@.contains(x) <==> (old(out)@.contains(x) || (x < n
                        && jumps_to(data@, x))) by {
                        if jumps_to(data@, x) {
                            let j = choose|j: int| 0 <= j < data@.block_args.unwrap().len() && data@.block_args.unwrap()[j].0.0 == x;
                            assert(ba.targets@[j].0.0 == x);
                        }
                        if exists|j: int| 0 <= j < k && ba.targets@[j].0.0 == x {
                            let j = choose|j: int| 0 <= j < k && ba.targets@[j].0.0 == x;
                            assert(data@.block_args.unwrap()[j].0.0 == x);
                        }
                    }
                }
            },
        }
    }

    /// Get predecessors of a block.
    pub fn predecessors(&self, block: usize) -> (r: &Vec<usize>)
        requires
            self.wf(),
            block < self@.preds.len(),
        ensures
            r@.to_set() == self@.preds[block as int],
            strictly_sorted(r@),
    {
        &self.predecessors[block]
    }

    /// Get successors of a block.
    pub fn successors(&self, block: usize) -> (r: &Vec<usize>)
        requires
            self.wf(),
            block < self@.succs.len(),
        ensures
            r@.to_set() == self@.succs[block as int],
            strictly_sorted(r@),
            forall|k: int| 0 <= k < r@.len() ==> #[trigger] r@[k] < self@.succs.len(),
    {
        &self.successors[block]
    }

    /// A list of `n` clear flags.
    fn clear_flags(n: usize) -> (r: Vec<bool>)
        ensures
            r@.len() == n,
            forall|i: int| 0 <= i < n ==> !#[trigger] r@[i],
            count_true(r@) == 0,
    {
        let mut v: Vec<bool> = Vec::new();
        let mut i: usize = 0;
        while i < n
            invariant
                i <= n,
                v@.len() == i,
                forall|j: int| 0 <= j < i ==> !#[trigger] v@[j],
                count_true(v@) == 0,
            decreases n - i,
        {
            let ghost before = v@;
            v.push(false);
            proof {
                assert(v@.drop_last() =~= before);
            }
            i = i + 1;
        }
        v
    }

    /// Check if block is reachable from entry.
    pub fn is_reachable(&self, block: usize) -> (r: bool)
        requires
            self.wf(),
        ensures
            r == (block < self@.succs.len() && reaches(self@.succs, self@.entry, block)),
    {
        proof {
            self.lemma_wf();
        }
        let n = self.predecessors.len();
        if block >= n {
            return false;
        }
        let ghost succs = self@.succs;
        let entry = self.entry;
        if block == entry {
            proof {
                lemma_reaches_self(succs, entry);
            }
            return true;
        }
        let mut visited = Self::clear_flags(n);
        proof {
            lemma_count_set(visited@, entry as int);
        }
        visited.set(entry, true);
        let mut worklist: Vec<usize> = Vec::new();
        worklist.push(entry);
        proof {
            lemma_reaches_self(succs, entry);
            assert(worklist@[0] == entry);
            assert forall|x: usize| x < n && visited@[x as int] implies x == entry by {}
        }
        loop
            invariant
                self.wf(),
                succs == self@.succs,
                n == succs.len(),
                entry == self@.entry,
                entry < n,
                block < n,
                visited@.len() == n,
                visited@[entry as int],
                worklist@.no_duplicates(),
                forall|k: int| 0 <= k < worklist@.len() ==> #[trigger] worklist@[k] < n,
                forall|k: int| 0 <= k < worklist@.len() ==> visited@[#[trigger] worklist@[k] as int],
                forall|x: usize| x < n && visited@[x as int] ==> #[trigger] reaches(succs, entry, x),
                forall|x: usize, y: usize|
                    x < n && visited@[x as int] && !worklist@.contains(x) && #[trigger] succs[x as int].contains(y)
                        ==> y < n && visited@[y as int],
                forall|x: usize| x < n && visited@[x as int] && !worklist@.contains(x) ==> x != block,
                count_true(visited@) <= n,
            decreases 2 * (n - count_true(visited@)) + worklist@.len(),
        {
            let ghost before_pop = worklist@;
            let current = match worklist.pop() {
                Some(c) => c,
                None => {
                    proof {
                        let s = flagged(visited@);
                        assert forall|x: usize, y: usize| s.contains(x) && x < succs.len() && #[trigger] succs[x as int].contains(y) implies s.contains(y) by {}
                        if reaches(succs, entry, block) {
                            lemma_closed_reach(succs, s, entry, block);
                        }
                    }
                    return false;
                },
            };
            proof {
                assert(before_pop[before_pop.len() - 1] == current);
                assert forall|k: int| 0 <= k < worklist@.len() implies worklist@[k] != current by {
                    assert(before_pop[k] != before_pop[before_pop.len() - 1]);
                }
                assert(!worklist@.contains(current));
                assert forall|x: usize| x != current && !worklist@.contains(x) implies !before_pop.contains(x) by {
                    if before_pop.contains(x) {
                        let j = choose|j: int| 0 <= j < before_pop.len() && before_pop[j] == x;
                        if j < before_pop.len() - 1 {
                            assert(worklist@[j] == x);
                        }
                    }
                }
            }
            if current == block {
                return true;
            }
            let succ_list = self.successors(current);
            let ghost mid_visited = visited@;
            let ghost mid_work = worklist@;
            let mut k: usize = 0;
            while k < succ_list.len()
                invariant
                    succs == self@.succs,
                    n == succs.len(),
                    entry < n,
                    block < n,
                    current < n,
                    current != block,
                    visited@[current as int],
                    succ_list@.to_set() == succs[current as int],
                    forall|j: int| 0 <= j < succ_list@.len() ==> #[trigger] succ_list@[j] < n,
                    k <= succ_list@.len(),
                    visited@.len() == n,
                    visited@[entry as int],
                    worklist@.no_duplicates(),
                    !worklist@.contains(current),
                    forall|j: int| 0 <= j < worklist@.len() ==> #[trigger] worklist@[j] < n,
                    forall|j: int| 0 <= j < worklist@.len() ==> visited@[#[trigger] worklist@[j] as int],
                    forall|x: usize| x < n && visited@[x as int] ==> #[trigger] reaches(succs, entry, x),
                    forall|x: usize, y: usize|
                        x < n && x != current && visited@[x as int] && !worklist@.contains(x)
                            && #[trigger] succs[x as int].contains(y) ==> y < n && visited@[y as int],
                    forall|j: int| 0 <= j < k ==> visited@[#[trigger] succ_list@[j] as int],
                    forall|x: usize| x < n && visited@[x as int] && !worklist@.contains(x) ==> x != block,
                    count_true(visited@) <= n,
                    2 * (n - count_true(visited@)) + worklist@.len() <= 2 * (n - count_true(mid_visited))
                        + mid_work.len(),
                decreases succ_list@.len() - k,
            {
                let succ = succ_list[k];
                if !visited[succ] {
                    proof {
                        assert(succs[current as int].contains(succ)) by {
                            assert(succ_list@.to_set().contains(succ));
                        }
                        lemma_reaches_step(succs, entry, current, succ);
                        lemma_count_set(visited@, succ as int);
                        lemma_count_le(visited@.update(succ as int, true));
                    }
                    visited.set(succ, true);
                    let ghost wb = worklist@;
                    worklist.push(succ);
                    proof {
                        assert forall|j: int| 0 <= j < wb.len() implies wb[j] != succ by {
                            assert(visited@[wb[j] as int] || wb[j] == succ);
                        }
                        assert(worklist@.no_duplicates()) by {
                            assert forall|a: int, b: int| 0 <= a < b < worklist@.len() implies worklist@[a] != worklist@[b] by {
                                if b == wb.len() {
                                    assert(wb[a] != succ);
                                } else {
                                    assert(wb[a] != wb[b]);
                                }
                            }
                        }
                        assert forall|x: usize| x < n && visited@[x as int] && !worklist@.contains(x) implies x != block by {
                            if x != succ {
                                assert(!wb.contains(x)) by {
                                    if wb.contains(x) {
                                        let j = choose|j: int| 0 <= j < wb.len() && wb[j] == x;
                                        assert(worklist@[j] == x);
                                    }
                                }
                            } else {
                                assert(worklist@[wb.len() as int] == succ);
                            }
                        }
                        assert forall|x: usize, y: usize|
                            x < n && x != current && visited@[x as int] && !worklist@.contains(x)
                                && #[trigger] succs[x as int].contains(y) implies y < n && visited@[y as int] by {
                            if x != succ {
                                assert(!wb.contains(x)) by {
                                    if wb.contains(x) {
                                        let j = choose|j: int| 0 <= j < wb.len() && wb[j] == x;
                                        assert(worklist@[j] == x);
                                    }
                                }
                            } else {
                                assert(worklist@[wb.len() as int] == succ);
                            }
                        }
                    }
                }
                k = k + 1;
            }
            proof {
                assert forall|x: usize, y: usize|
                    x < n && visited@[x as int] && !worklist@.contains(x) && #[trigger] succs[x as int].contains(y)
                        implies y < n && visited@[y as int] by {
                    if x == current {
                        assert(succ_list@.to_set().contains(y));
                        let j = choose|j: int| 0 <= j < succ_list@.len() && succ_list@[j] == y;
                        assert(visited@[succ_list@[j] as int]);
                    }
                }
            }
        }
    }

    /// Depth-first search from `block`: mark it and, in increasing order,
    /// its unvisited successors, and add each block to the post-order once
    /// all its successors are visited.
    fn dfs(&self, block: usize, visited: &mut Vec<bool>, post_order: &mut Vec<usize>)
        requires
            self.wf(),
            block < self@.succs.len(),
            old(visited)@.len() == self@.succs.len(),
            reaches(self@.succs, self@.entry, block),
            forall|x: usize| x < self@.succs.len() && old(visited)@[x as int] ==> #[trigger] reaches(self@.succs, self@.entry, x),
            old(post_order)@.no_duplicates(),
            forall|k: int| 0 <= k < old(post_order)@.len() ==> #[trigger] old(post_order)@[k] < self@.succs.len()
                && old(visited)@[old(post_order)@[k] as int],
            forall|k: int, y: usize|
                0 <= k < old(post_order)@.len() && #[trigger] self@.succs[old(post_order)@[k] as int].contains(y)
                    ==> y < self@.succs.len() && old(visited)@[y as int],
            forall|x: usize|
                x < self@.succs.len() && old(visited)@[x as int] && !old(post_order)@.contains(x) ==> #[trigger] reaches(
                    self@.succs,
                    x,
                    block,
                ),
            forall|k: int, y: usize|
                0 <= k < old(post_order)@.len() && #[trigger] self@.succs[old(post_order)@[k] as int].contains(y)
                    ==> finished_before(self@.succs, old(post_order)@, k, y),
        ensures
            final(visited)@.len() == self@.succs.len(),
            final(visited)@[block as int],
            forall|x: int| 0 <= x < self@.succs.len() && old(visited)@[x] ==> #[trigger] final(visited)@[x],
            forall|x: usize| x < self@.succs.len() && final(visited)@[x as int] ==> #[trigger] reaches(self@.succs, self@.entry, x),
            final(post_order)@.no_duplicates(),
            final(post_order)@.len() >= old(post_order)@.len(),
            final(post_order)@.subrange(0, old(post_order)@.len() as int) == old(post_order)@,
            forall|k: int|
                old(post_order)@.len() <= k < final(post_order)@.len() ==> #[trigger] final(post_order)@[k] < self@.succs.len()
                    && final(visited)@[final(post_order)@[k] as int] && !old(visited)@[final(post_order)@[k] as int],
            forall|x: usize|
                x < self@.succs.len() && final(visited)@[x as int] && !old(visited)@[x as int] ==> #[trigger] final(post_order)@.contains(x),
            forall|k: int, y: usize|
                0 <= k < final(post_order)@.len() && #[trigger] self@.succs[final(post_order)@[k] as int].contains(y)
                    ==> y < self@.succs.len() && final(visited)@[y as int],
            !old(visited)@[block as int] ==> final(post_order)@.len() > 0 && final(post_order)@.last() == block,
            forall|k: int, y: usize|
                0 <= k < final(post_order)@.len() && #[trigger] self@.succs[final(post_order)@[k] as int].contains(y)
                    ==> finished_before(self@.succs, final(post_order)@, k, y),
        decreases self@.succs.len() - count_true(old(visited)@),
    {
        if visited[block] {
            return;
        }
        let ghost n = self@.succs.len();
        let ghost succs = self@.succs;
        let ghost v0 = visited@;
        let ghost p0 = post_order@;
        proof {
            self.lemma_wf();
            lemma_count_set(visited@, block as int);
            lemma_count_le(visited@.update(block as int, true));
        }
        visited.set(block, true);
        let succ_list = self.successors(block);
        let mut k: usize = 0;
        while k < succ_list.len()
            invariant
                self.wf(),
                n == self@.succs.len(),
                succs == self@.succs,
                block < n,
                v0.len() == n,
                v0 == old(visited)@,
                !v0[block as int],
                succ_list@.to_set() == succs[block as int],
                forall|j: int| 0 <= j < succ_list@.len() ==> #[trigger] succ_list@[j] < n,
                k <= succ_list@.len(),
                visited@.len() == n,
                visited@[block as int],
                forall|x: int| 0 <= x < n && v0[x] ==> #[trigger] visited@[x],
                forall|x: usize| x < n && visited@[x as int] ==> #[trigger] reaches(succs, self@.entry, x),
                post_order@.no_duplicates(),
                p0.len() <= post_order@.len(),
                post_order@.subrange(0, p0.len() as int) == p0,
                forall|j: int| 0 <= j < p0.len() ==> #[trigger] p0[j] < n && v0[p0[j] as int],
                forall|j: int|
                    p0.len() <= j < post_order@.len() ==> #[trigger] post_order@[j] < n && visited@[post_order@[j] as int]
                        && !v0[post_order@[j] as int] && post_order@[j] != block,
                forall|x: usize|
                    x < n && x != block && visited@[x as int] && !v0[x as int] ==> #[trigger] post_order@.contains(x),
                forall|j: int, y: usize|
                    0 <= j < post_order@.len() && #[trigger] succs[post_order@[j] as int].contains(y) ==> y < n
                        && visited@[y as int],
                forall|j: int| 0 <= j < k ==> visited@[#[trigger] succ_list@[j] as int],
                count_true(visited@) >= count_true(v0) + 1,
                forall|x: usize|
                    x < n && v0[x as int] && !p0.contains(x) ==> #[trigger] reaches(succs, x, block),
                forall|x: usize|
                    x < n && visited@[x as int] && !post_order@.contains(x) && x != block ==> v0[x as int]
                        && !p0.contains(x),
                forall|j: int, y: usize|
                    0 <= j < post_order@.len() && #[trigger] succs[post_order@[j] as int].contains(y)
                        ==> finished_before(succs, post_order@, j, y),
            decreases succ_list@.len() - k,
        {
            let succ = succ_list[k];
            proof {
                assert(succs[block as int].contains(succ)) by {
                    assert(succ_list@.to_set().contains(succ));
                }
                lemma_reaches_step(succs, self@.entry, block, succ);
                assert forall|j: int| 0 <= j < post_order@.len() implies #[trigger] post_order@[j] < n
                    && visited@[post_order@[j] as int] by {
                    if j < p0.len() {
                        assert(post_order@.subrange(0, p0.len() as int)[j] == p0[j]);
                    }
                }
                lemma_count_le(visited@);
                assert(n - count_true(visited@) < n - count_true(v0));
                assert forall|x: usize|
                    x < n && visited@[x as int] && !post_order@.contains(x) implies #[trigger] reaches(succs, x, succ) by {
                    if x == block {
                        lemma_reaches_self(succs, block);
                    }
                    lemma_reaches_step(succs, x, block, succ);
                }
            }
            let ghost vb = visited@;
            let ghost pb = post_order@;
            self.dfs(succ, visited, post_order);
            proof {
                lemma_count_mono(vb, visited@);
                assert(post_order@.subrange(0, p0.len() as int) =~= pb.subrange(0, p0.len() as int)) by {
                    assert forall|j: int| 0 <= j < p0.len() implies post_order@[j] == pb[j] by {
                        assert(post_order@.subrange(0, pb.len() as int)[j] == pb[j]);
                    }
                }
                assert forall|j: int|
                    p0.len() <= j < post_order@.len() implies #[trigger] post_order@[j] < n && visited@[post_order@[j] as int]
                        && !v0[post_order@[j] as int] && post_order@[j] != block by {
                    if j < pb.len() {
                        assert(post_order@[j] == pb[j]) by {
                            assert(post_order@.subrange(0, pb.len() as int)[j] == pb[j]);
                        }
                    }
                }
                assert forall|x: usize|
                    x < n && x != block && visited@[x as int] && !v0[x as int] implies #[trigger] post_order@.contains(x) by {
                    if vb[x as int] {
                        assert(pb.contains(x));
                        let j = choose|j: int| 0 <= j < pb.len() && pb[j] == x;
                        assert(post_order@[j] == x) by {
                            assert(post_order@.subrange(0, pb.len() as int)[j] == pb[j]);
                        }
                    }
                }
                assert forall|j: int| 0 <= j < k + 1 implies visited@[#[trigger] succ_list@[j] as int] by {
                    if j < k {
                        assert(vb[succ_list@[j] as int]);
                    }
                }
                assert forall|x: usize|
                    x < n && visited@[x as int] && !post_order@.contains(x) && x != block implies v0[x as int]
                        && !p0.contains(x) by {
                    if !vb[x as int] {
                        assert(post_order@.contains(x));
                    }
                    if pb.contains(x) {
                        let j = choose|j: int| 0 <= j < pb.len() && pb[j] == x;
                        assert(post_order@[j] == x) by {
                            assert(post_order@.subrange(0, pb.len() as int)[j] == pb[j]);
                        }
                    }
                }
            }
            k = k + 1;
        }
        let ghost pre = post_order@;
        post_order.push(block);
        proof {
            assert(!pre.contains(block)) by {
                if pre.contains(block) {
                    let j = choose|j: int| 0 <= j < pre.len() && pre[j] == block;
                    if j < p0.len() {
                        assert(pre[j] == p0[j]) by {
                            assert(pre.subrange(0, p0.len() as int)[j] == p0[j]);
                        }
                    }
                }
            }
            assert(post_order@.no_duplicates()) by {
                assert forall|a: int, b: int| 0 <= a < b < post_order@.len() implies post_order@[a] != post_order@[b] by {
                    if b == pre.len() {
                        assert(pre[a] != block);
                    } else {
                        assert(pre[a] != pre[b]);
                    }
                }
            }
            assert(post_order@.subrange(0, p0.len() as int) =~= pre.subrange(0, p0.len() as int));
            assert forall|x: usize|
                x < n && visited@[x as int] && !v0[x as int] implies #[trigger] post_order@.contains(x) by {
                if x == block {
                    assert(post_order@[pre.len() as int] == block);
                } else {
                    assert(pre.contains(x));
                    let j = choose|j: int| 0 <= j < pre.len() && pre[j] == x;
                    assert(post_order@[j] == x);
                }
            }
            assert forall|j: int, y: usize|
                0 <= j < post_order@.len() && #[trigger] succs[post_order@[j] as int].contains(y) implies y < n
                    && visited@[y as int] by {
                if j == pre.len() {
                    assert(succ_list@.to_set().contains(y));
                    let i = choose|i: int| 0 <= i < succ_list@.len() && succ_list@[i] == y;
                    assert(visited@[succ_list@[i] as int]);
                } else {
                    assert(post_order@[j] == pre[j]);
                }
            }
            assert forall|j: int|
                p0.len() <= j < post_order@.len() implies #[trigger] post_order@[j] < n && visited@[post_order@[j] as int]
                    && !v0[post_order@[j] as int] by {
                if j < pre.len() {
                    assert(post_order@[j] == pre[j]);
                }
            }
            assert forall|j: int, y: usize|
                0 <= j < post_order@.len() && #[trigger] succs[post_order@[j] as int].contains(y)
                    implies finished_before(succs, post_order@, j, y) by {
                if j < pre.len() {
                    assert(post_order@[j] == pre[j]);
                    assert(post_order@.subrange(0, j) =~= pre.subrange(0, j));
                    assert(finished_before(succs, pre, j, y));
                } else {
                    assert(post_order@.subrange(0, j) =~= pre);
                    assert(succ_list@.to_set().contains(y));
                    let i = choose|i: int| 0 <= i < succ_list@.len() && succ_list@[i] == y;
                    assert(visited@[succ_list@[i] as int]);
                    if !pre.contains(y) {
                        if y == block {
                            lemma_reaches_self(succs, block);
                        } else {
                            assert(v0[y as int] && !p0.contains(y));
                            assert(reaches(succs, y, block));
                        }
                    }
                }
            }
        }
    }

    /// Get all blocks in reverse post-order (for dominance computation).
    ///
    /// Uses DFS from the entry block, visiting successors in increasing
    /// order, to compute the post-order, then reverses it. Exactly the
    /// blocks reachable from the entry are listed, each once, the entry
    /// first, and each successor of a block comes after it unless it
    /// reaches back to it.
    pub fn reverse_post_order(&self) -> (r: Vec<usize>)
        requires
            self.wf(),
        ensures
            r@.no_duplicates(),
            forall|x: usize| #[trigger] r@.contains(x) <==> (x < self@.succs.len() && reaches(self@.succs, self@.entry, x)),
            forall|k: int| 0 <= k < r@.len() ==> #[trigger] r@[k] < self@.succs.len(),
            self@.succs.len() > 0 ==> r@.len() > 0 && r@[0] == self@.entry,
            forall|i: int, v: usize|
                0 <= i < r@.len() && #[trigger] self@.succs[r@[i] as int].contains(v) ==> r@.subrange(
                    i + 1,
                    r@.len() as int,
                ).contains(v) || reaches(self@.succs, v, r@[i]),
    {
        proof {
            self.lemma_wf();
        }
        let n = self.predecessors.len();
        let mut post_order: Vec<usize> = Vec::new();
        if n == 0 {
            return post_order;
        }
        let ghost succs = self@.succs;
        let mut visited = Self::clear_flags(n);
        proof {
            lemma_reaches_self(succs, self.entry);
        }
        self.dfs(self.entry, &mut visited, &mut post_order);
        proof {
            let s = post_order@.to_set();
            assert forall|x: usize| #[trigger] post_order@.contains(x) <==> (x < n && visited@[x as int]) by {
                if post_order@.contains(x) {
                    let j = choose|j: int| 0 <= j < post_order@.len() && post_order@[j] == x;
                }
            }
            assert forall|x: usize, y: usize| s.contains(x) && x < succs.len() && #[trigger] succs[x as int].contains(y) implies s.contains(y) by {
                let j = choose|j: int| 0 <= j < post_order@.len() && post_order@[j] == x;
                assert(succs[post_order@[j] as int].contains(y));
            }
            assert forall|x: usize| x < n && reaches(succs, self.entry, x) implies #[trigger] post_order@.contains(x) by {
                lemma_closed_reach(succs, s, self.entry, x);
            }
        }
        let mut r: Vec<usize> = Vec::new();
        let mut i: usize = post_order.len();
        while i > 0
            invariant
                i <= post_order@.len(),
                r@.len() == post_order@.len() - i,
                forall|j: int| 0 <= j < r@.len() ==> #[trigger] r@[j] == post_order@[post_order@.len() - 1 - j],
            decreases i,
        {
            i = i - 1;
            r.push(post_order[i]);
        }
        proof {
            assert(r@ =~= post_order@.reverse());
            assert forall|x: usize| #[trigger] r@.contains(x) <==> post_order@.contains(x) by {
                if r@.contains(x) {
                    let j = choose|j: int| 0 <= j < r@.len() && r@[j] == x;
                    assert(post_order@[post_order@.len() - 1 - j] == x);
                }
                if post_order@.contains(x) {
                    let j = choose|j: int| 0 <= j < post_order@.len() && post_order@[j] == x;
                    assert(r@[post_order@.len() - 1 - j] == x);
                }
            }
            assert(r@.no_duplicates()) by {
                assert forall|a: int, b: int| 0 <= a < b < r@.len() implies r@[a] != r@[b] by {
                    assert(post_order@[post_order@.len() - 1 - a] != post_order@[post_order@.len() - 1 - b]);
                }
            }
            assert forall|k: int| 0 <= k < r@.len() implies #[trigger] r@[k] < n by {
                assert(post_order@[post_order@.len() - 1 - k] < n);
            }
            let len = post_order@.len() as int;
            assert forall|i: int, v: usize|
                0 <= i < r@.len() && #[trigger] succs[r@[i] as int].contains(v) implies r@.subrange(
                    i + 1,
                    r@.len() as int,
                ).contains(v) || reaches(succs, v, r@[i]) by {
                let k = len - 1 - i;
                assert(r@[i] == post_order@[k]);
                assert(finished_before(succs, post_order@, k, v));
                if post_order@.subrange(0, k).contains(v) {
                    let m = choose|m: int| 0 <= m < k && post_order@.subrange(0, k)[m] == v;
                    assert(r@[len - 1 - m] == v);
                    assert(r@.subrange(i + 1, r@.len() as int)[len - 1 - m - (i + 1)] == v);
                }
            }
        }
        r
    }

    /// Get the entry block index.
    pub fn entry(&self) -> (r: usize)
        ensures
            r == self@.entry,
    {
        self.entry
    }

    /// Get the number of blocks in the CFG.
    pub fn num_blocks(&self) -> (r: usize)
        requires
            self.wf(),
        ensures
            r == self@.succs.len(),
            r == self@.preds.len(),
    {
        self.predecessors.len()
    }

    /// The views of a well-formed graph: the entry is block 0, each edge is
    /// recorded on both ends, and edges join blocks.
    pub proof fn lemma_wf(&self)
        requires
            self.wf(),
        ensures
            self@.entry == 0,
            self@.preds.len() == self@.succs.len(),
            forall|b: int, t: usize|
                0 <= b < self@.succs.len() && t < self@.succs.len() ==> (#[trigger] self@.succs[b].contains(t)
                    <==> self@.preds[t as int].contains(b as usize)),
            forall|b: int, t: usize|
                0 <= b < self@.succs.len() && #[trigger] self@.succs[b].contains(t) ==> t < self@.succs.len(),
    {
        assert forall|b: int, t: usize|
            0 <= b < self@.succs.len() && t < self@.succs.len() implies (#[trigger] self@.succs[b].contains(t)
                <==> self@.preds[t as int].contains(b as usize)) by {
            assert(self@.succs[b] == self.successors@[b]@.to_set());
            assert(self@.preds[t as int] == self.predecessors@[t as int]@.to_set());
            assert(self.successors@[b]@.contains(t) <==> self.predecessors@[t as int]@.contains(b as usize));
        }
        assert forall|b: int, t: usize|
            0 <= b < self@.succs.len() && #[trigger] self@.succs[b].contains(t) implies t < self@.succs.len() by {
            assert(self@.succs[b] == self.successors@[b]@.to_set());
            let k = choose|k: int| 0 <= k < self.successors@[b]@.len() && self.successors@[b]@[k] == t;
        }
    }
}

/// A copy of a list of block indices.
fn copy_usizes(v: &Vec<usize>) -> (r: Vec<usize>)
    ensures
        r@ == v@,
{
    let mut out: Vec<usize> = Vec::new();
    let mut i: usize = 0;
    while i < v.len()
        invariant
            i <= v@.len(),
            out@ == v@.subrange(0, i as int),
        decreases v@.len() - i,
    {
        out.push(v[i]);
        i = i + 1;
    }
    proof {
        assert(v@.subrange(0, v@.len() as int) =~= v@);
    }
    out
}

/// Every edge of a control flow graph is recorded on both ends: `t` is a
/// successor of `b` exactly when `b` is a predecessor of `t`.
pub proof fn lemma_edges_both_ends(g: &ControlFlowGraph, b: usize, t: usize)
    requires
        g.wf(),
        b < g@.succs.len(),
        t < g@.succs.len(),
    ensures
        g@.succs[b as int].contains(t) <==> g@.preds[t as int].contains(b),
{
    assert(g@.succs[b as int] == g.successors@[b as int]@.to_set());
    assert(g@.preds[t as int] == g.predecessors@[t as int]@.to_set());
    assert(g.successors@[b as int]@.contains(t) <==> g.predecessors@[t as int]@.contains(b));
}

} // verus!
