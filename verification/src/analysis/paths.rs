//! Dominance by paths: block `a` dominates block `b` when `b` can be
//! reached from the entry and every path from the entry to `b` passes
//! through `a`.

use vstd::prelude::*;

use crate::analysis::cfg::{is_path, reaches};

verus! {

/// `b` can be reached from `from` along a path that does not pass through `a`.
pub open spec fn reaches_avoiding(succs: Seq<Set<usize>>, from: usize, a: usize, b: usize) -> bool {
    exists|p: Seq<usize>| #[trigger] is_path(succs, p) && p[0] == from && p.last() == b && !p.contains(a)
}

/// Block `a` dominates block `b` from `from`: `b` can be reached from
/// `from`, and no path from `from` to `b` avoids `a`.
pub open spec fn path_dominates(succs: Seq<Set<usize>>, from: usize, a: usize, b: usize) -> bool {
    reaches(succs, from, b) && !reaches_avoiding(succs, from, a, b)
}

/// Block `a` dominates block `b` and is another block.
pub open spec fn strictly_dominates(succs: Seq<Set<usize>>, from: usize, a: usize, b: usize) -> bool {
    a != b && path_dominates(succs, from, a, b)
}

/// Block `d` is the immediate dominator of `b`: a block that strictly
/// dominates `b` and that every block strictly dominating `b` dominates.
pub open spec fn immediate_dominator_of(succs: Seq<Set<usize>>, from: usize, d: usize, b: usize) -> bool {
    &&& strictly_dominates(succs, from, d, b)
    &&& forall|c: usize| #[trigger] strictly_dominates(succs, from, c, b) ==> path_dominates(succs, from, c, d)
}

/// A block that dominates `b` lies on every path from `from` to `b`.
pub proof fn lemma_dominator_on_paths(succs: Seq<Set<usize>>, from: usize, a: usize, b: usize, p: Seq<usize>)
    requires
        path_dominates(succs, from, a, b),
        is_path(succs, p),
        p[0] == from,
        p.last() == b,
    ensures
        p.contains(a),
{
}

/// A block that something reaches dominates itself.
pub proof fn lemma_dominates_itself(succs: Seq<Set<usize>>, from: usize, b: usize)
    requires
        reaches(succs, from, b),
    ensures
        path_dominates(succs, from, b, b),
{
    assert forall|p: Seq<usize>| #[trigger] is_path(succs, p) && p[0] == from && p.last() == b implies p.contains(b) by {
        assert(p[p.len() - 1] == b);
    }
}

/// The start dominates every block it reaches.
pub proof fn lemma_start_dominates(succs: Seq<Set<usize>>, from: usize, b: usize)
    requires
        reaches(succs, from, b),
    ensures
        path_dominates(succs, from, from, b),
{
    assert forall|p: Seq<usize>| #[trigger] is_path(succs, p) && p[0] == from && p.last() == b implies p.contains(from) by {
        assert(p[0] == from);
    }
}

/// The blocks of a path up to position `i` form a path.
proof fn lemma_prefix_path(succs: Seq<Set<usize>>, p: Seq<usize>, i: int)
    requires
        is_path(succs, p),
        0 <= i < p.len(),
    ensures
        is_path(succs, p.subrange(0, i + 1)),
        p.subrange(0, i + 1)[0] == p[0],
        p.subrange(0, i + 1).last() == p[i],
        forall|x: usize| !p.contains(x) ==> !p.subrange(0, i + 1).contains(x),
{
    let q = p.subrange(0, i + 1);
    assert forall|k: int| 0 <= k < q.len() - 1 implies succs[q[k] as int].contains(#[trigger] q[k + 1]) by {
        assert(q[k] == p[k] && q[k + 1] == p[k + 1]);
    }
    assert forall|k: int| 0 <= k < q.len() implies (#[trigger] q[k]) < succs.len() by {
        assert(q[k] == p[k]);
    }
    assert forall|x: usize| !p.contains(x) implies !q.contains(x) by {
        if q.contains(x) {
            let k = choose|k: int| 0 <= k < q.len() && q[k] == x;
            assert(p[k] == x);
        }
    }
}

/// Dominance is transitive.
pub proof fn lemma_dominates_transitive(succs: Seq<Set<usize>>, from: usize, x: usize, y: usize, z: usize)
    requires
        path_dominates(succs, from, x, y),
        path_dominates(succs, from, y, z),
    ensures
        path_dominates(succs, from, x, z),
{
    if reaches_avoiding(succs, from, x, z) {
        let p = choose|p: Seq<usize>| #[trigger] is_path(succs, p) && p[0] == from && p.last() == z && !p.contains(x);
        assert(p.contains(y));
        let i = choose|i: int| 0 <= i < p.len() && p[i] == y;
        lemma_prefix_path(succs, p, i);
        let q = p.subrange(0, i + 1);
        assert(is_path(succs, q) && q[0] == from && q.last() == y && !q.contains(x));
    }
}

/// The last position of `x` in `p`.
proof fn lemma_last_index(p: Seq<usize>, x: usize) -> (i: int)
    requires
        p.contains(x),
    ensures
        0 <= i < p.len(),
        p[i] == x,
        forall|k: int| i < k < p.len() ==> p[k] != x,
    decreases p.len(),
{
    if p.last() == x {
        p.len() - 1
    } else {
        let j = choose|j: int| 0 <= j < p.len() && p[j] == x;
        assert(j < p.len() - 1);
        assert(p.drop_last()[j] == x);
        let i = lemma_last_index(p.drop_last(), x);
        assert forall|k: int| i < k < p.len() implies p[k] != x by {
            if k < p.len() - 1 {
                assert(p.drop_last()[k] == p[k]);
            }
        }
        i
    }
}

/// A path to `a` that avoids `c`, followed by the rest of a path to `b`
/// after its last `a`, is a path to `b` that avoids `c` when that rest does.
proof fn lemma_splice_avoiding(
    succs: Seq<Set<usize>>,
    from: usize,
    a: usize,
    c: usize,
    b: usize,
    p: Seq<usize>,
    q: Seq<usize>,
    i: int,
)
    requires
        is_path(succs, p),
        p[0] == from,
        p.last() == b,
        0 <= i < p.len() - 1,
        p[i] == a,
        forall|k: int| i < k < p.len() ==> p[k] != c,
        is_path(succs, q),
        q[0] == from,
        q.last() == a,
        !q.contains(c),
    ensures
        reaches_avoiding(succs, from, c, b),
{
    let rest = p.subrange(i + 1, p.len() as int);
    let r = q + rest;
    assert(succs[p[i] as int].contains(p[i + 1]));
    assert forall|k: int| 0 <= k < r.len() implies (#[trigger] r[k]) < succs.len() by {
        if k < q.len() {
            assert(r[k] == q[k]);
        } else {
            assert(r[k] == p[i + 1 + k - q.len()]);
        }
    }
    assert forall|k: int| 0 <= k < r.len() - 1 implies succs[r[k] as int].contains(#[trigger] r[k + 1]) by {
        if k < q.len() - 1 {
            assert(r[k] == q[k] && r[k + 1] == q[k + 1]);
        } else if k == q.len() - 1 {
            assert(r[k] == a && r[k + 1] == p[i + 1]);
        } else {
            let m = i + 1 + k - q.len();
            assert(r[k] == p[m] && r[k + 1] == p[m + 1]);
        }
    }
    assert(is_path(succs, r));
    assert(r[0] == from);
    assert(r.last() == p[p.len() - 1]);
    assert(!r.contains(c)) by {
        if r.contains(c) {
            let k = choose|k: int| 0 <= k < r.len() && r[k] == c;
            if k < q.len() {
                assert(q[k] == c);
            } else {
                assert(p[i + 1 + k - q.len()] == c);
            }
        }
    }
}

/// Two blocks that both strictly dominate `b` are ordered: one of them
/// dominates the other.
pub proof fn lemma_dominators_ordered(succs: Seq<Set<usize>>, from: usize, a: usize, c: usize, b: usize)
    requires
        strictly_dominates(succs, from, a, b),
        strictly_dominates(succs, from, c, b),
    ensures
        path_dominates(succs, from, a, c) || path_dominates(succs, from, c, a),
{
    if a == c {
        let p = choose|p: Seq<usize>| #[trigger] is_path(succs, p) && p[0] == from && p.last() == b;
        assert(p.contains(a));
        let i = choose|i: int| 0 <= i < p.len() && p[i] == a;
        lemma_prefix_path(succs, p, i);
        lemma_dominates_itself(succs, from, a);
        return;
    }
    let p = choose|p: Seq<usize>| #[trigger] is_path(succs, p) && p[0] == from && p.last() == b;
    assert(p.contains(a) && p.contains(c));
    let ia = lemma_last_index(p, a);
    let ic = lemma_last_index(p, c);
    assert(p[p.len() - 1] == b);
    lemma_prefix_path(succs, p, ia);
    lemma_prefix_path(succs, p, ic);
    let pa = p.subrange(0, ia + 1);
    let pc = p.subrange(0, ic + 1);
    assert(reaches(succs, from, a)) by {
        assert(is_path(succs, pa) && pa[0] == from && pa.last() == a);
    }
    assert(reaches(succs, from, c)) by {
        assert(is_path(succs, pc) && pc[0] == from && pc.last() == c);
    }
    if !path_dominates(succs, from, a, c) && !path_dominates(succs, from, c, a) {
        let q1 = choose|q: Seq<usize>| #[trigger] is_path(succs, q) && q[0] == from && q.last() == c && !q.contains(a);
        let q2 = choose|q: Seq<usize>| #[trigger] is_path(succs, q) && q[0] == from && q.last() == a && !q.contains(c);
        if ia > ic {
            lemma_splice_avoiding(succs, from, a, c, b, p, q2, ia);
        } else {
            assert(ic != ia);
            lemma_splice_avoiding(succs, from, c, a, b, p, q1, ic);
        }
    }
}

/// One step from a block reached while avoiding `a`, to a block other than
/// `a`, is still reached while avoiding `a`.
pub proof fn lemma_avoiding_step(succs: Seq<Set<usize>>, from: usize, a: usize, x: usize, y: usize)
    requires
        reaches_avoiding(succs, from, a, x),
        y < succs.len(),
        succs[x as int].contains(y),
        y != a,
    ensures
        reaches_avoiding(succs, from, a, y),
{
    let p = choose|p: Seq<usize>| #[trigger] is_path(succs, p) && p[0] == from && p.last() == x && !p.contains(a);
    let q = p.push(y);
    assert forall|k: int| 0 <= k < q.len() - 1 implies succs[q[k] as int].contains(#[trigger] q[k + 1]) by {
        if k < p.len() - 1 {
            assert(q[k] == p[k] && q[k + 1] == p[k + 1]);
        } else {
            assert(q[k] == x);
        }
    }
    assert forall|k: int| 0 <= k < q.len() implies (#[trigger] q[k]) < succs.len() by {
        if k < p.len() {
            assert(q[k] == p[k]);
        }
    }
    assert(q[0] == from);
    assert(!q.contains(a)) by {
        if q.contains(a) {
            let k = choose|k: int| 0 <= k < q.len() && q[k] == a;
            if k < p.len() {
                assert(p[k] == a);
            }
        }
    }
    assert(is_path(succs, q) && q[0] == from && q.last() == y && !q.contains(a));
}

/// The start is reached from itself while avoiding any other block.
pub proof fn lemma_avoiding_start(succs: Seq<Set<usize>>, from: usize, a: usize)
    requires
        from < succs.len(),
        from != a,
    ensures
        reaches_avoiding(succs, from, a, from),
{
    let p = seq![from];
    assert(is_path(succs, p));
    assert(!p.contains(a)) by {
        if p.contains(a) {
            let k = choose|k: int| 0 <= k < p.len() && p[k] == a;
        }
    }
}

/// A set that holds `from` and, with each member, its successors other
/// than `a`, holds every block reached from `from` while avoiding `a`.
pub proof fn lemma_closed_avoiding(succs: Seq<Set<usize>>, s: Set<usize>, from: usize, a: usize, b: usize)
    requires
        s.contains(from),
        forall|x: usize, y: usize|
            s.contains(x) && x < succs.len() && #[trigger] succs[x as int].contains(y) && y != a ==> s.contains(y),
        reaches_avoiding(succs, from, a, b),
    ensures
        s.contains(b),
{
    let p = choose|p: Seq<usize>| #[trigger] is_path(succs, p) && p[0] == from && p.last() == b && !p.contains(a);
    lemma_avoiding_path_in(succs, s, a, p, p.len() - 1);
}

/// Every block of a path that avoids `a` and starts in a set closed as in
/// `lemma_closed_avoiding` stays in it.
proof fn lemma_avoiding_path_in(succs: Seq<Set<usize>>, s: Set<usize>, a: usize, p: Seq<usize>, i: int)
    requires
        is_path(succs, p),
        !p.contains(a),
        s.contains(p[0]),
        forall|x: usize, y: usize|
            s.contains(x) && x < succs.len() && #[trigger] succs[x as int].contains(y) && y != a ==> s.contains(y),
        0 <= i < p.len(),
    ensures
        s.contains(p[i]),
    decreases i,
{
    if i > 0 {
        lemma_avoiding_path_in(succs, s, a, p, i - 1);
        let j = i - 1;
        assert(succs[p[j] as int].contains(p[j + 1]));
        assert(p[i] != a);
    }
}

} // verus!
