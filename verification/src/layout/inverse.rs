//! Layout edits that undo each other.

use vstd::prelude::*;

use crate::layout::{Layout, LayoutView};

verus! {

/// The views are equal when their parts are.
proof fn lemma_view_eq(a: LayoutView, b: LayoutView)
    requires
        a.order == b.order,
        a.contents =~= b.contents,
        a.cold == b.cold,
        a.num_insts == b.num_insts,
    ensures
        a == b,
{
}

/// Removing the instruction just appended to a block gives back the layout:
/// for a layout `mid` that `append_inst` made from `before`, the
/// instruction is in the block, and `remove_inst` on `mid` gives the view
/// of `before`.
pub proof fn lemma_remove_undoes_append(before: &Layout, mid: &Layout, inst: nat, block: nat)
    requires
        before.wf(),
        mid.wf(),
        before@.inserted(block),
        inst < before@.num_insts,
        before@.block_of(inst) is None,
        mid@ == before@.with_contents(block, before@.contents[block as int].push(inst)),
    ensures
        mid@.block_of(inst) == Some(block),
        mid@.with_contents(block, mid@.contents[block as int].remove(mid@.pos_in_block(inst))) == before@,
{
    let k = before@.order.index_of(block);
    before.lemma_order_bound(k);
    let c = before@.contents[block as int];
    assert(mid@.contents[block as int][c.len() as int] == inst);
    mid.lemma_in_block(block as int, c.len() as int);
    assert(c.push(inst).remove(c.len() as int) =~= c);
    let after = mid@.with_contents(block, mid@.contents[block as int].remove(mid@.pos_in_block(inst)));
    lemma_view_eq(after, before@);
}

/// Removing the instruction just inserted before another gives back the
/// layout: for a layout `mid` that `insert_inst` made from `before`, the
/// instruction is in the block of the one it was put before, and
/// `remove_inst` on `mid` gives the view of `before`.
pub proof fn lemma_remove_undoes_insert(before: &Layout, mid: &Layout, inst: nat, at: nat)
    requires
        before.wf(),
        mid.wf(),
        inst < before@.num_insts,
        before@.block_of(inst) is None,
        before@.block_of(at) is Some,
        mid@ == before@.with_contents(
            before@.block_of(at).unwrap(),
            before@.contents[before@.block_of(at).unwrap() as int].insert(before@.pos_in_block(at), inst),
        ),
    ensures
        mid@.block_of(inst) == before@.block_of(at),
        mid@.with_contents(
            before@.block_of(at).unwrap(),
            mid@.contents[before@.block_of(at).unwrap() as int].remove(mid@.pos_in_block(inst)),
        ) == before@,
{
    let b = before@.block_of(at).unwrap();
    let c = before@.contents[b as int];
    assert(c.contains(at));
    let q = c.index_of(at);
    before.lemma_in_block(b as int, q);
    let p = before@.pos_in_block(at);
    assert(mid@.contents[b as int][p] == inst);
    mid.lemma_in_block(b as int, p);
    assert(c.insert(p, inst).remove(p) =~= c);
    let after = mid@.with_contents(b, mid@.contents[b as int].remove(mid@.pos_in_block(inst)));
    lemma_view_eq(after, before@);
}

} // verus!
