//! Float-to-fixed16x16 transformation pass.
//!
//! Float operations are rewritten to integer operations on a 16.16
//! fixed-point representation, and float types become `i32`. The value of
//! a float constant in fixed point is computed by a function the caller
//! hands in.

use vstd::prelude::*;

use crate::{
    condcodes::{FloatCC, IntCC},
    dfg::{
        assign_result_types, infer_type,
        inst_data::{inst_view, InstDataView},
        set_type, Immediate, InstData, Opcode,
    },
    entity::{Block, Inst},
    function::Function,
    ir_verifier::{all_errs, report::{error_list_text, errors_text}, verify},
    layout::{opt_at, opt_blk, opt_ins, LayoutView, MAX_INSTS},
    text::push_str,
    builder::insert::next_index,
    signature::Signature,
    types::Type,
    value::Value,
};

verus! {

/// Error type for transformation errors
#[derive(Debug, Clone)]
pub struct TransformError {
    /// What went wrong
    pub message: String,
}

impl TransformError {
    /// Create an error with this message.
    pub fn new(message: String) -> (r: Self)
        ensures
            r.message == message,
    {
        Self { message }
    }
}

/// The type a value of type `t` has in fixed point: `i32` for the float
/// type, `t` itself otherwise.
pub open spec fn fixed_type(t: Type) -> Type {
    if t == Type::F32 {
        Type::I32
    } else {
        t
    }
}

/// A list of types, each in fixed point.
pub open spec fn fixed_types(ts: Seq<Type>) -> Seq<Type> {
    ts.map_values(|t: Type| fixed_type(t))
}

/// The integer condition code a float comparison becomes, as fixed point
/// has no NaN: ordered and unordered variants collapse to the plain
/// comparison; `ord` and `uno` have none, as they are constant.
pub open spec fn int_cond_of(c: FloatCC) -> Option<IntCC> {
    match c {
        FloatCC::Equal => Some(IntCC::Equal),
        FloatCC::NotEqual => Some(IntCC::NotEqual),
        FloatCC::LessThan => Some(IntCC::SignedLessThan),
        FloatCC::LessThanOrEqual => Some(IntCC::SignedLessThanOrEqual),
        FloatCC::GreaterThan => Some(IntCC::SignedGreaterThan),
        FloatCC::GreaterThanOrEqual => Some(IntCC::SignedGreaterThanOrEqual),
        FloatCC::Unordered => None,
        FloatCC::Ordered => None,
        FloatCC::UnorderedOrEqual => Some(IntCC::Equal),
        FloatCC::OrderedNotEqual => Some(IntCC::NotEqual),
        FloatCC::UnorderedOrLessThan => Some(IntCC::SignedLessThan),
        FloatCC::UnorderedOrLessThanOrEqual => Some(IntCC::SignedLessThanOrEqual),
        FloatCC::UnorderedOrGreaterThan => Some(IntCC::SignedGreaterThan),
        FloatCC::UnorderedOrGreaterThanOrEqual => Some(IntCC::SignedGreaterThanOrEqual),
    }
}

/// What a float comparison of `a0` and `a1` into `r0` becomes: the integer
/// comparison of the same operands, or, for `uno` (never true without NaN)
/// and `ord` (always true), the constant 0 or 1.
pub open spec fn compare_rewrite(c: FloatCC, a0: Value, a1: Value, r0: Value) -> InstDataView {
    match int_cond_of(c) {
        Some(ic) => inst_view(
            Opcode::Icmp { cond: ic },
            seq![a0, a1],
            seq![r0],
            None,
            None,
            Some(Immediate::IntCondCode(ic)),
        ),
        None => inst_view(
            Opcode::Iconst,
            seq![],
            seq![r0],
            None,
            None,
            Some(Immediate::I64(if c is Ordered { 1 } else { 0 })),
        ),
    }
}

/// The value an integer addition, subtraction or multiplication computes
/// from two operands, before wrapping to 32 bits; none for other opcodes.
pub open spec fn int_arith_value(op: Opcode, x: int, y: int) -> Option<int> {
    match op {
        Opcode::Iadd => Some(x + y),
        Opcode::Isub => Some(x - y),
        Opcode::Imul => Some(x * y),
        _ => None,
    }
}

/// In 16.16 fixed point the sum and the difference of two numbers are the
/// sum and the difference of their representations: what the pass makes of
/// a float addition or subtraction computes exactly that, from the same
/// operands into the same result.
pub proof fn lemma_add_sub_faithful<F: Fn(u32) -> i32>(
    f: Function,
    n0: nat,
    fixed_of: F,
    d: InstData,
    i: nat,
    b: nat,
    x: int,
    y: int,
)
    requires
        converted(f, n0, fixed_of, d, i, b),
        d.opcode is Fadd || d.opcode is Fsub,
    ensures
        int_arith_value(view_at(f, i).opcode, x * 65536, y * 65536) == Some(
            (if d.opcode is Fadd {
                x + y
            } else {
                x - y
            }) * 65536,
        ),
        view_at(f, i).args == seq![d.args@[0], d.args@[1]],
        view_at(f, i).results == seq![d.results@[0]],
{
    assert(x * 65536 + y * 65536 == (x + y) * 65536) by (nonlinear_arith);
    assert(x * 65536 - y * 65536 == (x - y) * 65536) by (nonlinear_arith);
}

/// The signed 64-bit product of two 32-bit bit patterns read as signed.
pub open spec fn product64(x: u32, y: u32) -> i64 {
    ((x as i32) as int * (y as i32) as int) as i64
}

/// What a 32-bit integer operation computes on two operands, as bit
/// patterns: the high and low words of their signed 64-bit product, a
/// shift left, a logical shift right, or a bitwise or; none for others.
pub open spec fn u32_binop(op: Opcode, x: u32, y: u32) -> Option<u32> {
    let p = product64(x, y);
    match op {
        Opcode::Imulh => Some((p >> 32u64) as u32),
        Opcode::Imul => Some(p as u32),
        Opcode::Ishl => Some(x << (y & 31u32)),
        Opcode::Ishr => Some(x >> (y & 31u32)),
        Opcode::Ior => Some(x | y),
        _ => None,
    }
}

/// The product of two 16.16 numbers, from the bits of their 64-bit
/// product: bits 16 to 47.
proof fn lemma_middle_word(p: i64)
    ensures
        (((p >> 32u64) as u32) << 16u32) | ((p as u32) >> 16u32) == (p >> 16u64) as u32,
{
    assert((((p >> 32u64) as u32) << 16u32) | ((p as u32) >> 16u32) == (p >> 16u64) as u32) by (bit_vector);
}

/// The instructions a float multiplication becomes compute the 16.16
/// product of its operands: on operands `x` and `y`, the constant 16, the
/// high and low words of the 64-bit product, the high word shifted left and
/// the low word shifted right by it, and their or, each taking the values
/// the ones before it define, give the middle 32 bits of the product,
/// `(x * y) >> 16`.
pub proof fn lemma_fmul_faithful(base: u32, a0: Value, a1: Value, r0: Value, x: u32, y: u32)
    ensures
        ({
            let ds = fmul_data(base, a0, a1, r0);
            let s16 = ds[0].results[0];
            let hi = ds[1].results[0];
            let lo = ds[2].results[0];
            let hs = ds[3].results[0];
            let ls = ds[4].results[0];
            &&& ds[0].imm == Some(Immediate::I64(16))
            &&& ds[1].args == seq![a0, a1] && ds[2].args == seq![a0, a1]
            &&& ds[3].args == seq![hi, s16] && ds[4].args == seq![lo, s16]
            &&& ds[5].args == seq![hs, ls] && ds[5].results == seq![r0]
            &&& u32_binop(ds[1].opcode, x, y) matches Some(h) && u32_binop(ds[2].opcode, x, y) matches Some(l)
                && u32_binop(ds[3].opcode, h, 16) matches Some(h2) && u32_binop(ds[4].opcode, l, 16) matches Some(l2)
                && u32_binop(ds[5].opcode, h2, l2) == Some(
                (product64(x, y) >> 16u64) as u32,
            )
        }),
{
    lemma_middle_word(product64(x, y));
    assert((16u32 & 31u32) == 16u32) by (bit_vector);
}

/// The integer condition code a float condition becomes holds on two
/// fixed-point values exactly when the float condition holds on the floats
/// they stand for; where there is none, the float condition is the same
/// for all values.
pub proof fn lemma_int_cond_faithful(c: FloatCC, a: i32, b: i32, a2: i32, b2: i32)
    ensures
        int_cond_of(c) matches Some(ic) ==> ic.spec_holds(a, b) == c.spec_holds_ordered(a, b),
        int_cond_of(c) is None ==> c.spec_holds_ordered(a, b) == c.spec_holds_ordered(a2, b2),
{
}

/// What the rewrite of a float comparison computes on two fixed-point
/// values `a` and `b` (which are in the order of the floats they stand for):
/// the integer comparison holds, or the constant is 1, exactly when the
/// float condition holds on those values; the constant is 0 or 1.
pub proof fn lemma_compare_rewrite_faithful(c: FloatCC, x: Value, y: Value, r: Value, a: i32, b: i32)
    ensures
        compare_rewrite(c, x, y, r).args == seq![x, y] || compare_rewrite(c, x, y, r).args.len() == 0,
        compare_rewrite(c, x, y, r).results == seq![r],
        match compare_rewrite(c, x, y, r).opcode {
            Opcode::Icmp { cond } => cond.spec_holds(a, b) == c.spec_holds_ordered(a, b)
                && compare_rewrite(c, x, y, r).args == seq![x, y],
            Opcode::Iconst => match compare_rewrite(c, x, y, r).imm {
                Some(Immediate::I64(k)) => (k == 0 || k == 1) && (k == 1) == c.spec_holds_ordered(a, b),
                _ => false,
            },
            _ => false,
        },
{
}

/// Whether `after` holds the instructions of `before`, but for the data of
/// instruction `k`, which is `d`.
pub open spec fn data_replaced(before: Seq<InstData>, after: Seq<InstData>, k: int, d: InstDataView) -> bool {
    &&& after.len() == before.len()
    &&& 0 <= k < before.len()
    &&& after[k]@ == d
    &&& forall|j: int| 0 <= j < before.len() && j != k ==> after[j] == before[j]
}

/// Whether `after` is `before` with only the data of instruction `k`
/// replaced by `d` and the type of value `v` set to `i32`.
pub open spec fn rewritten(before: Function, after: Function, inst: Inst, d: InstDataView, v: Value) -> bool {
    &&& data_replaced(before.dfg.insts@, after.dfg.insts@, inst.0 as int, d)
    &&& after.dfg.value_types@ == set_type(before.dfg.value_types@, v.0 as nat, Type::I32)
    &&& after.layout == before.layout
    &&& after.blocks == before.blocks
    &&& after.signature == before.signature
    &&& after.name == before.name
}

/// Convert function signature: float params/returns become `i32`.
pub fn convert_signature(sig: &mut Signature)
    ensures
        final(sig).params@ == fixed_types(old(sig).params@),
        final(sig).returns@ == fixed_types(old(sig).returns@),
{
    let mut i: usize = 0;
    while i < sig.params.len()
        invariant
            i <= sig.params@.len(),
            sig.params@.len() == old(sig).params@.len(),
            forall|j: int| 0 <= j < i ==> sig.params@[j] == fixed_type(old(sig).params@[j]),
            forall|j: int| i <= j < sig.params@.len() ==> sig.params@[j] == old(sig).params@[j],
            sig.returns@ == old(sig).returns@,
        decreases sig.params@.len() - i,
    {
        if sig.params[i] == Type::F32 {
            sig.params.set(i, Type::I32);
        }
        i = i + 1;
    }
    let mut i: usize = 0;
    while i < sig.returns.len()
        invariant
            i <= sig.returns@.len(),
            sig.returns@.len() == old(sig).returns@.len(),
            forall|j: int| 0 <= j < i ==> sig.returns@[j] == fixed_type(old(sig).returns@[j]),
            forall|j: int| i <= j < sig.returns@.len() ==> sig.returns@[j] == old(sig).returns@[j],
            sig.params@ == fixed_types(old(sig).params@),
        decreases sig.returns@.len() - i,
    {
        if sig.returns[i] == Type::F32 {
            sig.returns.set(i, Type::I32);
        }
        i = i + 1;
    }
    proof {
        assert(sig.params@ =~= fixed_types(old(sig).params@));
        assert(sig.returns@ =~= fixed_types(old(sig).returns@));
    }
}

/// Put `data` in place of the data of `inst` and give value `v` the type
/// `i32`.
fn rewrite(func: &mut Function, inst: Inst, data: InstData, v: Value)
    requires
        inst.0 < old(func).dfg.insts@.len(),
    ensures
        rewritten(*old(func), *final(func), inst, data@, v),
{
    let ghost d = data@;
    match func.dfg.inst_data_mut(inst) {
        Some(slot) => {
            *slot = data;
        },
        None => {},
    }
    func.dfg.set_value_type(v, Type::I32);
    proof {
        assert(func.dfg.insts@[inst.0 as int]@ == d);
    }
}

/// The data of instruction `inst`, where there is one.
pub open spec fn data_of(f: Function, inst: Inst) -> InstData {
    f.dfg.insts@[inst.0 as int]
}

/// Whether `inst` has data with at least `a` arguments and `r` results.
pub open spec fn has_operands(f: Function, inst: Inst, a: nat, r: nat) -> bool {
    inst.0 < f.dfg.insts@.len() ==> data_of(f, inst).args@.len() >= a && data_of(f, inst).results@.len()
        >= r
}

/// The bits of the float constant that instruction `inst` holds, if it
/// holds one.
pub open spec fn fconst_bits(f: Function, inst: Inst) -> Option<u32> {
    if inst.0 < f.dfg.insts@.len() {
        match data_of(f, inst).imm {
            Some(Immediate::F32Bits(bits)) => Some(bits),
            _ => None,
        }
    } else {
        None
    }
}

/// Whether `after` is `before` with the float constant `inst`, of bits
/// `bits`, replaced by an integer constant of a value `fixed_of` may give
/// for them, and its result typed `i32`.
pub open spec fn fconst_converted<F: Fn(u32) -> i32>(
    before: Function,
    after: Function,
    inst: Inst,
    fixed_of: F,
    bits: u32,
) -> bool {
    exists|v: i32|
        #![trigger call_ensures(fixed_of, (bits,), v)]
        call_ensures(fixed_of, (bits,), v) && rewritten(
            before,
            after,
            inst,
            inst_view(
                Opcode::Iconst,
                seq![],
                seq![data_of(before, inst).results@[0]],
                None,
                None,
                Some(Immediate::I64(v as i64)),
            ),
            data_of(before, inst).results@[0],
        )
}

/// The contents of a block after `j` new instructions, numbered from `n`
/// on, were placed in order right after position `p`.
pub open spec fn after_run(c: Seq<nat>, p: int, n: nat, j: nat) -> Seq<nat> {
    c.subrange(0, p + 1) + Seq::new(j, |t: int| (n + t) as nat) + c.subrange(p + 1, c.len() as int)
}

/// The contents of a block with the instruction at position `p` replaced
/// by `j` new instructions numbered from `n` on.
pub open spec fn spliced(c: Seq<nat>, p: int, n: nat, j: nat) -> Seq<nat> {
    c.subrange(0, p) + Seq::new(j, |t: int| (n + t) as nat) + c.subrange(p + 1, c.len() as int)
}

/// Giving a type to values that already have one changes nothing.
proof fn lemma_assign_typed(types: Seq<Type>, v: Value, t: Option<Type>)
    requires
        (v.0 as nat) < types.len(),
    ensures
        assign_result_types(types, seq![v], t) == types,
{
    reveal_with_fuel(assign_result_types, 2);
    assert(seq![v].drop_last() =~= Seq::<Value>::empty());
}

/// Create an instruction of data `data` and place it after those already
/// placed after position `p` of the block: right before `next`, the
/// instruction that followed, or at the end of the block when none did.
fn emit(
    func: &mut Function,
    data: InstData,
    next: Option<Inst>,
    block: Block,
    Ghost(c): Ghost<Seq<nat>>,
    Ghost(p): Ghost<int>,
    Ghost(n): Ghost<nat>,
    Ghost(j): Ghost<nat>,
) -> (r: Inst)
    requires
        old(func).wf(),
        old(func).dfg.insts@.len() == n + j,
        n + j < MAX_INSTS,
        0 <= p < c.len(),
        old(func).layout@.inserted(block.0 as nat),
        old(func).layout@.contents[block.0 as int] == after_run(c, p, n, j),
        next == opt_ins(opt_at(c, p + 1)),
    ensures
        final(func).wf(),
        r.0 == n + j,
        final(func).dfg.insts@ == old(func).dfg.insts@.push(data),
        final(func).dfg.value_types@ == assign_result_types(
            old(func).dfg.value_types@,
            data.results@,
            infer_type(data.opcode, data.ty),
        ),
        final(func).layout@ == (LayoutView {
            num_insts: old(func).layout@.num_insts + 1,
            ..old(func).layout@
        }).with_contents(block.0 as nat, after_run(c, p, n, j + 1)),
        final(func).blocks == old(func).blocks,
        final(func).signature == old(func).signature,
        final(func).name == old(func).name,
{
    let ghost b = block.0 as int;
    proof {
        func.lemma_fresh();
        let k = func.layout@.order.index_of(block.0 as nat);
        func.layout.lemma_order_bound(k);
    }
    let inst = func.create_inst(data);
    let ghost cur = func.layout@.contents[b];
    proof {
        assert(cur == after_run(c, p, n, j));
        assert(func.layout@.block_of(inst.0 as nat) == old(func).layout@.block_of(inst.0 as nat));
    }
    match next {
        Some(nx) => {
            proof {
                assert(cur[p + 1 + j] == c[p + 1]);
                func.layout.lemma_in_block(b, p + 1 + j);
                func.layout.lemma_contents_bound(b, p + 1 + j);
                assert(nx.0 as nat == cur[p + 1 + j]);
            }
            func.layout.insert_inst(inst, nx);
            proof {
                assert(cur.insert(p + 1 + j, n + j) =~= after_run(c, p, n, j + 1));
            }
        },
        None => {
            func.append_inst(inst, block);
            proof {
                assert(cur.push(n + j) =~= after_run(c, p, n, j + 1));
            }
        },
    }
    proof {
        assert(func.layout@.contents =~= old(func).layout@.contents.update(b, after_run(c, p, n, j + 1)));
    }
    inst
}

/// Whether `after` is `before` with instruction `inst` of block `block`
/// replaced, at its place, by new instructions of data `ds`, numbered in
/// order from the number of instructions on, and with value types `types`.
pub open spec fn expanded(
    before: Function,
    after: Function,
    inst: Inst,
    block: Block,
    ds: Seq<InstDataView>,
    types: Seq<Type>,
) -> bool {
    let n = before.dfg.insts@.len();
    let c = before.layout@.contents[block.0 as int];
    let p = before.layout@.pos_in_block(inst.0 as nat);
    &&& after.wf()
    &&& after.dfg.insts@.len() == n + ds.len()
    &&& after.dfg.insts@.subrange(0, n as int) == before.dfg.insts@
    &&& forall|j: int| 0 <= j < ds.len() ==> #[trigger] after.dfg.insts@[n + j]@ == ds[j]
    &&& after.dfg.value_types@ == types
    &&& after.layout@ == (LayoutView {
        num_insts: before.layout@.num_insts + ds.len(),
        ..before.layout@
    }).with_contents(block.0 as nat, spliced(c, p, n, ds.len()))
    &&& after.blocks == before.blocks
    &&& after.signature == before.signature
    &&& after.name == before.name
}

/// The value numbered `base + k`.
pub open spec fn val(base: u32, k: int) -> Value {
    Value((base + k) as u32)
}

/// The instructions a fixed-point multiplication of `a0` by `a1` into `r0`
/// is made of, its temporaries numbered from `base` on: the constant 16,
/// the high and low words of the product, the high word shifted left and
/// the low word shifted right by 16, and their bitwise or.
pub open spec fn fmul_data(base: u32, a0: Value, a1: Value, r0: Value) -> Seq<InstDataView> {
    let hi = val(base, 0);
    let lo = val(base, 1);
    let hi_shifted = val(base, 2);
    let lo_shifted = val(base, 3);
    let shift_16 = val(base, 4);
    seq![
        inst_view(Opcode::Iconst, seq![], seq![shift_16], None, None, Some(Immediate::I64(16))),
        inst_view(Opcode::Imulh, seq![a0, a1], seq![hi], None, None, None),
        inst_view(Opcode::Imul, seq![a0, a1], seq![lo], None, None, None),
        inst_view(Opcode::Ishl, seq![hi, shift_16], seq![hi_shifted], None, None, None),
        inst_view(Opcode::Ishr, seq![lo, shift_16], seq![lo_shifted], None, None, None),
        inst_view(Opcode::Ior, seq![hi_shifted, lo_shifted], seq![r0], None, None, None),
    ]
}

/// The value types after a fixed-point multiplication into `r0` gave its
/// five temporaries, and then `r0`, the type `i32`.
pub open spec fn fmul_types(t: Seq<Type>, base: u32, r0: Value) -> Seq<Type> {
    let t1 = set_type(t, val(base, 0).0 as nat, Type::I32);
    let t2 = set_type(t1, val(base, 1).0 as nat, Type::I32);
    let t3 = set_type(t2, val(base, 2).0 as nat, Type::I32);
    let t4 = set_type(t3, val(base, 3).0 as nat, Type::I32);
    let t5 = set_type(t4, val(base, 4).0 as nat, Type::I32);
    set_type(t5, r0.0 as nat, Type::I32)
}

/// The instructions a fixed-point division of `a0` by `a1` into `r0` is
/// made of, its temporaries numbered from `base` on: the constant 16, `a0`
/// shifted left by 16, and its quotient by `a1`.
pub open spec fn fdiv_data(base: u32, a0: Value, a1: Value, r0: Value) -> Seq<InstDataView> {
    let a_shifted = val(base, 0);
    let shift_16 = val(base, 1);
    seq![
        inst_view(Opcode::Iconst, seq![], seq![shift_16], None, None, Some(Immediate::I64(16))),
        inst_view(Opcode::Ishl, seq![a0, shift_16], seq![a_shifted], None, None, None),
        inst_view(Opcode::Idiv, seq![a_shifted, a1], seq![r0], None, None, None),
    ]
}

/// The value types after a fixed-point division into `r0` gave its two
/// temporaries, and then `r0`, the type `i32`.
pub open spec fn fdiv_types(t: Seq<Type>, base: u32, r0: Value) -> Seq<Type> {
    let t1 = set_type(t, val(base, 0).0 as nat, Type::I32);
    let t2 = set_type(t1, val(base, 1).0 as nat, Type::I32);
    set_type(t2, r0.0 as nat, Type::I32)
}

/// What a rewrite that places new instructions after `inst` requires: a
/// well-formed function with `inst` in `block`, with operands, and room
/// for `k` more instructions and values.
pub open spec fn expandable(f: Function, inst: Inst, block: Block, k: nat) -> bool {
    &&& f.wf()
    &&& f.layout@.block_of(inst.0 as nat) == Some(block.0 as nat)
    &&& has_operands(f, inst, 2, 1)
    &&& f.dfg.insts@.len() + k < MAX_INSTS
    &&& f.dfg.value_types@.len() + k <= u32::MAX
}

/// An instruction in a block is a registered instruction at its position
/// there, and the block is in the layout.
proof fn lemma_placed(f: Function, inst: Inst, block: Block)
    requires
        f.wf(),
        f.layout@.block_of(inst.0 as nat) == Some(block.0 as nat),
    ensures
        inst.0 < f.dfg.insts@.len(),
        block.0 < f.blocks@.len(),
        f.layout@.inserted(block.0 as nat),
        f.layout@.contents[block.0 as int].contains(inst.0 as nat),
        f.layout@.contents[block.0 as int][f.layout@.pos_in_block(inst.0 as nat)] == inst.0 as nat,
        0 <= f.layout@.pos_in_block(inst.0 as nat) < f.layout@.contents[block.0 as int].len(),
{
    let b = block.0 as int;
    let c = f.layout@.contents[b];
    assert(c.contains(inst.0 as nat));
    let q = c.index_of(inst.0 as nat);
    f.layout.lemma_contents_bound(b, q);
    f.layout.lemma_distinct();
}

/// An instruction whose block the layout gives as `block` is placed there.
proof fn lemma_block_of_placed(f: Function, inst: Inst, block: Block)
    requires
        f.wf(),
        opt_blk(f.layout@.block_of(inst.0 as nat)) == Some(block),
    ensures
        f.layout@.block_of(inst.0 as nat) == Some(block.0 as nat),
{
    f.layout.lemma_wf_bounds();
}

/// Setting a type leaves a type for the value.
proof fn lemma_set_type_len(t: Seq<Type>, v: nat, ty: Type)
    ensures
        set_type(t, v, ty).len() > v,
        set_type(t, v, ty).len() >= t.len(),
{
}

/// Convert `fmul` to a fixed-point multiplication: `(a * b) >> 16`, from
/// the high and low words of the 64-bit product. The new instructions take
/// the place of the multiplication, which leaves the layout.
pub fn convert_fmul(func: &mut Function, inst: Inst, block: Block) -> (r: Result<(), TransformError>)
    requires
        expandable(*old(func), inst, block, 6),
    ensures
        r is Ok,
        expanded(
            *old(func),
            *final(func),
            inst,
            block,
            fmul_data(
                next_index(old(func).dfg.value_types@.len()),
                data_of(*old(func), inst).args@[0],
                data_of(*old(func), inst).args@[1],
                data_of(*old(func), inst).results@[0],
            ),
            fmul_types(
                old(func).dfg.value_types@,
                next_index(old(func).dfg.value_types@.len()),
                data_of(*old(func), inst).results@[0],
            ),
        ),
{
    let ghost b = block.0 as int;
    let ghost n = func.dfg.insts@.len();
    let ghost c = func.layout@.contents[b];
    let ghost p = func.layout@.pos_in_block(inst.0 as nat);
    let ghost before = *func;
    proof {
        lemma_placed(*func, inst, block);
    }
    let (result, arg1, arg2) = match func.dfg.inst_data(inst) {
        Some(d) => (d.results[0], d.args[0], d.args[1]),
        None => {
            return Ok(());
        },
    };
    let next_idx = func.dfg.next_value_index();
    let hi = Value::new(next_idx);
    let lo = Value::new(next_idx + 1);
    let hi_shifted = Value::new(next_idx + 2);
    let lo_shifted = Value::new(next_idx + 3);
    let shift_16 = Value::new(next_idx + 4);
    func.dfg.set_value_type(hi, Type::I32);
    func.dfg.set_value_type(lo, Type::I32);
    func.dfg.set_value_type(hi_shifted, Type::I32);
    func.dfg.set_value_type(lo_shifted, Type::I32);
    func.dfg.set_value_type(shift_16, Type::I32);
    func.dfg.set_value_type(result, Type::I32);
    let ghost types = func.dfg.value_types@;
    proof {
        assert(types == fmul_types(before.dfg.value_types@, next_idx, result));
        assert(val(next_idx, 0) == hi && val(next_idx, 1) == lo && val(next_idx, 2) == hi_shifted);
        assert(val(next_idx, 3) == lo_shifted && val(next_idx, 4) == shift_16);
        let t = before.dfg.value_types@;
        lemma_set_type_len(t, hi.0 as nat, Type::I32);
        assert(types.len() > hi.0 && types.len() > lo.0 && types.len() > hi_shifted.0);
        assert(types.len() > lo_shifted.0 && types.len() > shift_16.0 && types.len() > result.0);
        assert(c.contains(inst.0 as nat));
        assert(c[p] == inst.0 as nat);
        assert(c.subrange(0, p + 1) + Seq::new(0, |t: int| (n + t) as nat) + c.subrange(p + 1, c.len() as int)
            =~= c);
    }
    let next_inst = func.layout.next_inst(inst);
    let _ = emit(func, InstData::constant(shift_16, Immediate::I64(16)), next_inst, block, Ghost(c), Ghost(p), Ghost(n), Ghost(0));
    proof { lemma_assign_typed(types, shift_16, Some(Type::I32)); }
    let _ = emit(func, InstData::arithmetic(Opcode::Imulh, hi, arg1, arg2), next_inst, block, Ghost(c), Ghost(p), Ghost(n), Ghost(1));
    proof { lemma_assign_typed(types, hi, Some(Type::I32)); }
    let _ = emit(func, InstData::arithmetic(Opcode::Imul, lo, arg1, arg2), next_inst, block, Ghost(c), Ghost(p), Ghost(n), Ghost(2));
    proof { lemma_assign_typed(types, lo, Some(Type::I32)); }
    let _ = emit(func, InstData::shift(Opcode::Ishl, hi_shifted, hi, shift_16), next_inst, block, Ghost(c), Ghost(p), Ghost(n), Ghost(3));
    proof { lemma_assign_typed(types, hi_shifted, Some(Type::I32)); }
    let _ = emit(func, InstData::shift(Opcode::Ishr, lo_shifted, lo, shift_16), next_inst, block, Ghost(c), Ghost(p), Ghost(n), Ghost(4));
    proof { lemma_assign_typed(types, lo_shifted, Some(Type::I32)); }
    let _ = emit(func, InstData::bitwise(Opcode::Ior, result, hi_shifted, lo_shifted), next_inst, block, Ghost(c), Ghost(p), Ghost(n), Ghost(5));
    proof {
        lemma_assign_typed(types, result, Some(Type::I32));
        let cur = func.layout@.contents[b];
        assert(cur == after_run(c, p, n, 6));
        assert(cur[p] == inst.0 as nat);
        func.layout.lemma_in_block(b, p);
    }
    func.layout.remove_inst(inst);
    proof {
        assert(after_run(c, p, n, 6).remove(p) =~= spliced(c, p, n, 6));
        assert(func.layout@.contents =~= before.layout@.contents.update(b, spliced(c, p, n, 6)));
        assert(func.dfg.insts@.subrange(0, n as int) =~= before.dfg.insts@);
    }
    Ok(())
}

/// Convert `fdiv` to a fixed-point division: `(a << 16) / b`. The new
/// instructions take the place of the division, which leaves the layout.
pub fn convert_fdiv(func: &mut Function, inst: Inst, block: Block) -> (r: Result<(), TransformError>)
    requires
        expandable(*old(func), inst, block, 3),
    ensures
        r is Ok,
        expanded(
            *old(func),
            *final(func),
            inst,
            block,
            fdiv_data(
                next_index(old(func).dfg.value_types@.len()),
                data_of(*old(func), inst).args@[0],
                data_of(*old(func), inst).args@[1],
                data_of(*old(func), inst).results@[0],
            ),
            fdiv_types(
                old(func).dfg.value_types@,
                next_index(old(func).dfg.value_types@.len()),
                data_of(*old(func), inst).results@[0],
            ),
        ),
{
    let ghost b = block.0 as int;
    let ghost n = func.dfg.insts@.len();
    let ghost c = func.layout@.contents[b];
    let ghost p = func.layout@.pos_in_block(inst.0 as nat);
    let ghost before = *func;
    proof {
        lemma_placed(*func, inst, block);
    }
    let (result, arg1, arg2) = match func.dfg.inst_data(inst) {
        Some(d) => (d.results[0], d.args[0], d.args[1]),
        None => {
            return Ok(());
        },
    };
    let next_idx = func.dfg.next_value_index();
    let a_shifted = Value::new(next_idx);
    let shift_16 = Value::new(next_idx + 1);
    func.dfg.set_value_type(a_shifted, Type::I32);
    func.dfg.set_value_type(shift_16, Type::I32);
    func.dfg.set_value_type(result, Type::I32);
    let ghost types = func.dfg.value_types@;
    proof {
        assert(types == fdiv_types(before.dfg.value_types@, next_idx, result));
        assert(val(next_idx, 0) == a_shifted && val(next_idx, 1) == shift_16);
        assert(types.len() > a_shifted.0 && types.len() > shift_16.0 && types.len() > result.0);
        assert(c.subrange(0, p + 1) + Seq::new(0, |t: int| (n + t) as nat) + c.subrange(p + 1, c.len() as int)
            =~= c);
    }
    let next_inst = func.layout.next_inst(inst);
    let _ = emit(func, InstData::constant(shift_16, Immediate::I64(16)), next_inst, block, Ghost(c), Ghost(p), Ghost(n), Ghost(0));
    proof { lemma_assign_typed(types, shift_16, Some(Type::I32)); }
    let _ = emit(func, InstData::shift(Opcode::Ishl, a_shifted, arg1, shift_16), next_inst, block, Ghost(c), Ghost(p), Ghost(n), Ghost(1));
    proof { lemma_assign_typed(types, a_shifted, Some(Type::I32)); }
    let _ = emit(func, InstData::arithmetic(Opcode::Idiv, result, a_shifted, arg2), next_inst, block, Ghost(c), Ghost(p), Ghost(n), Ghost(2));
    proof {
        lemma_assign_typed(types, result, Some(Type::I32));
        let cur = func.layout@.contents[b];
        assert(cur == after_run(c, p, n, 3));
        assert(cur[p] == inst.0 as nat);
        func.layout.lemma_in_block(b, p);
    }
    func.layout.remove_inst(inst);
    proof {
        assert(after_run(c, p, n, 3).remove(p) =~= spliced(c, p, n, 3));
        assert(func.layout@.contents =~= before.layout@.contents.update(b, spliced(c, p, n, 3)));
        assert(func.dfg.insts@.subrange(0, n as int) =~= before.dfg.insts@);
    }
    Ok(())
}

/// Whether value `v` is a result or an argument of the instruction at
/// position `q` of the block at position `k` of the layout.
pub open spec fn operand_at(f: &Function, k: int, q: int, v: Value) -> bool {
    f.inst_at(f.block_at(k), q).results.contains(v) || f.inst_at(f.block_at(k), q).args.contains(v)
}

/// Whether value `v` is a result or an argument of an instruction of the
/// layout among the first `k` blocks, or among the first `q` instructions
/// of the next one.
pub open spec fn operand_before(f: &Function, k: int, q: int, v: Value) -> bool {
    (exists|k2: int, q2: int| 0 <= k2 < k && 0 <= q2 < f.len_at(k2) && #[trigger] operand_at(f, k2, q2, v))
        || (exists|q2: int| 0 <= q2 < q && #[trigger] operand_at(f, k, q2, v))
}

/// Whether value `v` is a parameter of one of the first `k` blocks of the
/// layout.
pub open spec fn param_before(f: &Function, k: int, v: Value) -> bool {
    exists|k2: int| 0 <= k2 < k && #[trigger] f.blocks@[f.block_at(k2)].params@.contains(v)
}

/// Whether value `v` is a result or an argument of an instruction in the
/// layout, or a parameter of a block in it.
pub open spec fn mentioned(f: &Function, v: Value) -> bool {
    operand_before(f, f.layout@.order.len() as int, 0, v) || param_before(
        f,
        f.layout@.order.len() as int,
        v,
    )
}

/// The value types after every value the layout mentions and that has the
/// float type gets `i32`.
pub open spec fn retyped(f: &Function) -> Seq<Type> {
    Seq::new(
        f.dfg.value_types@.len(),
        |j: int|
            if f.dfg.value_types@[j] == Type::F32 && mentioned(f, Value(j as u32)) {
                Type::I32
            } else {
                f.dfg.value_types@[j]
            },
    )
}

/// Append the values of `s` to `out`.
fn push_values(out: &mut Vec<Value>, s: &Vec<Value>)
    ensures
        final(out)@ == old(out)@ + s@,
{
    let mut i: usize = 0;
    while i < s.len()
        invariant
            i <= s@.len(),
            out@ == old(out)@ + s@.subrange(0, i as int),
        decreases s@.len() - i,
    {
        out.push(s[i]);
        proof {
            assert(out@ =~= old(out)@ + s@.subrange(0, i + 1));
        }
        i = i + 1;
    }
    proof {
        assert(s@.subrange(0, i as int) =~= s@);
    }
}

/// Every value the layout mentions: results and arguments of its
/// instructions, then parameters of its blocks.
fn collect_operands(func: &Function) -> (vals: Vec<Value>)
    requires
        func.wf(),
    ensures
        forall|v: Value| #[trigger] vals@.contains(v) <==> mentioned(func, v),
{
    let blocks = func.blocks();
    let ghost nb = blocks@.len() as int;
    let mut vals: Vec<Value> = Vec::new();
    let mut k: usize = 0;
    while k < blocks.len()
        invariant
            func.wf(),
            blocks@.len() == func.layout@.order.len(),
            forall|j: int| 0 <= j < blocks@.len() ==> (#[trigger] blocks@[j]).0 == func.layout@.order[j],
            k <= blocks@.len(),
            forall|v: Value| #[trigger] vals@.contains(v) <==> operand_before(func, k as int, 0, v),
        decreases blocks@.len() - k,
    {
        let block = blocks[k];
        proof {
            func.layout.lemma_order_bound(k as int);
        }
        let insts = func.block_insts(block);
        let mut q: usize = 0;
        while q < insts.len()
            invariant
                func.wf(),
                blocks@.len() == func.layout@.order.len(),
                k < blocks@.len(),
                block.0 == func.layout@.order[k as int],
                block.0 < func.blocks@.len(),
                insts@.len() == func.len_at(k as int),
                forall|j: int| 0 <= j < insts@.len() ==> (#[trigger] insts@[j]).0 == func.layout@.contents[block.0 as int][j],
                q <= insts@.len(),
                forall|v: Value| #[trigger] vals@.contains(v) <==> operand_before(func, k as int, q as int, v),
            decreases insts@.len() - q,
        {
            let d = func.placed_inst(block, q);
            let ghost before = vals@;
            push_values(&mut vals, &d.results);
            push_values(&mut vals, &d.args);
            proof {
                assert forall|v: Value| #[trigger] vals@.contains(v) <==> operand_before(func, k as int, q + 1, v) by {
                    if vals@.contains(v) {
                        let i = vals@.index_of(v);
                        if i >= before.len() {
                            if i < before.len() + d.results@.len() {
                                assert(d.results@[i - before.len()] == v);
                                assert(d.results@.contains(v));
                            } else {
                                assert(d.args@[i - before.len() - d.results@.len()] == v);
                                assert(d.args@.contains(v));
                            }
                            assert(operand_at(func, k as int, q as int, v));
                        } else {
                            assert(before[i] == v);
                            assert(before.contains(v));
                        }
                    }
                    if operand_before(func, k as int, q + 1, v) {
                        if exists|q2: int| 0 <= q2 < q + 1 && #[trigger] operand_at(func, k as int, q2, v) {
                            let q2 = choose|q2: int| 0 <= q2 < q + 1 && #[trigger] operand_at(func, k as int, q2, v);
                            if q2 == q {
                                if d.results@.contains(v) {
                                    let i = d.results@.index_of(v);
                                    assert(vals@[before.len() + i] == v);
                                } else {
                                    let i = d.args@.index_of(v);
                                    assert(vals@[before.len() + d.results@.len() + i] == v);
                                }
                            } else {
                                assert(operand_before(func, k as int, q as int, v));
                                assert(before.contains(v));
                                let i = before.index_of(v);
                                assert(vals@[i] == before[i]);
                            }
                        } else {
                            assert(operand_before(func, k as int, q as int, v));
                            assert(before.contains(v));
                            let i = before.index_of(v);
                            assert(vals@[i] == before[i]);
                        }
                    }
                }
            }
            q = q + 1;
        }
        proof {
            assert forall|v: Value| #[trigger] vals@.contains(v) <==> operand_before(func, k + 1, 0, v) by {
                if operand_before(func, k as int, q as int, v) {
                    if exists|q2: int| 0 <= q2 < q && #[trigger] operand_at(func, k as int, q2, v) {
                        let q2 = choose|q2: int| 0 <= q2 < q && #[trigger] operand_at(func, k as int, q2, v);
                        assert(0 <= k < k + 1 && 0 <= q2 < func.len_at(k as int));
                    }
                }
                if operand_before(func, k + 1, 0, v) {
                    let (k2, q2) = choose|k2: int, q2: int|
                        0 <= k2 < k + 1 && 0 <= q2 < func.len_at(k2) && #[trigger] operand_at(func, k2, q2, v);
                    if k2 < k {
                        assert(operand_before(func, k as int, 0, v));
                    } else {
                        assert(operand_before(func, k as int, q as int, v));
                    }
                }
            }
        }
        k = k + 1;
    }
    let ghost ops = vals@;
    let mut k: usize = 0;
    while k < blocks.len()
        invariant
            func.wf(),
            blocks@.len() == func.layout@.order.len(),
            forall|j: int| 0 <= j < blocks@.len() ==> (#[trigger] blocks@[j]).0 == func.layout@.order[j],
            k <= blocks@.len(),
            forall|v: Value| #[trigger] ops.contains(v) <==> mentioned(func, v) && !param_before(func, func.layout@.order.len() as int, v) || operand_before(func, func.layout@.order.len() as int, 0, v),
            forall|v: Value| #[trigger] vals@.contains(v) <==> (ops.contains(v) || param_before(func, k as int, v)),
        decreases blocks@.len() - k,
    {
        let block = blocks[k];
        proof {
            func.layout.lemma_order_bound(k as int);
        }
        let ghost before = vals@;
        match func.block_data(block) {
            Some(bd) => {
                push_values(&mut vals, &bd.params);
            },
            None => {},
        }
        proof {
            assert forall|v: Value| #[trigger] vals@.contains(v) <==> (ops.contains(v) || param_before(func, k + 1, v)) by {
                let ps = func.blocks@[block.0 as int].params@;
                if vals@.contains(v) {
                    let i = vals@.index_of(v);
                    if i >= before.len() {
                        assert(ps[i - before.len()] == v);
                        assert(ps.contains(v));
                        assert(func.blocks@[func.block_at(k as int)].params@.contains(v));
                    } else {
                        assert(before[i] == v);
                        assert(before.contains(v));
                    }
                }
                if param_before(func, k + 1, v) && !ops.contains(v) {
                    let k2 = choose|k2: int| 0 <= k2 < k + 1 && #[trigger] func.blocks@[func.block_at(k2)].params@.contains(v);
                    if k2 < k {
                        assert(param_before(func, k as int, v));
                        assert(before.contains(v));
                        let i = before.index_of(v);
                        assert(vals@[i] == before[i]);
                    } else {
                        let i = ps.index_of(v);
                        assert(vals@[before.len() + i] == v);
                    }
                }
                if ops.contains(v) {
                    assert(before.contains(v));
                    let i = before.index_of(v);
                    assert(vals@[i] == before[i]);
                }
            }
        }
        k = k + 1;
    }
    vals
}

/// Give every value the layout mentions that has the float type the type
/// `i32`.
pub fn update_all_value_types(func: &mut Function)
    requires
        old(func).wf(),
        old(func).dfg.value_types@.len() <= u32::MAX,
    ensures
        final(func).dfg.value_types@ == retyped(&*old(func)),
        final(func).dfg.insts@ == old(func).dfg.insts@,
        final(func).layout == old(func).layout,
        final(func).blocks == old(func).blocks,
        final(func).signature == old(func).signature,
        final(func).name == old(func).name,
{
    let vals = collect_operands(func);
    let ghost start = func.dfg.value_types@;
    let mut i: usize = 0;
    while i < vals.len()
        invariant
            func.dfg.value_types@.len() == start.len(),
            start == old(func).dfg.value_types@,
            start.len() <= u32::MAX,
            func.dfg.insts@ == old(func).dfg.insts@,
            func.layout == old(func).layout,
            func.blocks == old(func).blocks,
            func.signature == old(func).signature,
            func.name == old(func).name,
            i <= vals@.len(),
            forall|j: int|
                0 <= j < start.len() ==> #[trigger] func.dfg.value_types@[j] == (if start[j] == Type::F32
                    && vals@.subrange(0, i as int).contains(Value(j as u32)) {
                    Type::I32
                } else {
                    start[j]
                }),
        decreases vals@.len() - i,
    {
        let v = vals[i];
        let ghost before = func.dfg.value_types@;
        let ghost pre = vals@.subrange(0, i as int);
        let ghost post = vals@.subrange(0, i + 1);
        proof {
            assert(post =~= pre.push(v));
            assert forall|j: int| 0 <= j < start.len() implies #[trigger] before[j] == (if start[j] == Type::F32
                && pre.contains(Value(j as u32)) {
                Type::I32
            } else {
                start[j]
            }) by {
                assert(func.dfg.value_types@[j] == before[j]);
            }
        }
        let is_float = func.dfg.value_type(v) == Some(Type::F32);
        if is_float {
            func.dfg.set_value_type(v, Type::I32);
        }
        proof {
            assert forall|j: int| 0 <= j < start.len() implies #[trigger] func.dfg.value_types@[j] == (if start[j]
                == Type::F32 && post.contains(Value(j as u32)) {
                Type::I32
            } else {
                start[j]
            }) by {
                assert(Value(j as u32).0 == j);
                assert(before[j] == (if start[j] == Type::F32 && pre.contains(Value(j as u32)) {
                    Type::I32
                } else {
                    start[j]
                }));
                if v.0 == j {
                    assert(v == Value(j as u32));
                    assert(post.contains(Value(j as u32))) by {
                        assert(post[i as int] == v);
                    }
                } else {
                    assert(v != Value(j as u32));
                    if pre.contains(Value(j as u32)) {
                        let x = pre.index_of(Value(j as u32));
                        assert(post[x] == Value(j as u32));
                    }
                    if post.contains(Value(j as u32)) {
                        let x = post.index_of(Value(j as u32));
                        assert(x != i);
                        assert(pre[x] == Value(j as u32));
                    }
                }
            }
        }
        i = i + 1;
    }
    proof {
        assert(vals@.subrange(0, i as int) =~= vals@);
        assert(func.dfg.value_types@ =~= retyped(&*old(func)));
    }
}

/// Convert `fconst` to `iconst` with the fixed-point value of the constant,
/// which `fixed_of` computes from the float's bits.
pub fn convert_fconst<F: Fn(u32) -> i32>(
    func: &mut Function,
    inst: Inst,
    _block: Block,
    fixed_of: &F,
) -> (r: Result<(), TransformError>)
    requires
        forall|bits: u32| call_requires(*fixed_of, (bits,)),
        fconst_bits(*old(func), inst) is Some ==> data_of(*old(func), inst).results@.len() >= 1,
    ensures
        r is Ok,
        fconst_bits(*old(func), inst) matches Some(bits) ==> fconst_converted(
            *old(func),
            *final(func),
            inst,
            *fixed_of,
            bits,
        ),
        fconst_bits(*old(func), inst) is None ==> *final(func) == *old(func),
{
    let bits_result = match func.dfg.inst_data(inst) {
        Some(d) => match d.imm {
            Some(Immediate::F32Bits(bits)) => Some((bits, d.results[0])),
            _ => None,
        },
        None => None,
    };
    if let Some((bits, result)) = bits_result {
        let fixed_value = fixed_of(bits);
        let data = InstData::constant(result, Immediate::I64(fixed_value as i64));
        rewrite(func, inst, data, result);
        proof {
            assert(call_ensures(*fixed_of, (bits,), fixed_value));
            assert(fconst_converted(*old(func), *func, inst, *fixed_of, bits));
        }
    }
    Ok(())
}

/// Convert `fadd` to `iadd`: fixed-point addition is integer addition.
pub fn convert_fadd(func: &mut Function, inst: Inst, _block: Block) -> (r: Result<(), TransformError>)
    requires
        has_operands(*old(func), inst, 2, 1),
    ensures
        r is Ok,
        inst.0 < old(func).dfg.insts@.len() ==> rewritten(
            *old(func),
            *final(func),
            inst,
            inst_view(
                Opcode::Iadd,
                seq![data_of(*old(func), inst).args@[0], data_of(*old(func), inst).args@[1]],
                seq![data_of(*old(func), inst).results@[0]],
                None,
                None,
                None,
            ),
            data_of(*old(func), inst).results@[0],
        ),
        inst.0 >= old(func).dfg.insts@.len() ==> *final(func) == *old(func),
{
    let operands = match func.dfg.inst_data(inst) {
        Some(d) => Some((d.results[0], d.args[0], d.args[1])),
        None => None,
    };
    if let Some((result, arg1, arg2)) = operands {
        rewrite(func, inst, InstData::arithmetic(Opcode::Iadd, result, arg1, arg2), result);
    }
    Ok(())
}

/// Convert `fsub` to `isub`: fixed-point subtraction is integer
/// subtraction.
pub fn convert_fsub(func: &mut Function, inst: Inst, _block: Block) -> (r: Result<(), TransformError>)
    requires
        has_operands(*old(func), inst, 2, 1),
    ensures
        r is Ok,
        inst.0 < old(func).dfg.insts@.len() ==> rewritten(
            *old(func),
            *final(func),
            inst,
            inst_view(
                Opcode::Isub,
                seq![data_of(*old(func), inst).args@[0], data_of(*old(func), inst).args@[1]],
                seq![data_of(*old(func), inst).results@[0]],
                None,
                None,
                None,
            ),
            data_of(*old(func), inst).results@[0],
        ),
        inst.0 >= old(func).dfg.insts@.len() ==> *final(func) == *old(func),
{
    let operands = match func.dfg.inst_data(inst) {
        Some(d) => Some((d.results[0], d.args[0], d.args[1])),
        None => None,
    };
    if let Some((result, arg1, arg2)) = operands {
        rewrite(func, inst, InstData::arithmetic(Opcode::Isub, result, arg1, arg2), result);
    }
    Ok(())
}

/// The integer condition code a float comparison becomes.
pub fn int_cond(cond: FloatCC) -> (r: Option<IntCC>)
    ensures
        r == int_cond_of(cond),
{
    match cond {
        FloatCC::Equal => Some(IntCC::Equal),
        FloatCC::NotEqual => Some(IntCC::NotEqual),
        FloatCC::LessThan => Some(IntCC::SignedLessThan),
        FloatCC::LessThanOrEqual => Some(IntCC::SignedLessThanOrEqual),
        FloatCC::GreaterThan => Some(IntCC::SignedGreaterThan),
        FloatCC::GreaterThanOrEqual => Some(IntCC::SignedGreaterThanOrEqual),
        FloatCC::Unordered => None,
        FloatCC::Ordered => None,
        FloatCC::UnorderedOrEqual => Some(IntCC::Equal),
        FloatCC::OrderedNotEqual => Some(IntCC::NotEqual),
        FloatCC::UnorderedOrLessThan => Some(IntCC::SignedLessThan),
        FloatCC::UnorderedOrLessThanOrEqual => Some(IntCC::SignedLessThanOrEqual),
        FloatCC::UnorderedOrGreaterThan => Some(IntCC::SignedGreaterThan),
        FloatCC::UnorderedOrGreaterThanOrEqual => Some(IntCC::SignedGreaterThanOrEqual),
    }
}

/// Convert `fcmp` to `icmp` with the matching integer condition code; as
/// fixed point has no NaN, `uno` becomes the constant 0 and `ord` the
/// constant 1.
pub fn convert_float_compare(func: &mut Function, inst: Inst, _block: Block, cond: FloatCC) -> (r: Result<
    (),
    TransformError,
>)
    requires
        has_operands(*old(func), inst, 2, 1),
    ensures
        r is Ok,
        inst.0 < old(func).dfg.insts@.len() ==> rewritten(
            *old(func),
            *final(func),
            inst,
            compare_rewrite(
                cond,
                data_of(*old(func), inst).args@[0],
                data_of(*old(func), inst).args@[1],
                data_of(*old(func), inst).results@[0],
            ),
            data_of(*old(func), inst).results@[0],
        ),
        inst.0 >= old(func).dfg.insts@.len() ==> *final(func) == *old(func),
{
    let operands = match func.dfg.inst_data(inst) {
        Some(d) => Some((d.results[0], d.args[0], d.args[1])),
        None => None,
    };
    if let Some((result, arg1, arg2)) = operands {
        let data = match int_cond(cond) {
            Some(c) => InstData::comparison(Opcode::Icmp { cond: c }, result, arg1, arg2),
            None => {
                let value: i64 = match cond {
                    FloatCC::Ordered => 1,
                    _ => 0,
                };
                InstData::constant(result, Immediate::I64(value))
            },
        };
        rewrite(func, inst, data, result);
    }
    Ok(())
}

/// Convert a float `load` to an `i32` one.
pub fn convert_load(func: &mut Function, inst: Inst, _block: Block) -> (r: Result<(), TransformError>)
    requires
        has_operands(*old(func), inst, 1, 1),
    ensures
        r is Ok,
        inst.0 < old(func).dfg.insts@.len() ==> rewritten(
            *old(func),
            *final(func),
            inst,
            inst_view(
                Opcode::Load,
                seq![data_of(*old(func), inst).args@[0]],
                seq![data_of(*old(func), inst).results@[0]],
                None,
                Some(Type::I32),
                None,
            ),
            data_of(*old(func), inst).results@[0],
        ),
        inst.0 >= old(func).dfg.insts@.len() ==> *final(func) == *old(func),
{
    let operands = match func.dfg.inst_data(inst) {
        Some(d) => Some((d.results[0], d.args[0])),
        None => None,
    };
    if let Some((result, address)) = operands {
        rewrite(func, inst, InstData::load(result, address, Type::I32), result);
    }
    Ok(())
}

/// Convert a float `store` to an `i32` one.
pub fn convert_store(func: &mut Function, inst: Inst, _block: Block) -> (r: Result<(), TransformError>)
    requires
        has_operands(*old(func), inst, 2, 0),
    ensures
        r is Ok,
        inst.0 < old(func).dfg.insts@.len() ==> {
            &&& data_replaced(
                old(func).dfg.insts@,
                final(func).dfg.insts@,
                inst.0 as int,
                inst_view(
                    Opcode::Store,
                    seq![data_of(*old(func), inst).args@[0], data_of(*old(func), inst).args@[1]],
                    seq![],
                    None,
                    Some(Type::I32),
                    None,
                ),
            )
            &&& final(func).dfg.value_types@ == old(func).dfg.value_types@
            &&& final(func).layout == old(func).layout
            &&& final(func).blocks == old(func).blocks
            &&& final(func).signature == old(func).signature
            &&& final(func).name == old(func).name
        },
        inst.0 >= old(func).dfg.insts@.len() ==> *final(func) == *old(func),
{
    let operands = match func.dfg.inst_data(inst) {
        Some(d) => Some((d.args[0], d.args[1])),
        None => None,
    };
    if let Some((address, value)) = operands {
        let data = InstData::store(address, value, Type::I32);
        let ghost d = data@;
        match func.dfg.inst_data_mut(inst) {
            Some(slot) => {
                *slot = data;
            },
            None => {},
        }
        proof {
            assert(func.dfg.insts@[inst.0 as int]@ == d);
        }
    }
    Ok(())
}

/// The kind of float operation an instruction is, for the pass.
enum FloatOp {
    Const,
    Add,
    Sub,
    Mul,
    Div,
    Compare(FloatCC),
    Load,
    Store,
    Other,
}

/// The float operation an instruction is: its float opcode, a load or
/// store only with the float type.
spec fn float_op_of(d: InstData) -> FloatOp {
    match d.opcode {
        Opcode::Fconst => FloatOp::Const,
        Opcode::Fadd => FloatOp::Add,
        Opcode::Fsub => FloatOp::Sub,
        Opcode::Fmul => FloatOp::Mul,
        Opcode::Fdiv => FloatOp::Div,
        Opcode::Fcmp { cond } => FloatOp::Compare(cond),
        Opcode::Load => if d.ty == Some(Type::F32) {
            FloatOp::Load
        } else {
            FloatOp::Other
        },
        Opcode::Store => if d.ty == Some(Type::F32) {
            FloatOp::Store
        } else {
            FloatOp::Other
        },
        _ => FloatOp::Other,
    }
}

/// Whether an instruction has the operands its rewrite reads: a result for
/// a constant, two arguments and a result for arithmetic and comparisons,
/// an address and a result for a load, two arguments for a store.
spec fn op_operands_ok(op: FloatOp, d: InstData) -> bool {
    match op {
        FloatOp::Const => d.results@.len() >= 1,
        FloatOp::Add | FloatOp::Sub | FloatOp::Mul | FloatOp::Div | FloatOp::Compare(_) => d.args@.len() >= 2
            && d.results@.len() >= 1,
        FloatOp::Load => d.args@.len() >= 1 && d.results@.len() >= 1,
        FloatOp::Store => d.args@.len() >= 2,
        FloatOp::Other => true,
    }
}

/// The float operation of an instruction, with whether it has the operands
/// its rewrite reads.
fn float_op(d: &InstData) -> (r: (FloatOp, bool))
    ensures
        r.0 == float_op_of(*d),
        r.1 == op_operands_ok(r.0, *d),
        r.0 matches FloatOp::Compare(c) ==> d.opcode == (Opcode::Fcmp { cond: c }),
{
    let binary = d.args.len() >= 2 && d.results.len() >= 1;
    match &d.opcode {
        Opcode::Fconst => (FloatOp::Const, d.results.len() >= 1),
        Opcode::Fadd => (FloatOp::Add, binary),
        Opcode::Fsub => (FloatOp::Sub, binary),
        Opcode::Fmul => (FloatOp::Mul, binary),
        Opcode::Fdiv => (FloatOp::Div, binary),
        Opcode::Fcmp { cond } => (FloatOp::Compare(*cond), binary),
        Opcode::Load => if d.ty == Some(Type::F32) {
            (FloatOp::Load, d.args.len() >= 1 && d.results.len() >= 1)
        } else {
            (FloatOp::Other, true)
        },
        Opcode::Store => if d.ty == Some(Type::F32) {
            (FloatOp::Store, d.args.len() >= 2)
        } else {
            (FloatOp::Other, true)
        },
        _ => (FloatOp::Other, true),
    }
}

/// Whether an instruction has the operands the pass reads from it: a float
/// constant a result, float arithmetic and comparisons two arguments and a
/// result, a float load an address and a result, a float store two
/// arguments.
pub open spec fn pass_operands(d: InstData) -> bool {
    match d.opcode {
        Opcode::Fconst => d.imm matches Some(Immediate::F32Bits(_)) ==> d.results@.len() >= 1,
        Opcode::Fadd | Opcode::Fsub | Opcode::Fmul | Opcode::Fdiv | Opcode::Fcmp { .. } => d.args@.len()
            >= 2 && d.results@.len() >= 1,
        Opcode::Load => d.ty == Some(Type::F32) ==> d.args@.len() >= 1 && d.results@.len() >= 1,
        Opcode::Store => d.ty == Some(Type::F32) ==> d.args@.len() >= 2,
        _ => true,
    }
}

/// Whether an instruction is in fixed point: no float arithmetic or
/// comparison, no float constant given by its bits, and no load or store of
/// the float type.
pub open spec fn fixed_inst(d: InstDataView) -> bool {
    match d.opcode {
        Opcode::Fconst => !(d.imm matches Some(Immediate::F32Bits(_))),
        Opcode::Fadd | Opcode::Fsub | Opcode::Fmul | Opcode::Fdiv | Opcode::Fcmp { .. } => false,
        Opcode::Load | Opcode::Store => d.ty != Some(Type::F32),
        _ => true,
    }
}

/// Whether a function has room for the largest rewrite of the pass: six
/// more instructions and values.
pub open spec fn pass_room(f: &Function) -> bool {
    &&& f.dfg.insts@.len() + 6 < MAX_INSTS
    &&& f.dfg.value_types@.len() + 6 < u32::MAX
}

/// Whether every instruction of the layout that is not in fixed point yet
/// is one of `todo` from position `t` on, in the block recorded there, with
/// the data it had at the start, `orig`.
spec fn pending(f: Function, orig: Seq<InstData>, todo: Seq<(Block, Inst)>, t: int) -> bool {
    forall|i: nat|
        #[trigger] f.layout@.block_of(i) is Some && !fixed_inst(f.dfg.insts@[i as int]@) ==> exists|j: int|
            t <= j < todo.len() && #[trigger] todo[j].1.0 == i && f.layout@.block_of(i) == Some(
                todo[j].0.0 as nat,
            ) && f.dfg.insts@[i as int] == orig[i as int]
}

/// Whether the instruction at position `q2` of the block at position `k2`
/// of the layout of `f` is in `todo`, with that block.
spec fn listed(todo: Seq<(Block, Inst)>, f: Function, k2: int, q2: int) -> bool {
    exists|j: int|
        0 <= j < todo.len() && (#[trigger] todo[j]).0.0 == f.layout@.order[k2] && todo[j].1.0
            == f.layout@.contents[f.block_at(k2)][q2]
}

/// An instruction the layout places is registered, in the block that holds it.
proof fn lemma_block_of_contains(f: Function, i: nat)
    requires
        f.wf(),
        f.layout@.block_of(i) is Some,
    ensures
        f.layout@.block_of(i).unwrap() < f.layout@.num_blocks(),
        f.layout@.contents[f.layout@.block_of(i).unwrap() as int].contains(i),
        i < f.dfg.insts@.len(),
{
    let b = f.layout@.block_of(i).unwrap();
    let q = f.layout@.contents[b as int].index_of(i);
    f.layout.lemma_contents_bound(b as int, q);
}

/// A block that holds an instruction is the one the layout gives for it.
proof fn lemma_contains_block_of(f: Function, b: int, i: nat)
    requires
        f.wf(),
        0 <= b < f.layout@.num_blocks(),
        f.layout@.contents[b].contains(i),
    ensures
        f.layout@.block_of(i) == Some(b as nat),
{
    let q = f.layout@.contents[b].index_of(i);
    f.layout.lemma_in_block(b, q);
}

/// Rewriting the data of the instruction at position `t` of `todo` in
/// place, to data in fixed point, leaves the rest pending from `t + 1` on.
proof fn lemma_pending_replaced(
    before: Function,
    after: Function,
    orig: Seq<InstData>,
    todo: Seq<(Block, Inst)>,
    t: int,
    d: InstDataView,
)
    requires
        before.wf(),
        pending(before, orig, todo, t),
        0 <= t < todo.len(),
        data_replaced(before.dfg.insts@, after.dfg.insts@, todo[t].1.0 as int, d),
        after.layout == before.layout,
        fixed_inst(d),
    ensures
        pending(after, orig, todo, t + 1),
{
    let inst = todo[t].1.0 as nat;
    assert forall|i: nat|
        #[trigger] after.layout@.block_of(i) is Some && !fixed_inst(after.dfg.insts@[i as int]@) implies exists|j: int|
            t + 1 <= j < todo.len() && #[trigger] todo[j].1.0 == i && after.layout@.block_of(i) == Some(
                todo[j].0.0 as nat,
            ) && after.dfg.insts@[i as int] == orig[i as int] by {
        assert(before.layout@.block_of(i) is Some);
        lemma_block_of_contains(before, i);
        if i == inst {
            assert(after.dfg.insts@[i as int]@ == d);
        } else {
            assert(after.dfg.insts@[i as int] == before.dfg.insts@[i as int]);
            let j = choose|j: int|
                t <= j < todo.len() && #[trigger] todo[j].1.0 == i && before.layout@.block_of(i) == Some(
                    todo[j].0.0 as nat,
                ) && before.dfg.insts@[i as int] == orig[i as int];
            assert(j != t);
        }
    }
}

/// The data of instruction `i`, by its view.
pub open spec fn view_at(f: Function, i: nat) -> InstDataView {
    f.dfg.insts@[i as int]@
}

/// The integer constant `y` defining `r`.
pub open spec fn iconst_view(r: Value, y: i32) -> InstDataView {
    inst_view(Opcode::Iconst, seq![], seq![r], None, None, Some(Immediate::I64(y as i64)))
}

/// Instruction `k` of a fixed-point multiplication.
pub open spec fn fmul_at(base: u32, a0: Value, a1: Value, r0: Value, k: nat) -> InstDataView {
    fmul_data(base, a0, a1, r0)[k as int]
}

/// Instruction `k` of a fixed-point division.
pub open spec fn fdiv_at(base: u32, a0: Value, a1: Value, r0: Value, k: nat) -> InstDataView {
    fdiv_data(base, a0, a1, r0)[k as int]
}

/// Whether instructions `n` to `n + 5` are a fixed-point multiplication of
/// `a0` by `a1` into `r0`, with temporaries from `base` on, in block `b`.
pub open spec fn mul_run(f: Function, n: nat, base: u32, a0: Value, a1: Value, r0: Value, b: nat) -> bool {
    forall|k: nat|
        k < 6 ==> view_at(f, n + k) == #[trigger] fmul_at(base, a0, a1, r0, k) && f.layout@.block_of(n + k) == Some(b)
}

/// Whether instructions `n` to `n + 2` are a fixed-point division of `a0`
/// by `a1` into `r0`, with temporaries from `base` on, in block `b`.
pub open spec fn div_run(f: Function, n: nat, base: u32, a0: Value, a1: Value, r0: Value, b: nat) -> bool {
    forall|k: nat|
        k < 3 ==> view_at(f, n + k) == #[trigger] fdiv_at(base, a0, a1, r0, k) && f.layout@.block_of(n + k) == Some(b)
}

/// Whether the pass rewrites an instruction of data `d` in place.
pub open spec fn rewritten_in_place(d: InstData) -> bool {
    match d.opcode {
        Opcode::Fadd | Opcode::Fsub | Opcode::Fconst | Opcode::Fcmp { .. } => true,
        Opcode::Load | Opcode::Store => d.ty == Some(Type::F32),
        _ => false,
    }
}

/// What the pass makes of instruction `i` of block `b`, whose data was `d`:
/// `fadd` and `fsub` become `iadd` and `isub` of the same operands; `fcmp`
/// its integer comparison, or a constant (`compare_rewrite`); a float load
/// or store the `i32` one; a float constant of bits `x` the integer
/// constant that `fixed_of` gives for `x` (one without bits stays); each
/// stays in `b`. `fmul` and `fdiv` leave the layout, and their fixed-point
/// instructions (`fmul_data`, `fdiv_data`), numbered from some `n >= n0` on
/// with temporaries from some `base` on, stand in `b` in their place.
pub open spec fn converted<F: Fn(u32) -> i32>(f: Function, n0: nat, fixed_of: F, d: InstData, i: nat, b: nat) -> bool {
    let v = view_at(f, i);
    let a0 = d.args@[0];
    let a1 = d.args@[1];
    let r0 = d.results@[0];
    let placed = f.layout@.block_of(i) == Some(b);
    match d.opcode {
        Opcode::Fadd => placed && v == inst_view(Opcode::Iadd, seq![a0, a1], seq![r0], None, None, None),
        Opcode::Fsub => placed && v == inst_view(Opcode::Isub, seq![a0, a1], seq![r0], None, None, None),
        Opcode::Fcmp { cond } => placed && v == compare_rewrite(cond, a0, a1, r0),
        Opcode::Load => d.ty == Some(Type::F32) ==> placed && v == inst_view(
            Opcode::Load,
            seq![a0],
            seq![r0],
            None,
            Some(Type::I32),
            None,
        ),
        Opcode::Store => d.ty == Some(Type::F32) ==> placed && v == inst_view(
            Opcode::Store,
            seq![a0, a1],
            seq![],
            None,
            Some(Type::I32),
            None,
        ),
        Opcode::Fconst => placed && match d.imm {
            Some(Immediate::F32Bits(x)) => exists|y: i32|
                #![trigger call_ensures(fixed_of, (x,), y)]
                call_ensures(fixed_of, (x,), y) && v == iconst_view(r0, y),
            _ => v == d@,
        },
        Opcode::Fmul => f.layout@.block_of(i) is None && exists|n: nat, base: u32|
            n >= n0 && #[trigger] mul_run(f, n, base, a0, a1, r0, b),
        Opcode::Fdiv => f.layout@.block_of(i) is None && exists|n: nat, base: u32|
            n >= n0 && #[trigger] div_run(f, n, base, a0, a1, r0, b),
        _ => true,
    }
}

/// Every instruction that `start` held in a block is converted, or is still
/// to come at a position of `todo` from `t` on, with its data and block as
/// they were.
spec fn progress<F: Fn(u32) -> i32>(
    f: Function,
    start: Function,
    orig: Seq<InstData>,
    fixed_of: F,
    todo: Seq<(Block, Inst)>,
    t: int,
) -> bool {
    forall|i: nat|
        #[trigger] start.layout@.block_of(i) is Some ==> converted(
            f,
            orig.len(),
            fixed_of,
            orig[i as int],
            i,
            start.layout@.block_of(i).unwrap(),
        ) || (f.dfg.insts@[i as int] == orig[i as int] && f.layout@.block_of(i) == start.layout@.block_of(i)
            && exists|j: int| t <= j < todo.len() && #[trigger] todo[j].1.0 == i)
}

/// A converted instruction rewritten in place is in fixed point and in its block.
proof fn lemma_converted_fixed<F: Fn(u32) -> i32>(f: Function, n0: nat, fixed_of: F, d: InstData, i: nat, b: nat)
    requires
        converted(f, n0, fixed_of, d, i, b),
        rewritten_in_place(d),
    ensures
        fixed_inst(view_at(f, i)),
        f.layout@.block_of(i) == Some(b),
{
    match d.opcode {
        Opcode::Fconst => {
            match d.imm {
                Some(Immediate::F32Bits(x)) => {
                    let y = choose|y: i32| #![trigger call_ensures(fixed_of, (x,), y)] call_ensures(fixed_of, (x,), y)
                        && view_at(f, i) == iconst_view(d.results@[0], y);
                },
                _ => {},
            }
        },
        _ => {},
    }
}

/// An instruction the pass leaves alone is converted, whatever the function.
proof fn lemma_converted_other<F: Fn(u32) -> i32>(f: Function, n0: nat, fixed_of: F, d: InstData, i: nat, b: nat)
    requires
        float_op_of(d) is Other,
    ensures
        converted(f, n0, fixed_of, d, i, b),
{
}

/// Converting is kept when the data of other instructions and their blocks
/// are kept, and instructions are only added.
proof fn lemma_converted_kept<F: Fn(u32) -> i32>(
    before: Function,
    after: Function,
    n0: nat,
    fixed_of: F,
    d: InstData,
    i: nat,
    b: nat,
    it: nat,
)
    requires
        before.wf(),
        converted(before, n0, fixed_of, d, i, b),
        it < n0,
        i != it,
        i < before.dfg.insts@.len(),
        before.dfg.insts@.len() <= after.dfg.insts@.len(),
        forall|x: nat|
            x < before.dfg.insts@.len() && x != it ==> #[trigger] after.dfg.insts@[x as int] == before.dfg.insts@[x as int]
                && after.layout@.block_of(x) == before.layout@.block_of(x),
    ensures
        converted(after, n0, fixed_of, d, i, b),
{
    assert(after.dfg.insts@[i as int] == before.dfg.insts@[i as int]);
    match d.opcode {
        Opcode::Fmul => {
            let (n, base) = choose|n: nat, base: u32|
                n >= n0 && #[trigger] mul_run(before, n, base, d.args@[0], d.args@[1], d.results@[0], b);
            assert forall|k: nat| k < 6 implies view_at(after, n + k) == #[trigger] fmul_at(base, d.args@[0], d.args@[1], d.results@[0], k)
                && after.layout@.block_of(n + k) == Some(b) by {
                assert(fmul_at(base, d.args@[0], d.args@[1], d.results@[0], k) == view_at(before, n + k));
                lemma_block_of_contains(before, n + k);
                assert(after.dfg.insts@[(n + k) as int] == before.dfg.insts@[(n + k) as int]);
            }
            assert(mul_run(after, n, base, d.args@[0], d.args@[1], d.results@[0], b));
        },
        Opcode::Fdiv => {
            let (n, base) = choose|n: nat, base: u32|
                n >= n0 && #[trigger] div_run(before, n, base, d.args@[0], d.args@[1], d.results@[0], b);
            assert forall|k: nat| k < 3 implies view_at(after, n + k) == #[trigger] fdiv_at(base, d.args@[0], d.args@[1], d.results@[0], k)
                && after.layout@.block_of(n + k) == Some(b) by {
                assert(fdiv_at(base, d.args@[0], d.args@[1], d.results@[0], k) == view_at(before, n + k));
                lemma_block_of_contains(before, n + k);
                assert(after.dfg.insts@[(n + k) as int] == before.dfg.insts@[(n + k) as int]);
            }
            assert(div_run(after, n, base, d.args@[0], d.args@[1], d.results@[0], b));
        },
        _ => {},
    }
}

/// Whether each entry of `todo` names an instruction with the block `start`
/// held it in.
spec fn todo_from(start: Function, todo: Seq<(Block, Inst)>) -> bool {
    forall|j: int| 0 <= j < todo.len() ==> start.layout@.block_of((#[trigger] todo[j]).1.0 as nat) == Some(todo[j].0.0 as nat)
}

/// Leaving the function as it is keeps the progress from `t + 1` on, when
/// the instruction at `t` is converted already or is not as it was.
proof fn lemma_progress_same<F: Fn(u32) -> i32>(
    f: Function,
    start: Function,
    orig: Seq<InstData>,
    fixed_of: F,
    todo: Seq<(Block, Inst)>,
    t: int,
)
    requires
        progress(f, start, orig, fixed_of, todo, t),
        todo_from(start, todo),
        0 <= t < todo.len(),
        (f.dfg.insts@[todo[t].1.0 as int] == orig[todo[t].1.0 as int] && f.layout@.block_of(todo[t].1.0 as nat) == Some(
            todo[t].0.0 as nat,
        )) ==> converted(f, orig.len(), fixed_of, orig[todo[t].1.0 as int], todo[t].1.0 as nat, todo[t].0.0 as nat),
    ensures
        progress(f, start, orig, fixed_of, todo, t + 1),
{
    assert forall|i: nat| #[trigger] start.layout@.block_of(i) is Some implies converted(
        f,
        orig.len(),
        fixed_of,
        orig[i as int],
        i,
        start.layout@.block_of(i).unwrap(),
    ) || (f.dfg.insts@[i as int] == orig[i as int] && f.layout@.block_of(i) == start.layout@.block_of(i)
        && exists|j: int| t + 1 <= j < todo.len() && #[trigger] todo[j].1.0 == i) by {
        if !converted(f, orig.len(), fixed_of, orig[i as int], i, start.layout@.block_of(i).unwrap()) {
            let j = choose|j: int| t <= j < todo.len() && #[trigger] todo[j].1.0 == i;
            if j == t {
                assert(start.layout@.block_of(todo[t].1.0 as nat) == Some(todo[t].0.0 as nat));
            }
        }
    }
}

/// Rewriting the instruction at position `t` of `todo` in place, to what
/// converting it gives, keeps the progress from `t + 1` on.
proof fn lemma_progress_replaced<F: Fn(u32) -> i32>(
    before: Function,
    after: Function,
    start: Function,
    orig: Seq<InstData>,
    fixed_of: F,
    todo: Seq<(Block, Inst)>,
    t: int,
    dv: InstDataView,
)
    requires
        before.wf(),
        start.wf(),
        start.dfg.insts@.len() == orig.len(),
        progress(before, start, orig, fixed_of, todo, t),
        todo_from(start, todo),
        0 <= t < todo.len(),
        todo[t].1.0 < orig.len(),
        orig.len() <= before.dfg.insts@.len(),
        before.layout@.block_of(todo[t].1.0 as nat) == Some(todo[t].0.0 as nat),
        !fixed_inst(view_at(before, todo[t].1.0 as nat)),
        data_replaced(before.dfg.insts@, after.dfg.insts@, todo[t].1.0 as int, dv),
        after.layout == before.layout,
        before.dfg.insts@[todo[t].1.0 as int] == orig[todo[t].1.0 as int] ==> converted(
            after,
            orig.len(),
            fixed_of,
            orig[todo[t].1.0 as int],
            todo[t].1.0 as nat,
            todo[t].0.0 as nat,
        ),
    ensures
        progress(after, start, orig, fixed_of, todo, t + 1),
{
    let it = todo[t].1.0 as nat;
    let bt = todo[t].0.0 as nat;
    assert forall|i: nat| #[trigger] start.layout@.block_of(i) is Some implies converted(
        after,
        orig.len(),
        fixed_of,
        orig[i as int],
        i,
        start.layout@.block_of(i).unwrap(),
    ) || (after.dfg.insts@[i as int] == orig[i as int] && after.layout@.block_of(i) == start.layout@.block_of(i)
        && exists|j: int| t + 1 <= j < todo.len() && #[trigger] todo[j].1.0 == i) by {
        let b = start.layout@.block_of(i).unwrap();
        lemma_block_of_contains(start, i);
        if i == it {
            assert(b == bt);
            if converted(before, orig.len(), fixed_of, orig[i as int], i, b) {
                if rewritten_in_place(orig[i as int]) {
                    lemma_converted_fixed(before, orig.len(), fixed_of, orig[i as int], i, b);
                } else if float_op_of(orig[i as int]) is Other {
                    lemma_converted_other(after, orig.len(), fixed_of, orig[i as int], i, b);
                } else {
                    assert(orig[i as int].opcode is Fmul || orig[i as int].opcode is Fdiv);
                }
            }
        } else {
            assert forall|x: nat|
                x < before.dfg.insts@.len() && x != it implies #[trigger] after.dfg.insts@[x as int]
                    == before.dfg.insts@[x as int] && after.layout@.block_of(x) == before.layout@.block_of(x) by {}
            if converted(before, orig.len(), fixed_of, orig[i as int], i, b) {
                lemma_converted_kept(before, after, orig.len(), fixed_of, orig[i as int], i, b, it);
            } else {
                let j = choose|j: int| t <= j < todo.len() && #[trigger] todo[j].1.0 == i;
                assert(j != t);
                assert(after.dfg.insts@[i as int] == before.dfg.insts@[i as int]);
            }
        }
    }
}

/// Replacing the instruction at position `t` of `todo` by new instructions,
/// where that is what converting it gives, keeps the progress from `t + 1` on.
proof fn lemma_progress_expanded<F: Fn(u32) -> i32>(
    before: Function,
    after: Function,
    start: Function,
    orig: Seq<InstData>,
    fixed_of: F,
    todo: Seq<(Block, Inst)>,
    t: int,
    ds: Seq<InstDataView>,
    types: Seq<Type>,
)
    requires
        before.wf(),
        start.wf(),
        start.dfg.insts@.len() == orig.len(),
        progress(before, start, orig, fixed_of, todo, t),
        todo_from(start, todo),
        0 <= t < todo.len(),
        todo[t].1.0 < orig.len(),
        orig.len() <= before.dfg.insts@.len(),
        before.layout@.block_of(todo[t].1.0 as nat) == Some(todo[t].0.0 as nat),
        expanded(before, after, todo[t].1, todo[t].0, ds, types),
        before.dfg.insts@[todo[t].1.0 as int] == orig[todo[t].1.0 as int] ==> converted(
            after,
            orig.len(),
            fixed_of,
            orig[todo[t].1.0 as int],
            todo[t].1.0 as nat,
            todo[t].0.0 as nat,
        ),
        !rewritten_in_place(before.dfg.insts@[todo[t].1.0 as int]),
        !(float_op_of(before.dfg.insts@[todo[t].1.0 as int]) is Other),
    ensures
        progress(after, start, orig, fixed_of, todo, t + 1),
{
    let it = todo[t].1.0 as nat;
    let bt = todo[t].0.0 as nat;
    let n = before.dfg.insts@.len();
    lemma_expanded_blocks(before, after, todo[t].1, todo[t].0, ds, types);
    assert forall|x: nat|
        x < before.dfg.insts@.len() && x != it implies #[trigger] after.dfg.insts@[x as int] == before.dfg.insts@[x as int]
            && after.layout@.block_of(x) == before.layout@.block_of(x) by {
        assert(after.dfg.insts@.subrange(0, n as int)[x as int] == before.dfg.insts@[x as int]);
    }
    assert forall|i: nat| #[trigger] start.layout@.block_of(i) is Some implies converted(
        after,
        orig.len(),
        fixed_of,
        orig[i as int],
        i,
        start.layout@.block_of(i).unwrap(),
    ) || (after.dfg.insts@[i as int] == orig[i as int] && after.layout@.block_of(i) == start.layout@.block_of(i)
        && exists|j: int| t + 1 <= j < todo.len() && #[trigger] todo[j].1.0 == i) by {
        let b = start.layout@.block_of(i).unwrap();
        lemma_block_of_contains(start, i);
        if i == it {
            assert(b == bt);
            if converted(before, orig.len(), fixed_of, orig[i as int], i, b) {
                if rewritten_in_place(orig[i as int]) {
                    lemma_converted_fixed(before, orig.len(), fixed_of, orig[i as int], i, b);
                    assert(false);
                } else if float_op_of(orig[i as int]) is Other {
                    lemma_converted_other(after, orig.len(), fixed_of, orig[i as int], i, b);
                }
            }
        } else {
            if converted(before, orig.len(), fixed_of, orig[i as int], i, b) {
                lemma_converted_kept(before, after, orig.len(), fixed_of, orig[i as int], i, b, it);
            } else {
                let j = choose|j: int| t <= j < todo.len() && #[trigger] todo[j].1.0 == i;
                assert(j != t);
            }
        }
    }
}

/// An instruction that is as it was, in its block, and that the pass leaves
/// alone or cannot rewrite, is converted.
proof fn lemma_unchanged_converted<F: Fn(u32) -> i32>(f: Function, n0: nat, fixed_of: F, d: InstData, i: nat, b: nat)
    requires
        view_at(f, i) == d@,
        f.layout@.block_of(i) == Some(b),
        pass_operands(d),
        float_op_of(d) is Other || !op_operands_ok(float_op_of(d), d) || (d.opcode is Fconst && !(d.imm matches Some(
            Immediate::F32Bits(_),
        ))),
    ensures
        converted(f, n0, fixed_of, d, i, b),
{
}

/// Converting depends on the instructions and the layout alone.
proof fn lemma_converted_same<F: Fn(u32) -> i32>(
    f1: Function,
    f2: Function,
    n0: nat,
    fixed_of: F,
    d: InstData,
    i: nat,
    b: nat,
)
    requires
        converted(f1, n0, fixed_of, d, i, b),
        f1.dfg.insts@ == f2.dfg.insts@,
        f1.layout == f2.layout,
    ensures
        converted(f2, n0, fixed_of, d, i, b),
{
    match d.opcode {
        Opcode::Fmul => {
            let (n, base) = choose|n: nat, base: u32|
                n >= n0 && #[trigger] mul_run(f1, n, base, d.args@[0], d.args@[1], d.results@[0], b);
            assert(mul_run(f2, n, base, d.args@[0], d.args@[1], d.results@[0], b));
        },
        Opcode::Fdiv => {
            let (n, base) = choose|n: nat, base: u32|
                n >= n0 && #[trigger] div_run(f1, n, base, d.args@[0], d.args@[1], d.results@[0], b);
            assert(div_run(f2, n, base, d.args@[0], d.args@[1], d.results@[0], b));
        },
        _ => {},
    }
}

/// Replacing instruction `inst` of block `block` by new instructions leaves
/// every other registered instruction in the block it was in (or in none),
/// and puts the new ones in `block`.
proof fn lemma_expanded_blocks(
    before: Function,
    after: Function,
    inst: Inst,
    block: Block,
    ds: Seq<InstDataView>,
    types: Seq<Type>,
)
    requires
        before.wf(),
        before.layout@.block_of(inst.0 as nat) == Some(block.0 as nat),
        expanded(before, after, inst, block, ds, types),
    ensures
        forall|x: nat|
            x < before.dfg.insts@.len() && x != inst.0 ==> #[trigger] after.layout@.block_of(x)
                == before.layout@.block_of(x),
        forall|k: nat| k < ds.len() ==> #[trigger] after.layout@.block_of(before.dfg.insts@.len() + k) == Some(
            block.0 as nat,
        ),
        after.layout@.block_of(inst.0 as nat) is None,
{
    let it = inst.0 as nat;
    let bt = block.0 as int;
    let n = before.dfg.insts@.len();
    let c = before.layout@.contents[bt];
    let p = before.layout@.pos_in_block(it);
    let s = spliced(c, p, n, ds.len());
    lemma_block_of_contains(before, it);
    before.layout.lemma_distinct();
    assert(0 <= p < c.len() && c[p] == it);
    assert(after.layout@.contents[bt] == s);
    assert(after.layout@.num_blocks() == before.layout@.num_blocks());
    // Where an instruction below `n` is in the new contents of `block`.
    assert forall|x: nat| x < n && x != it implies (#[trigger] s.contains(x) <==> c.contains(x)) by {
        if s.contains(x) {
            let q = s.index_of(x);
            if q < p {
                assert(s[q] == c[q]);
            } else if q < p + ds.len() {
                assert(s[q] == n + (q - p));
            } else {
                assert(s[q] == c[q - ds.len() + 1]);
            }
        }
        if c.contains(x) {
            let q = c.index_of(x);
            assert(q != p);
            if q < p {
                assert(s[q] == c[q]);
            } else {
                assert(s[q + ds.len() - 1] == c[q]);
            }
        }
    }
    assert forall|x: nat|
        x < before.dfg.insts@.len() && x != inst.0 implies #[trigger] after.layout@.block_of(x)
            == before.layout@.block_of(x) by {
        if before.layout@.block_of(x) is Some {
            lemma_block_of_contains(before, x);
            let b2 = before.layout@.block_of(x).unwrap() as int;
            if b2 == bt {
                assert(s.contains(x));
                lemma_contains_block_of(after, bt, x);
            } else {
                assert(after.layout@.contents[b2] == before.layout@.contents[b2]);
                lemma_contains_block_of(after, b2, x);
            }
        } else {
            if after.layout@.block_of(x) is Some {
                lemma_block_of_contains(after, x);
                let b2 = after.layout@.block_of(x).unwrap() as int;
                if b2 == bt {
                    assert(c.contains(x));
                    lemma_contains_block_of(before, bt, x);
                } else {
                    assert(after.layout@.contents[b2] == before.layout@.contents[b2]);
                    lemma_contains_block_of(before, b2, x);
                }
            }
        }
    }
    assert forall|k: nat| k < ds.len() implies #[trigger] after.layout@.block_of(n + k) == Some(block.0 as nat) by {
        assert(s[p + k] == n + k);
        lemma_contains_block_of(after, bt, (n + k) as nat);
    }
    if after.layout@.block_of(it) is Some {
        lemma_block_of_contains(after, it);
        let b2 = after.layout@.block_of(it).unwrap() as int;
        if b2 == bt {
            let q = s.index_of(it);
            if q < p {
                assert(s[q] == c[q]);
            } else if q < p + ds.len() {
                assert(s[q] == n + (q - p));
            } else {
                assert(s[q] == c[q - ds.len() + 1]);
            }
        } else {
            assert(after.layout@.contents[b2] == before.layout@.contents[b2]);
            lemma_contains_block_of(before, b2, it);
        }
    }
}

/// Replacing the instruction at position `t` of `todo` by new instructions
/// in fixed point leaves the rest pending from `t + 1` on.
proof fn lemma_pending_expanded(
    before: Function,
    after: Function,
    orig: Seq<InstData>,
    todo: Seq<(Block, Inst)>,
    t: int,
    ds: Seq<InstDataView>,
    types: Seq<Type>,
)
    requires
        before.wf(),
        pending(before, orig, todo, t),
        0 <= t < todo.len(),
        before.layout@.block_of(todo[t].1.0 as nat) == Some(todo[t].0.0 as nat),
        expanded(before, after, todo[t].1, todo[t].0, ds, types),
        forall|k: int| 0 <= k < ds.len() ==> fixed_inst(#[trigger] ds[k]),
    ensures
        pending(after, orig, todo, t + 1),
{
    let inst = todo[t].1.0 as nat;
    let block = todo[t].0.0 as int;
    let n = before.dfg.insts@.len();
    let c = before.layout@.contents[block];
    let p = before.layout@.pos_in_block(inst);
    lemma_block_of_contains(before, inst);
    before.layout.lemma_distinct();
    assert(0 <= p < c.len() && c[p] == inst);
    assert forall|i: nat|
        #[trigger] after.layout@.block_of(i) is Some && !fixed_inst(after.dfg.insts@[i as int]@) implies exists|j: int|
            t + 1 <= j < todo.len() && #[trigger] todo[j].1.0 == i && after.layout@.block_of(i) == Some(
                todo[j].0.0 as nat,
            ) && after.dfg.insts@[i as int] == orig[i as int] by {
        lemma_block_of_contains(after, i);
        let b2 = after.layout@.block_of(i).unwrap() as int;
        if i >= n {
            assert(after.dfg.insts@[n + (i - n)]@ == ds[i - n]);
        } else {
            assert(after.dfg.insts@.subrange(0, n as int)[i as int] == before.dfg.insts@[i as int]);
            assert(after.dfg.insts@[i as int] == before.dfg.insts@[i as int]);
            if b2 == block {
                let s = spliced(c, p, n, ds.len());
                assert(after.layout@.contents[block] == s);
                let q = s.index_of(i);
                if q < p {
                    assert(s[q] == c[q]);
                    assert(c[q] == i);
                    assert(q != p);
                } else if q < p + ds.len() {
                    assert(s[q] == n + (q - p));
                    assert(false);
                } else {
                    assert(s[q] == c[q - ds.len() + 1]);
                    assert(c[q - ds.len() + 1] == i);
                }
                assert(c.contains(i));
                assert(i != inst) by {
                    if i == inst {
                        let q2 = if q < p { q } else { q - ds.len() + 1 };
                        assert(c[q2] == c[p]);
                        assert(q2 != p);
                    }
                }
                lemma_contains_block_of(before, block, i);
            } else {
                assert(after.layout@.contents[b2] == before.layout@.contents[b2]);
                lemma_contains_block_of(before, b2, i);
                assert(i != inst);
            }
            let j = choose|j: int|
                t <= j < todo.len() && #[trigger] todo[j].1.0 == i && before.layout@.block_of(i) == Some(
                    todo[j].0.0 as nat,
                ) && before.dfg.insts@[i as int] == orig[i as int];
            assert(j != t);
        }
    }
}

/// The start of the message of a failed conversion.
pub open spec fn failure_prefix() -> Seq<char> {
    "Verification failed after transformation: "@
}

/// Convert all float operations in a function to fixed16x16: the signature's
/// float types become `i32`, each float instruction of the layout is
/// rewritten to integer instructions, float constants get the fixed-point
/// value `fixed_of` gives for their bits, every float value the layout
/// mentions becomes `i32`, and the function is verified. Where the function
/// has room for the rewrites (`pass_room`: six more instructions and values
/// still numbered within their limits), each instruction of the layout is
/// what `converted` says of its kind, and no float operation and no value of
/// the float type is left in the layout.
pub fn convert_floats_to_fixed16x16<F: Fn(u32) -> i32>(func: &mut Function, fixed_of: F) -> (r: Result<
    (),
    TransformError,
>)
    requires
        old(func).wf(),
        forall|bits: u32| call_requires(fixed_of, (bits,)),
        forall|k: int, q: int|
            0 <= k < old(func).layout@.order.len() && 0 <= q < old(func).len_at(k) ==> pass_operands(
                #[trigger] old(func).dfg.insts@[old(func).layout@.contents[old(func).block_at(k)][q] as int],
            ),
    ensures
        final(func).wf(),
        final(func).signature.params@ == fixed_types(old(func).signature.params@),
        final(func).signature.returns@ == fixed_types(old(func).signature.returns@),
        final(func).name == old(func).name,
        final(func).blocks == old(func).blocks,
        pass_room(&*final(func)) ==> forall|i: nat|
            #[trigger] final(func).layout@.block_of(i) is Some ==> fixed_inst(final(func).dfg.insts@[i as int]@),
        pass_room(&*final(func)) ==> forall|j: int|
            0 <= j < final(func).dfg.value_types@.len() && mentioned(&*final(func), Value(j as u32))
                ==> #[trigger] final(func).dfg.value_types@[j] != Type::F32,
        pass_room(&*final(func)) ==> forall|i: nat|
            #[trigger] old(func).layout@.block_of(i) is Some ==> converted(
                *final(func),
                old(func).dfg.insts@.len(),
                fixed_of,
                old(func).dfg.insts@[i as int],
                i,
                old(func).layout@.block_of(i).unwrap(),
            ),
        r is Ok <==> all_errs(&*final(func), None).len() == 0,
        r matches Err(e) ==> e.message@ == failure_prefix() + error_list_text(all_errs(&*final(func), None)),
{
    convert_signature(&mut func.signature);
    let ghost start = *func;
    let ghost orig = func.dfg.insts@;
    proof {
        assert(start.layout == old(func).layout && start.dfg == old(func).dfg);
        assert forall|k2: int, q2: int|
            0 <= k2 < start.layout@.order.len() && 0 <= q2 < start.len_at(k2) implies pass_operands(
                #[trigger] orig[start.layout@.contents[start.block_at(k2)][q2] as int],
            ) by {
            assert(old(func).len_at(k2) == start.len_at(k2));
            assert(orig[start.layout@.contents[start.block_at(k2)][q2] as int] == old(func).dfg.insts@[old(
                func,
            ).layout@.contents[old(func).block_at(k2)][q2] as int]);
        }
    }
    let mut todo: Vec<(Block, Inst)> = Vec::new();
    let blocks = func.blocks();
    let mut k: usize = 0;
    while k < blocks.len()
        invariant
            *func == start,
            start.wf(),
            orig == start.dfg.insts@,
            blocks@.len() == start.layout@.order.len(),
            forall|k2: int| 0 <= k2 < blocks@.len() ==> (#[trigger] blocks@[k2]).0 == start.layout@.order[k2],
            forall|k2: int, q2: int|
                0 <= k2 < start.layout@.order.len() && 0 <= q2 < start.len_at(k2) ==> pass_operands(
                    #[trigger] orig[start.layout@.contents[start.block_at(k2)][q2] as int],
                ),
            k <= blocks@.len(),
            forall|j: int|
                0 <= j < todo@.len() ==> (#[trigger] todo@[j]).1.0 < orig.len() && pass_operands(
                    orig[todo@[j].1.0 as int],
                ),
            forall|k2: int, q2: int|
                0 <= k2 < k && 0 <= q2 < start.len_at(k2) ==> #[trigger] listed(todo@, start, k2, q2),
            todo_from(start, todo@),
        decreases blocks@.len() - k,
    {
        let block = blocks[k];
        proof {
            start.layout.lemma_order_bound(k as int);
        }
        let insts = func.block_insts(block);
        let ghost todo0 = todo@;
        let mut q: usize = 0;
        while q < insts.len()
            invariant
                *func == start,
                start.wf(),
                orig == start.dfg.insts@,
                k < blocks@.len(),
                blocks@.len() == start.layout@.order.len(),
                block == blocks@[k as int],
                block.0 == start.layout@.order[k as int],
                block.0 < start.blocks@.len(),
                insts@.len() == start.len_at(k as int),
                forall|q2: int| 0 <= q2 < insts@.len() ==> (#[trigger] insts@[q2]).0
                    == start.layout@.contents[block.0 as int][q2],
                forall|k2: int, q2: int|
                    0 <= k2 < start.layout@.order.len() && 0 <= q2 < start.len_at(k2) ==> pass_operands(
                        #[trigger] orig[start.layout@.contents[start.block_at(k2)][q2] as int],
                    ),
                q <= insts@.len(),
                todo@.len() >= todo0.len(),
                forall|j: int| 0 <= j < todo0.len() ==> #[trigger] todo@[j] == todo0[j],
                forall|j: int|
                    0 <= j < todo@.len() ==> (#[trigger] todo@[j]).1.0 < orig.len() && pass_operands(
                        orig[todo@[j].1.0 as int],
                    ),
                forall|q2: int|
                    0 <= q2 < q ==> exists|j: int|
                        0 <= j < todo@.len() && (#[trigger] todo@[j]).0.0 == block.0
                            && todo@[j].1.0 == #[trigger] start.layout@.contents[block.0 as int][q2],
                todo_from(start, todo@),
            decreases insts@.len() - q,
        {
            proof {
                start.layout.lemma_contents_bound(block.0 as int, q as int);
                assert(pass_operands(orig[start.layout@.contents[start.block_at(k as int)][q as int] as int]));
            }
            let ghost before = todo@;
            todo.push((block, insts[q]));
            proof {
                lemma_contains_block_of(start, block.0 as int, start.layout@.contents[block.0 as int][q as int]);
                assert forall|j: int| 0 <= j < todo@.len() implies start.layout@.block_of((#[trigger] todo@[j]).1.0 as nat)
                    == Some(todo@[j].0.0 as nat) by {
                    if j < before.len() {
                        assert(todo@[j] == before[j]);
                    }
                }
                assert forall|q2: int|
                    0 <= q2 < q + 1 implies exists|j: int|
                        0 <= j < todo@.len() && (#[trigger] todo@[j]).0.0 == block.0
                            && todo@[j].1.0 == #[trigger] start.layout@.contents[block.0 as int][q2] by {
                    if q2 < q {
                        let j = choose|j: int|
                            0 <= j < before.len() && (#[trigger] before[j]).0.0 == block.0
                                && before[j].1.0 == start.layout@.contents[block.0 as int][q2];
                        assert(todo@[j] == before[j]);
                    } else {
                        assert(todo@[before.len() as int].1.0 == start.layout@.contents[block.0 as int][q2]);
                    }
                }
            }
            q = q + 1;
        }
        proof {
            assert forall|k2: int, q2: int|
                0 <= k2 < k + 1 && 0 <= q2 < start.len_at(k2) implies #[trigger] listed(todo@, start, k2, q2) by {
                if k2 < k {
                    assert(listed(todo0, start, k2, q2));
                    let j = choose|j: int|
                        0 <= j < todo0.len() && (#[trigger] todo0[j]).0.0 == start.layout@.order[k2]
                            && todo0[j].1.0 == start.layout@.contents[start.block_at(k2)][q2];
                    assert(todo@[j] == todo0[j]);
                } else {
                    assert(start.block_at(k2) == block.0);
                    assert(start.layout@.contents[block.0 as int][q2] == start.layout@.contents[start.block_at(k2)][q2]);
                    let j = choose|j: int|
                        0 <= j < todo@.len() && (#[trigger] todo@[j]).0.0 == block.0
                            && todo@[j].1.0 == start.layout@.contents[block.0 as int][q2];
                    assert(todo@[j].0.0 == start.layout@.order[k2]);
                }
            }
        }
        k = k + 1;
    }
    proof {
        start.layout.lemma_distinct();
        assert forall|i: nat|
            #[trigger] start.layout@.block_of(i) is Some && !fixed_inst(start.dfg.insts@[i as int]@) implies exists|j: int|
                0 <= j < todo@.len() && #[trigger] todo@[j].1.0 == i && start.layout@.block_of(i) == Some(
                    todo@[j].0.0 as nat,
                ) && start.dfg.insts@[i as int] == orig[i as int] by {
            lemma_block_of_contains(start, i);
            let b = start.layout@.block_of(i).unwrap();
            assert(start.layout@.order.contains(b));
            let k2 = start.layout@.order.index_of(b);
            let q2 = start.layout@.contents[b as int].index_of(i);
            assert(start.block_at(k2) == b);
            assert(0 <= q2 < start.len_at(k2));
            assert(listed(todo@, start, k2, q2));
            let j = choose|j: int|
                0 <= j < todo@.len() && (#[trigger] todo@[j]).0.0 == start.layout@.order[k2]
                    && todo@[j].1.0 == start.layout@.contents[start.block_at(k2)][q2];
        }
        assert(pending(start, orig, todo@, 0));
        assert forall|i: nat| #[trigger] start.layout@.block_of(i) is Some implies converted(
            start,
            orig.len(),
            fixed_of,
            orig[i as int],
            i,
            start.layout@.block_of(i).unwrap(),
        ) || (start.dfg.insts@[i as int] == orig[i as int] && start.layout@.block_of(i) == start.layout@.block_of(i)
            && exists|j: int| 0 <= j < todo@.len() && #[trigger] todo@[j].1.0 == i) by {
            lemma_block_of_contains(start, i);
            let b = start.layout@.block_of(i).unwrap();
            assert(start.layout@.order.contains(b));
            let k2 = start.layout@.order.index_of(b);
            let q2 = start.layout@.contents[b as int].index_of(i);
            assert(start.block_at(k2) == b);
            assert(listed(todo@, start, k2, q2));
        }
        assert(progress(start, start, orig, fixed_of, todo@, 0));
    }
    let ghost name = func.name;
    let ghost sig = func.signature;
    let ghost blocks_data = func.blocks;
    let mut t: usize = 0;
    while t < todo.len()
        invariant
            func.wf(),
            func.name == name,
            func.signature == sig,
            func.blocks == blocks_data,
            forall|bits: u32| call_requires(fixed_of, (bits,)),
            t <= todo@.len(),
            forall|j: int|
                0 <= j < todo@.len() ==> (#[trigger] todo@[j]).1.0 < orig.len() && pass_operands(
                    orig[todo@[j].1.0 as int],
                ),
            pass_room(&*func) ==> pending(*func, orig, todo@, t as int),
            start.wf(),
            start.dfg.insts@.len() == orig.len(),
            orig.len() <= func.dfg.insts@.len(),
            todo_from(start, todo@),
            pass_room(&*func) ==> progress(*func, start, orig, fixed_of, todo@, t as int),
        decreases todo@.len() - t,
    {
        let (block, inst) = todo[t];
        let ghost before = *func;
        let placed = func.layout.inst_block(inst) == Some(block);
        let (op, ok) = match func.dfg.inst_data(inst) {
            Some(d) => float_op(d),
            None => (FloatOp::Other, false),
        };
        proof {
            let i = inst.0 as nat;
            if placed && before.dfg.insts@[i as int] == orig[i as int] && !fixed_inst(before.dfg.insts@[i as int]@) {
                lemma_block_of_placed(before, inst, block);
                lemma_block_of_contains(before, i);
                lemma_float_op_ok(orig[i as int]);
            }
        }
        if placed && ok {
            proof {
                lemma_block_of_placed(*func, inst, block);
                lemma_block_of_contains(*func, inst.0 as nat);
            }
            let room = func.dfg.insts.len() < MAX_INSTS as usize - 6 && func.dfg.value_types.len()
                < u32::MAX as usize - 6;
            match op {
                FloatOp::Const => {
                    let _ = convert_fconst(func, inst, block, &fixed_of);
                    proof {
                        match fconst_bits(before, inst) {
                            Some(bits) => {
                                let v = choose|v: i32|
                                    #![trigger call_ensures(fixed_of, (bits,), v)]
                                    call_ensures(fixed_of, (bits,), v) && rewritten(
                                        before,
                                        *func,
                                        inst,
                                        inst_view(
                                            Opcode::Iconst,
                                            seq![],
                                            seq![data_of(before, inst).results@[0]],
                                            None,
                                            None,
                                            Some(Immediate::I64(v as i64)),
                                        ),
                                        data_of(before, inst).results@[0],
                                    );
                                lemma_set_type_len(before.dfg.value_types@, data_of(before, inst).results@[0].0 as nat, Type::I32);
                                if pass_room(&*func) {
                                    lemma_pending_replaced(before, *func, orig, todo@, t as int, inst_view(
                                        Opcode::Iconst,
                                        seq![],
                                        seq![data_of(before, inst).results@[0]],
                                        None,
                                        None,
                                        Some(Immediate::I64(v as i64)),
                                    ));
                                    let it = inst.0 as nat;
                                    if before.dfg.insts@[it as int] == orig[it as int] {
                                        assert(view_at(*func, it) == iconst_view(data_of(before, inst).results@[0], v));
                                        assert(converted(*func, orig.len(), fixed_of, orig[it as int], it, block.0 as nat));
                                    }
                                    lemma_progress_replaced(before, *func, start, orig, fixed_of, todo@, t as int, inst_view(
                                        Opcode::Iconst,
                                        seq![],
                                        seq![data_of(before, inst).results@[0]],
                                        None,
                                        None,
                                        Some(Immediate::I64(v as i64)),
                                    ));
                                }
                            },
                            None => {
                                if pass_room(&*func) {
                                    lemma_pending_skip(before, orig, todo@, t as int);
                                    let it = inst.0 as nat;
                                    if before.dfg.insts@[it as int] == orig[it as int] {
                                        lemma_unchanged_converted(before, orig.len(), fixed_of, orig[it as int], it, block.0 as nat);
                                    }
                                    lemma_progress_same(before, start, orig, fixed_of, todo@, t as int);
                                }
                            },
                        }
                    }
                },
                FloatOp::Add => {
                    let _ = convert_fadd(func, inst, block);
                    proof {
                        let d = data_of(before, inst);
                        lemma_set_type_len(before.dfg.value_types@, d.results@[0].0 as nat, Type::I32);
                        if pass_room(&*func) {
                            lemma_pending_replaced(before, *func, orig, todo@, t as int, inst_view(
                                Opcode::Iadd, seq![d.args@[0], d.args@[1]], seq![d.results@[0]], None, None, None));
                            lemma_progress_replaced(before, *func, start, orig, fixed_of, todo@, t as int, inst_view(
                                Opcode::Iadd, seq![d.args@[0], d.args@[1]], seq![d.results@[0]], None, None, None));
                        }
                    }
                },
                FloatOp::Sub => {
                    let _ = convert_fsub(func, inst, block);
                    proof {
                        let d = data_of(before, inst);
                        lemma_set_type_len(before.dfg.value_types@, d.results@[0].0 as nat, Type::I32);
                        if pass_room(&*func) {
                            lemma_pending_replaced(before, *func, orig, todo@, t as int, inst_view(
                                Opcode::Isub, seq![d.args@[0], d.args@[1]], seq![d.results@[0]], None, None, None));
                            lemma_progress_replaced(before, *func, start, orig, fixed_of, todo@, t as int, inst_view(
                                Opcode::Isub, seq![d.args@[0], d.args@[1]], seq![d.results@[0]], None, None, None));
                        }
                    }
                },
                FloatOp::Mul => {
                    if room {
                        let _ = convert_fmul(func, inst, block);
                        proof {
                            let d = data_of(before, inst);
                            let base = next_index(before.dfg.value_types@.len());
                            let ds = fmul_data(base, d.args@[0], d.args@[1], d.results@[0]);
                            assert(fixed_inst(ds[0]) && fixed_inst(ds[1]) && fixed_inst(ds[2]));
                            assert(fixed_inst(ds[3]) && fixed_inst(ds[4]) && fixed_inst(ds[5]));
                            if pass_room(&*func) {
                                lemma_pending_expanded(before, *func, orig, todo@, t as int, ds,
                                    fmul_types(before.dfg.value_types@, base, d.results@[0]));
                                let it = inst.0 as nat;
                                let n = before.dfg.insts@.len();
                                lemma_expanded_blocks(before, *func, inst, block, ds, fmul_types(before.dfg.value_types@, base, d.results@[0]));
                                assert forall|k: nat| k < 6 implies view_at(*func, n + k) == #[trigger] fmul_at(base, d.args@[0], d.args@[1], d.results@[0], k)
                                    && func.layout@.block_of(n + k) == Some(block.0 as nat) by {
                                    assert(func.dfg.insts@[n + k as int]@ == ds[k as int]);
                                }
                                assert(mul_run(*func, n, base, d.args@[0], d.args@[1], d.results@[0], block.0 as nat));
                                lemma_progress_expanded(before, *func, start, orig, fixed_of, todo@, t as int, ds,
                                    fmul_types(before.dfg.value_types@, base, d.results@[0]));
                            }
                        }
                    } else {
                        proof {
                            assert(!pass_room(&before));
                        }
                    }
                },
                FloatOp::Div => {
                    if room {
                        let _ = convert_fdiv(func, inst, block);
                        proof {
                            let d = data_of(before, inst);
                            let base = next_index(before.dfg.value_types@.len());
                            let ds = fdiv_data(base, d.args@[0], d.args@[1], d.results@[0]);
                            assert(fixed_inst(ds[0]) && fixed_inst(ds[1]) && fixed_inst(ds[2]));
                            if pass_room(&*func) {
                                lemma_pending_expanded(before, *func, orig, todo@, t as int, ds,
                                    fdiv_types(before.dfg.value_types@, base, d.results@[0]));
                                let it = inst.0 as nat;
                                let n = before.dfg.insts@.len();
                                lemma_expanded_blocks(before, *func, inst, block, ds, fdiv_types(before.dfg.value_types@, base, d.results@[0]));
                                assert forall|k: nat| k < 3 implies view_at(*func, n + k) == #[trigger] fdiv_at(base, d.args@[0], d.args@[1], d.results@[0], k)
                                    && func.layout@.block_of(n + k) == Some(block.0 as nat) by {
                                    assert(func.dfg.insts@[n + k as int]@ == ds[k as int]);
                                }
                                assert(div_run(*func, n, base, d.args@[0], d.args@[1], d.results@[0], block.0 as nat));
                                lemma_progress_expanded(before, *func, start, orig, fixed_of, todo@, t as int, ds,
                                    fdiv_types(before.dfg.value_types@, base, d.results@[0]));
                            }
                        }
                    } else {
                        proof {
                            assert(!pass_room(&before));
                        }
                    }
                },
                FloatOp::Compare(cond) => {
                    let _ = convert_float_compare(func, inst, block, cond);
                    proof {
                        lemma_pending_compared(before, *func, orig, todo@, t as int, cond);
                        if pass_room(&*func) {
                            let d = data_of(before, inst);
                            assert(pass_room(&before));
                            lemma_progress_replaced(before, *func, start, orig, fixed_of, todo@, t as int, compare_rewrite(
                                cond, d.args@[0], d.args@[1], d.results@[0]));
                        }
                    }
                },
                FloatOp::Load => {
                    let _ = convert_load(func, inst, block);
                    proof {
                        let d = data_of(before, inst);
                        lemma_set_type_len(before.dfg.value_types@, d.results@[0].0 as nat, Type::I32);
                        if pass_room(&*func) {
                            lemma_pending_replaced(before, *func, orig, todo@, t as int, inst_view(
                                Opcode::Load, seq![d.args@[0]], seq![d.results@[0]], None, Some(Type::I32), None));
                            lemma_progress_replaced(before, *func, start, orig, fixed_of, todo@, t as int, inst_view(
                                Opcode::Load, seq![d.args@[0]], seq![d.results@[0]], None, Some(Type::I32), None));
                        }
                    }
                },
                FloatOp::Store => {
                    let _ = convert_store(func, inst, block);
                    proof {
                        let d = data_of(before, inst);
                        if pass_room(&*func) {
                            lemma_pending_replaced(before, *func, orig, todo@, t as int, inst_view(
                                Opcode::Store, seq![d.args@[0], d.args@[1]], seq![], None, Some(Type::I32), None));
                            lemma_progress_replaced(before, *func, start, orig, fixed_of, todo@, t as int, inst_view(
                                Opcode::Store, seq![d.args@[0], d.args@[1]], seq![], None, Some(Type::I32), None));
                        }
                    }
                },
                FloatOp::Other => {
                    proof {
                        if pass_room(&*func) {
                            lemma_pending_skip(before, orig, todo@, t as int);
                            let it = inst.0 as nat;
                            if before.dfg.insts@[it as int] == orig[it as int] {
                                lemma_unchanged_converted(before, orig.len(), fixed_of, orig[it as int], it, block.0 as nat);
                            }
                            lemma_progress_same(before, start, orig, fixed_of, todo@, t as int);
                        }
                    }
                },
            }
        } else {
            proof {
                if pass_room(&*func) {
                    lemma_pending_skip(before, orig, todo@, t as int);
                    let it = inst.0 as nat;
                    if before.dfg.insts@[it as int] == orig[it as int] && before.layout@.block_of(it) == Some(block.0 as nat) {
                        lemma_unchanged_converted(before, orig.len(), fixed_of, orig[it as int], it, block.0 as nat);
                    }
                    lemma_progress_same(before, start, orig, fixed_of, todo@, t as int);
                }
            }
        }
        t = t + 1;
    }
    let ghost done = *func;
    if func.dfg.value_types.len() <= u32::MAX as usize {
        update_all_value_types(func);
    }
    proof {
        if pass_room(&*func) {
            assert(pending(done, orig, todo@, todo@.len() as int));
            assert forall|j: int|
                0 <= j < func.dfg.value_types@.len() && mentioned(&*func, Value(j as u32)) implies #[trigger] func.dfg.value_types@[j]
                    != Type::F32 by {
                lemma_mentioned_same(&*func, &done, Value(j as u32));
            }
            assert(progress(done, start, orig, fixed_of, todo@, todo@.len() as int));
            assert forall|i: nat| #[trigger] old(func).layout@.block_of(i) is Some implies converted(
                *func,
                old(func).dfg.insts@.len(),
                fixed_of,
                old(func).dfg.insts@[i as int],
                i,
                old(func).layout@.block_of(i).unwrap(),
            ) by {
                assert(start.layout@.block_of(i) is Some);
                lemma_converted_same(done, *func, orig.len(), fixed_of, orig[i as int], i, start.layout@.block_of(i).unwrap());
            }
        }
    }
    match verify(func, None) {
        Ok(()) => Ok(()),
        Err(errors) => {
            let mut message = String::new();
            push_str(&mut message, "Verification failed after transformation: ");
            let text = errors_text(&errors);
            push_str(&mut message, text.as_str());
            proof {
                reveal_strlit("Verification failed after transformation: ");
            }
            Err(TransformError::new(message))
        },
    }
}

/// Rewriting a float comparison at position `t` of `todo` to an integer
/// one leaves the rest pending from `t + 1` on.
proof fn lemma_pending_compared(
    before: Function,
    after: Function,
    orig: Seq<InstData>,
    todo: Seq<(Block, Inst)>,
    t: int,
    cond: FloatCC,
)
    requires
        before.wf(),
        pass_room(&before) ==> pending(before, orig, todo, t),
        0 <= t < todo.len(),
        todo[t].1.0 < before.dfg.insts@.len(),
        rewritten(
            before,
            after,
            todo[t].1,
            compare_rewrite(
                cond,
                data_of(before, todo[t].1).args@[0],
                data_of(before, todo[t].1).args@[1],
                data_of(before, todo[t].1).results@[0],
            ),
            data_of(before, todo[t].1).results@[0],
        ),
    ensures
        after.dfg.insts@.len() == before.dfg.insts@.len(),
        after.dfg.value_types@.len() >= before.dfg.value_types@.len(),
        pass_room(&after) ==> pending(after, orig, todo, t + 1),
{
    let d = data_of(before, todo[t].1);
    if pass_room(&after) {
        assert(pass_room(&before));
        lemma_pending_replaced(
        before,
        after,
        orig,
        todo,
        t,
        compare_rewrite(cond, d.args@[0], d.args@[1], d.results@[0]),
        );
    }
}

/// Two functions with the same layout, instructions and blocks mention the
/// same values.
proof fn lemma_mentioned_same(f: &Function, g: &Function, v: Value)
    requires
        f.layout == g.layout,
        f.dfg.insts@ == g.dfg.insts@,
        f.blocks == g.blocks,
    ensures
        mentioned(f, v) == mentioned(g, v),
{
    assert forall|k: int, q: int| #[trigger] operand_at(f, k, q, v) == operand_at(g, k, q, v) by {}
    assert forall|k: int| 0 <= k < f.layout@.order.len() implies f.len_at(k) == g.len_at(k) by {}
    if operand_before(f, f.layout@.order.len() as int, 0, v) {
        let (k2, q2) = choose|k2: int, q2: int|
            0 <= k2 < f.layout@.order.len() && 0 <= q2 < f.len_at(k2) && #[trigger] operand_at(f, k2, q2, v);
        assert(operand_at(g, k2, q2, v));
    }
    if operand_before(g, g.layout@.order.len() as int, 0, v) {
        let (k2, q2) = choose|k2: int, q2: int|
            0 <= k2 < g.layout@.order.len() && 0 <= q2 < g.len_at(k2) && #[trigger] operand_at(g, k2, q2, v);
        assert(operand_at(f, k2, q2, v));
    }
    if param_before(f, f.layout@.order.len() as int, v) {
        let k2 = choose|k2: int| 0 <= k2 < f.layout@.order.len() && #[trigger] f.blocks@[f.block_at(k2)].params@.contains(v);
        assert(g.blocks@[g.block_at(k2)].params@.contains(v));
    }
    if param_before(g, g.layout@.order.len() as int, v) {
        let k2 = choose|k2: int| 0 <= k2 < g.layout@.order.len() && #[trigger] g.blocks@[g.block_at(k2)].params@.contains(v);
        assert(f.blocks@[f.block_at(k2)].params@.contains(v));
    }
}

/// The instruction at position `t` of `todo`, when it is not pending
/// there, leaves the rest pending from `t + 1` on.
proof fn lemma_pending_skip(f: Function, orig: Seq<InstData>, todo: Seq<(Block, Inst)>, t: int)
    requires
        pending(f, orig, todo, t),
        0 <= t < todo.len(),
        !(f.layout@.block_of(todo[t].1.0 as nat) == Some(todo[t].0.0 as nat) && !fixed_inst(
            f.dfg.insts@[todo[t].1.0 as int]@,
        ) && f.dfg.insts@[todo[t].1.0 as int] == orig[todo[t].1.0 as int]),
    ensures
        pending(f, orig, todo, t + 1),
{
    assert forall|i: nat|
        #[trigger] f.layout@.block_of(i) is Some && !fixed_inst(f.dfg.insts@[i as int]@) implies exists|j: int|
            t + 1 <= j < todo.len() && #[trigger] todo[j].1.0 == i && f.layout@.block_of(i) == Some(
                todo[j].0.0 as nat,
            ) && f.dfg.insts@[i as int] == orig[i as int] by {
        let j = choose|j: int|
            t <= j < todo.len() && #[trigger] todo[j].1.0 == i && f.layout@.block_of(i) == Some(
                todo[j].0.0 as nat,
            ) && f.dfg.insts@[i as int] == orig[i as int];
        assert(j != t);
    }
}

/// An instruction that is not in fixed point and has the operands the pass
/// reads is a float operation with the operands its rewrite reads.
proof fn lemma_float_op_ok(d: InstData)
    requires
        pass_operands(d),
        !fixed_inst(d@),
    ensures
        !(float_op_of(d) is Other),
        op_operands_ok(float_op_of(d), d),
        float_op_of(d) is Const ==> d.imm matches Some(Immediate::F32Bits(_)),
{
}

/// No float type is left in a list of types once it is in fixed point, and
/// converting it again changes nothing.
pub proof fn lemma_fixed_types_no_float(ts: Seq<Type>)
    ensures
        forall|k: int| 0 <= k < fixed_types(ts).len() ==> #[trigger] fixed_types(ts)[k] != Type::F32,
        fixed_types(fixed_types(ts)) == fixed_types(ts),
{
    assert(fixed_types(fixed_types(ts)) =~= fixed_types(ts));
}

/// After the value types are updated, no value the layout mentions has the
/// float type, and a value it does not mention keeps its type.
pub proof fn lemma_retyped_no_float(f: &Function, j: int)
    requires
        0 <= j < f.dfg.value_types@.len(),
    ensures
        mentioned(f, Value(j as u32)) ==> retyped(f)[j] != Type::F32,
        !mentioned(f, Value(j as u32)) ==> retyped(f)[j] == f.dfg.value_types@[j],
        retyped(f).len() == f.dfg.value_types@.len(),
{
}

} // verus!
