//! Instruction data structure.

use vstd::prelude::*;

use crate::{
    condcodes::{FloatCC, IntCC},
    dfg::opcode::Opcode,
    entity::Block,
    trapcode::TrapCode,
    types::Type,
    value::{copy_values, Value},
};

verus! {

/// Instruction data (opcode + operands)
///
/// This structure stores what an instruction does, separate from
/// where it appears in the layout. All instructions follow this
/// uniform structure.
#[derive(Debug)]
pub struct InstData {
    /// The operation this instruction performs
    pub opcode: Opcode,
    /// Input values (arguments)
    pub args: Vec<Value>,
    /// Output values (results, usually 0 or 1)
    pub results: Vec<Value>,
    /// Block arguments for branches/jumps
    pub block_args: Option<BlockArgs>,
    /// Type information (for loads/stores)
    pub ty: Option<Type>,
    /// Immediate values (for constants, syscalls, condition and trap codes)
    pub imm: Option<Immediate>,
}

/// Block arguments for control flow instructions
///
/// For Jump: single target with args
/// For Br: two targets with args each
#[derive(Debug)]
pub struct BlockArgs {
    /// Targets with their argument values
    pub targets: Vec<(Block, Vec<Value>)>,
}

/// Immediate values
#[derive(Debug, PartialEq, Eq)]
pub enum Immediate {
    /// 64-bit signed integer
    I64(i64),
    /// 32-bit floating point (stored as its bits)
    F32Bits(u32),
    /// 32-bit signed integer
    I32(i32),
    /// String (for names)
    String(String),
    /// Integer condition code
    IntCondCode(IntCC),
    /// Floating point condition code
    FloatCondCode(FloatCC),
    /// Trap code
    TrapCode(TrapCode),
}

/// The abstract content of an instruction.
pub struct InstDataView {
    pub opcode: Opcode,
    pub args: Seq<Value>,
    pub results: Seq<Value>,
    pub block_args: Option<Seq<(Block, Seq<Value>)>>,
    pub ty: Option<Type>,
    pub imm: Option<Immediate>,
}

/// The targets of block arguments, each with its argument values.
pub open spec fn targets_view(t: Seq<(Block, Vec<Value>)>) -> Seq<(Block, Seq<Value>)> {
    t.map_values(|p: (Block, Vec<Value>)| (p.0, p.1@))
}

impl View for BlockArgs {
    type V = Seq<(Block, Seq<Value>)>;

    open spec fn view(&self) -> Seq<(Block, Seq<Value>)> {
        targets_view(self.targets@)
    }
}

/// An optional list of block targets, by view.
pub open spec fn block_args_view(b: Option<BlockArgs>) -> Option<Seq<(Block, Seq<Value>)>> {
    match b {
        Some(ba) => Some(ba@),
        None => None,
    }
}

impl View for InstData {
    type V = InstDataView;

    open spec fn view(&self) -> InstDataView {
        InstDataView {
            opcode: self.opcode,
            args: self.args@,
            results: self.results@,
            block_args: block_args_view(self.block_args),
            ty: self.ty,
            imm: self.imm,
        }
    }
}

/// A list of one value.
fn values1(a: Value) -> (r: Vec<Value>)
    ensures
        r@ == seq![a],
{
    let mut v: Vec<Value> = Vec::new();
    v.push(a);
    proof {
        assert(v@ =~= seq![a]);
    }
    v
}

/// A list of two values.
fn values2(a: Value, b: Value) -> (r: Vec<Value>)
    ensures
        r@ == seq![a, b],
{
    let mut v: Vec<Value> = Vec::new();
    v.push(a);
    v.push(b);
    proof {
        assert(v@ =~= seq![a, b]);
    }
    v
}

/// One block target with its arguments.
fn targets1(t: Block, args: Vec<Value>) -> (r: Vec<(Block, Vec<Value>)>)
    ensures
        targets_view(r@) == seq![(t, args@)],
{
    let ghost a = args@;
    let mut v: Vec<(Block, Vec<Value>)> = Vec::new();
    v.push((t, args));
    proof {
        assert(targets_view(v@) =~= seq![(t, a)]);
    }
    v
}

/// Two block targets with their arguments.
fn targets2(t1: Block, args1: Vec<Value>, t2: Block, args2: Vec<Value>) -> (r: Vec<(Block, Vec<Value>)>)
    ensures
        targets_view(r@) == seq![(t1, args1@), (t2, args2@)],
{
    let ghost a1 = args1@;
    let ghost a2 = args2@;
    let mut v: Vec<(Block, Vec<Value>)> = Vec::new();
    v.push((t1, args1));
    v.push((t2, args2));
    proof {
        assert(targets_view(v@) =~= seq![(t1, a1), (t2, a2)]);
    }
    v
}

impl Clone for Immediate {
    fn clone(&self) -> (r: Self)
        ensures
            r == *self,
    {
        match self {
            Immediate::I64(v) => Immediate::I64(*v),
            Immediate::F32Bits(v) => Immediate::F32Bits(*v),
            Immediate::I32(v) => Immediate::I32(*v),
            Immediate::String(s) => Immediate::String(s.clone()),
            Immediate::IntCondCode(c) => Immediate::IntCondCode(*c),
            Immediate::FloatCondCode(c) => Immediate::FloatCondCode(*c),
            Immediate::TrapCode(c) => Immediate::TrapCode(*c),
        }
    }
}

impl Clone for BlockArgs {
    fn clone(&self) -> (r: Self)
        ensures
            r@ == self@,
    {
        let mut targets: Vec<(Block, Vec<Value>)> = Vec::new();
        let mut i: usize = 0;
        while i < self.targets.len()
            invariant
                i <= self.targets@.len(),
                targets@.len() == i,
                forall|k: int|
                    0 <= k < i ==> (#[trigger] targets@[k]).0 == self.targets@[k].0 && targets@[k].1@
                        == self.targets@[k].1@,
            decreases self.targets@.len() - i,
        {
            let t = &self.targets[i];
            let c = copy_values(&t.1);
            targets.push((t.0, c));
            i = i + 1;
        }
        proof {
            assert(targets_view(targets@) =~= targets_view(self.targets@));
        }
        BlockArgs { targets }
    }
}

impl Clone for InstData {
    fn clone(&self) -> (r: Self)
        ensures
            r@ == self@,
    {
        let block_args = match &self.block_args {
            Some(b) => Some(b.clone()),
            None => None,
        };
        let imm = match &self.imm {
            Some(i) => Some(i.clone()),
            None => None,
        };
        InstData {
            opcode: self.opcode.clone(),
            args: copy_values(&self.args),
            results: copy_values(&self.results),
            block_args,
            ty: self.ty,
            imm,
        }
    }
}

/// The immediate a comparison opcode carries: its condition code.
pub open spec fn cond_imm(opcode: Opcode) -> Option<Immediate> {
    match opcode {
        Opcode::Icmp { cond } => Some(Immediate::IntCondCode(cond)),
        Opcode::Fcmp { cond } => Some(Immediate::FloatCondCode(cond)),
        _ => None,
    }
}

/// The instruction with the given opcode and operands.
pub open spec fn inst_view(
    opcode: Opcode,
    args: Seq<Value>,
    results: Seq<Value>,
    block_args: Option<Seq<(Block, Seq<Value>)>>,
    ty: Option<Type>,
    imm: Option<Immediate>,
) -> InstDataView {
    InstDataView { opcode, args, results, block_args, ty, imm }
}

impl InstData {
    /// Create a new instruction data with the given opcode
    pub fn new(opcode: Opcode) -> (r: Self)
        ensures
            r@ == inst_view(opcode, seq![], seq![], None, None, None),
    {
        Self { opcode, args: Vec::new(), results: Vec::new(), block_args: None, ty: None, imm: None }
    }

    /// Create an arithmetic instruction
    pub fn arithmetic(opcode: Opcode, result: Value, arg1: Value, arg2: Value) -> (r: Self)
        ensures
            r@ == inst_view(opcode, seq![arg1, arg2], seq![result], None, None, None),
    {
        Self {
            opcode,
            args: values2(arg1, arg2),
            results: values1(result),
            block_args: None,
            ty: None,
            imm: None,
        }
    }

    /// Create a comparison instruction; an `icmp` or `fcmp` carries its
    /// condition code as immediate too.
    pub fn comparison(opcode: Opcode, result: Value, arg1: Value, arg2: Value) -> (r: Self)
        ensures
            r@ == inst_view(opcode, seq![arg1, arg2], seq![result], None, None, cond_imm(opcode)),
    {
        let imm = match &opcode {
            Opcode::Icmp { cond } => Some(Immediate::IntCondCode(*cond)),
            Opcode::Fcmp { cond } => Some(Immediate::FloatCondCode(*cond)),
            _ => None,
        };
        Self { opcode, args: values2(arg1, arg2), results: values1(result), block_args: None, ty: None, imm }
    }

    /// Create a binary bitwise instruction (iand, ior, ixor)
    pub fn bitwise(opcode: Opcode, result: Value, arg1: Value, arg2: Value) -> (r: Self)
        ensures
            r@ == inst_view(opcode, seq![arg1, arg2], seq![result], None, None, None),
    {
        Self::arithmetic(opcode, result, arg1, arg2)
    }

    /// Create a unary bitwise instruction (inot)
    pub fn bitwise_unary(opcode: Opcode, result: Value, arg: Value) -> (r: Self)
        ensures
            r@ == inst_view(opcode, seq![arg], seq![result], None, None, None),
    {
        Self { opcode, args: values1(arg), results: values1(result), block_args: None, ty: None, imm: None }
    }

    /// Create a shift instruction (ishl, ishr, iashr)
    pub fn shift(opcode: Opcode, result: Value, arg1: Value, arg2: Value) -> (r: Self)
        ensures
            r@ == inst_view(opcode, seq![arg1, arg2], seq![result], None, None, None),
    {
        Self::arithmetic(opcode, result, arg1, arg2)
    }

    /// Create a constant instruction: `iconst` for an integer immediate,
    /// `fconst` for a float one.
    pub fn constant(result: Value, imm: Immediate) -> (r: Self)
        requires
            imm is I64 || imm is I32 || imm is F32Bits,
        ensures
            r@ == inst_view(
                if imm is F32Bits {
                    Opcode::Fconst
                } else {
                    Opcode::Iconst
                },
                seq![],
                seq![result],
                None,
                None,
                Some(imm),
            ),
    {
        let opcode = match imm {
            Immediate::F32Bits(_) => Opcode::Fconst,
            _ => Opcode::Iconst,
        };
        Self {
            opcode,
            args: Vec::new(),
            results: values1(result),
            block_args: None,
            ty: None,
            imm: Some(imm),
        }
    }

    /// Create a stack allocation instruction
    pub fn stackalloc(result: Value, size: u32) -> (r: Self)
        ensures
            r@ == inst_view(Opcode::StackAlloc { size }, seq![], seq![result], None, None, None),
    {
        Self {
            opcode: Opcode::StackAlloc { size },
            args: Vec::new(),
            results: values1(result),
            block_args: None,
            ty: None,
            imm: None,
        }
    }

    /// Create a jump instruction
    pub fn jump(target: Block, args: Vec<Value>) -> (r: Self)
        ensures
            r@ == inst_view(Opcode::Jump, args@, seq![], Some(seq![(target, args@)]), None, None),
    {
        let copy = copy_values(&args);
        let r = Self {
            opcode: Opcode::Jump,
            args: copy,
            results: Vec::new(),
            block_args: Some(BlockArgs { targets: targets1(target, args) }),
            ty: None,
            imm: None,
        };
        proof {
            assert(r.block_args.unwrap()@ =~= seq![(target, args@)]);
        }
        r
    }

    /// Create a branch instruction
    pub fn branch(
        condition: Value,
        target_true: Block,
        args_true: Vec<Value>,
        target_false: Block,
        args_false: Vec<Value>,
    ) -> (r: Self)
        ensures
            r@ == inst_view(
                Opcode::Br,
                seq![condition] + args_true@ + args_false@,
                seq![],
                Some(seq![(target_true, args_true@), (target_false, args_false@)]),
                None,
                None,
            ),
    {
        let mut all_args: Vec<Value> = values1(condition);
        let mut i: usize = 0;
        while i < args_true.len()
            invariant
                i <= args_true@.len(),
                all_args@ == seq![condition] + args_true@.subrange(0, i as int),
            decreases args_true@.len() - i,
        {
            all_args.push(args_true[i]);
            proof {
                assert(all_args@ =~= seq![condition] + args_true@.subrange(0, i + 1));
            }
            i = i + 1;
        }
        let mut j: usize = 0;
        while j < args_false.len()
            invariant
                i == args_true@.len(),
                j <= args_false@.len(),
                all_args@ == seq![condition] + args_true@.subrange(0, i as int) + args_false@.subrange(
                    0,
                    j as int,
                ),
            decreases args_false@.len() - j,
        {
            all_args.push(args_false[j]);
            proof {
                assert(all_args@ =~= seq![condition] + args_true@.subrange(0, i as int) + args_false@.subrange(
                    0,
                    j + 1,
                ));
            }
            j = j + 1;
        }
        proof {
            assert(args_true@.subrange(0, i as int) =~= args_true@);
            assert(args_false@.subrange(0, j as int) =~= args_false@);
        }
        let r = Self {
            opcode: Opcode::Br,
            args: all_args,
            results: Vec::new(),
            block_args: Some(
                BlockArgs { targets: targets2(target_true, args_true, target_false, args_false) },
            ),
            ty: None,
            imm: None,
        };
        proof {
            assert(r.block_args.unwrap()@ =~= seq![(target_true, args_true@), (target_false, args_false@)]);
        }
        r
    }

    /// Create a call instruction
    pub fn call(callee: String, args: Vec<Value>, results: Vec<Value>) -> (r: Self)
        ensures
            r@ == inst_view(Opcode::Call { callee }, args@, results@, None, None, None),
    {
        Self { opcode: Opcode::Call { callee }, args, results, block_args: None, ty: None, imm: None }
    }

    /// Create a syscall instruction; the syscall number is its immediate
    pub fn syscall(number: i32, args: Vec<Value>, results: Vec<Value>) -> (r: Self)
        ensures
            r@ == inst_view(Opcode::Syscall, args@, results@, None, None, Some(Immediate::I32(number))),
    {
        Self {
            opcode: Opcode::Syscall,
            args,
            results,
            block_args: None,
            ty: None,
            imm: Some(Immediate::I32(number)),
        }
    }

    /// Create a return instruction; the returned values are its arguments
    pub fn return_(values: Vec<Value>) -> (r: Self)
        ensures
            r@ == inst_view(Opcode::Return, values@, seq![], None, None, None),
    {
        Self { opcode: Opcode::Return, args: values, results: Vec::new(), block_args: None, ty: None, imm: None }
    }

    /// Create a load instruction
    pub fn load(result: Value, address: Value, ty: Type) -> (r: Self)
        ensures
            r@ == inst_view(Opcode::Load, seq![address], seq![result], None, Some(ty), None),
    {
        Self {
            opcode: Opcode::Load,
            args: values1(address),
            results: values1(result),
            block_args: None,
            ty: Some(ty),
            imm: None,
        }
    }

    /// Create a store instruction
    pub fn store(address: Value, value: Value, ty: Type) -> (r: Self)
        ensures
            r@ == inst_view(Opcode::Store, seq![address, value], seq![], None, Some(ty), None),
    {
        Self {
            opcode: Opcode::Store,
            args: values2(address, value),
            results: Vec::new(),
            block_args: None,
            ty: Some(ty),
            imm: None,
        }
    }

    /// Create a halt instruction
    pub fn halt() -> (r: Self)
        ensures
            r@ == inst_view(Opcode::Halt, seq![], seq![], None, None, None),
    {
        Self::new(Opcode::Halt)
    }

    /// Create an unconditional trap instruction
    pub fn trap(code: TrapCode) -> (r: Self)
        ensures
            r@ == inst_view(Opcode::Trap { code }, seq![], seq![], None, None, Some(Immediate::TrapCode(code))),
    {
        Self {
            opcode: Opcode::Trap { code },
            args: Vec::new(),
            results: Vec::new(),
            block_args: None,
            ty: None,
            imm: Some(Immediate::TrapCode(code)),
        }
    }

    /// Create a trap-if-zero instruction
    pub fn trapz(condition: Value, code: TrapCode) -> (r: Self)
        ensures
            r@ == inst_view(
                Opcode::Trapz { code },
                seq![condition],
                seq![],
                None,
                None,
                Some(Immediate::TrapCode(code)),
            ),
    {
        Self {
            opcode: Opcode::Trapz { code },
            args: values1(condition),
            results: Vec::new(),
            block_args: None,
            ty: None,
            imm: Some(Immediate::TrapCode(code)),
        }
    }

    /// Create a trap-if-non-zero instruction
    pub fn trapnz(condition: Value, code: TrapCode) -> (r: Self)
        ensures
            r@ == inst_view(
                Opcode::Trapnz { code },
                seq![condition],
                seq![],
                None,
                None,
                Some(Immediate::TrapCode(code)),
            ),
    {
        Self {
            opcode: Opcode::Trapnz { code },
            args: values1(condition),
            results: Vec::new(),
            block_args: None,
            ty: None,
            imm: Some(Immediate::TrapCode(code)),
        }
    }
}

} // verus!
