//! Type checks: operand types, block argument types and call types.

use vstd::prelude::*;

use crate::{
    dfg::{inst_data::InstDataView, InstData, Opcode},
    entity::{Block, Inst},
    function::Function,
    ir_verifier::{
        errs_by, errs_view, format::chk, lemma_errs_by_agree, prefixed, push_per_inst, strs, ErrView,
        VerifierError,
    },
    module::Module,
    parser::validation::targets_of,
    text::{dec, push_dec, push_str, push_type, type_text},
    types::Type,
    value::Value,
};

verus! {

/// The type of a value, if it has one.
pub open spec fn vt(f: &Function, v: Value) -> Option<Type> {
    if v.0 < f.dfg.value_types@.len() {
        Some(f.dfg.value_types@[v.0 as int])
    } else {
        None
    }
}

/// The name of a type's variant.
pub open spec fn ty_name(t: Type) -> Seq<char> {
    match t {
        Type::I32 => "I32"@,
        Type::U32 => "U32"@,
        Type::F32 => "F32"@,
    }
}

/// `<t1> and <t2>`, by the names of their variants.
pub open spec fn pair_text(t1: Type, t2: Type) -> Seq<char> {
    ty_name(t1) + " and "@ + ty_name(t2)
}

/// The operand type errors of an instruction: arithmetic on other than
/// `i32`, integer comparison of non-integers or of two types, float
/// comparison of non-floats, and loads and stores without a type.
pub open spec fn operand_errs(f: &Function, d: InstDataView) -> Seq<Seq<char>> {
    let two = d.args.len() >= 2;
    match d.opcode {
        Opcode::Iadd | Opcode::Isub | Opcode::Imul | Opcode::Idiv | Opcode::Irem => if two {
            match (vt(f, d.args[0]), vt(f, d.args[1])) {
                (Some(t1), Some(t2)) => chk(
                    t1 != Type::I32 || t2 != Type::I32,
                    "Arithmetic operation expects i32 operands, got "@ + pair_text(t1, t2),
                ),
                _ => seq![],
            }
        } else {
            seq![]
        },
        Opcode::Icmp { .. } => if two {
            match (vt(f, d.args[0]), vt(f, d.args[1])) {
                (Some(t1), Some(t2)) => chk(
                    !(t1 is I32 || t1 is U32) || !(t2 is I32 || t2 is U32),
                    "Icmp operation expects integer operands, got "@ + pair_text(t1, t2),
                ) + chk(t1 != t2, "Icmp operation expects operands of the same type, got "@ + pair_text(t1, t2)),
                _ => seq![],
            }
        } else {
            seq![]
        },
        Opcode::Fcmp { .. } => if two {
            match (vt(f, d.args[0]), vt(f, d.args[1])) {
                (Some(t1), Some(t2)) => chk(
                    t1 != Type::F32 || t2 != Type::F32,
                    "Fcmp operation expects "@ + type_text(Type::F32) + " operands, got "@ + pair_text(t1, t2),
                ),
                _ => seq![],
            }
        } else {
            seq![]
        },
        Opcode::Load => chk(d.ty is None, "Load instruction requires type information"@),
        Opcode::Store => chk(d.ty is None, "Store instruction requires type information"@),
        _ => seq![],
    }
}

fn push_ty_name(out: &mut String, t: Type)
    ensures
        final(out)@ == old(out)@ + ty_name(t),
{
    match t {
        Type::I32 => push_str(out, "I32"),
        Type::U32 => push_str(out, "U32"),
        Type::F32 => push_str(out, "F32"),
    }
}

fn pair_message(prefix: &str, t1: Type, t2: Type) -> (r: String)
    ensures
        r@ == prefix@ + pair_text(t1, t2),
{
    let mut m = String::new();
    push_str(&mut m, prefix);
    push_ty_name(&mut m, t1);
    push_str(&mut m, " and ");
    push_ty_name(&mut m, t2);
    proof {
        assert(m@ =~= prefix@ + pair_text(t1, t2));
    }
    m
}

fn push_msg(out: &mut Vec<String>, m: String)
    ensures
        strs(final(out)@) == strs(old(out)@).push(m@),
{
    out.push(m);
    proof {
        assert(strs(out@) =~= strs(old(out)@).push(m@));
    }
}

fn operand_msgs(f: &Function, d: &InstData) -> (r: Vec<String>)
    ensures
        strs(r@) == operand_errs(f, d@),
{
    let mut out: Vec<String> = Vec::new();
    let two = d.args.len() >= 2;
    match &d.opcode {
        Opcode::Iadd | Opcode::Isub | Opcode::Imul | Opcode::Idiv | Opcode::Irem => {
            if two {
                if let (Some(t1), Some(t2)) = (f.dfg.value_type(d.args[0]), f.dfg.value_type(d.args[1])) {
                    if t1 != Type::I32 || t2 != Type::I32 {
                        push_msg(&mut out, pair_message("Arithmetic operation expects i32 operands, got ", t1, t2));
                    }
                }
            }
        },
        Opcode::Icmp { .. } => {
            if two {
                if let (Some(t1), Some(t2)) = (f.dfg.value_type(d.args[0]), f.dfg.value_type(d.args[1])) {
                    if !t1.is_integer() || !t2.is_integer() {
                        push_msg(&mut out, pair_message("Icmp operation expects integer operands, got ", t1, t2));
                    }
                    if t1 != t2 {
                        push_msg(
                            &mut out,
                            pair_message("Icmp operation expects operands of the same type, got ", t1, t2),
                        );
                    }
                }
            }
        },
        Opcode::Fcmp { .. } => {
            if two {
                if let (Some(t1), Some(t2)) = (f.dfg.value_type(d.args[0]), f.dfg.value_type(d.args[1])) {
                    if t1 != Type::F32 || t2 != Type::F32 {
                        let mut p = String::new();
                        push_str(&mut p, "Fcmp operation expects ");
                        push_type(&mut p, Type::F32);
                        push_str(&mut p, " operands, got ");
                        push_msg(&mut out, pair_message(p.as_str(), t1, t2));
                    }
                }
            }
        },
        Opcode::Load => {
            if d.ty.is_none() {
                push_msg(&mut out, prefixed_text("Load instruction requires type information"));
            }
        },
        Opcode::Store => {
            if d.ty.is_none() {
                push_msg(&mut out, prefixed_text("Store instruction requires type information"));
            }
        },
        _ => {},
    }
    proof {
        assert(strs(out@) =~= operand_errs(f, d@));
    }
    out
}

/// A string holding `s`.
fn prefixed_text(s: &str) -> (r: String)
    ensures
        r@ == s@,
{
    let mut m = String::new();
    push_str(&mut m, s);
    m
}

/// Verify the operand types of each instruction, each error at its
/// instruction.
pub fn verify_instruction_types(function: &Function, errors: &mut Vec<VerifierError>)
    requires
        function.wf(),
    ensures
        errs_view(final(errors)@) == errs_view(old(errors)@) + errs_by(
            function,
            |k: int, i: nat, d: InstDataView| operand_errs(function, d),
            function.layout@.order.len() as int,
        ),
{
    let check = |k: usize, i: Inst, d: &InstData| -> (r: Vec<String>)
        ensures
            strs(r@) == operand_errs(function, d@),
        { operand_msgs(function, d) };
    push_per_inst(function, errors, check, Ghost(|k: int, i: nat, d: InstDataView| operand_errs(function, d)));
}

/// The errors for the first `i` of `args` passed to block `b` whose type is
/// not the parameter type in `exp`.
pub open spec fn arg_type_errs(f: &Function, b: nat, exp: Seq<Type>, args: Seq<Value>, i: int) -> Seq<Seq<char>>
    decreases i,
{
    if i <= 0 {
        seq![]
    } else {
        arg_type_errs(f, b, exp, args, i - 1) + match vt(f, args[i - 1]) {
            Some(t) => chk(
                t != exp[i - 1],
                "Block "@ + dec(b) + " parameter "@ + dec((i - 1) as nat) + " expects type "@ + type_text(exp[i - 1])
                    + ", but argument "@ + dec((i - 1) as nat) + " has type "@ + type_text(t),
            ),
            None => seq![],
        }
    }
}

/// The argument type errors for the first `j` targets that are block `b`
/// with parameter types `exp`; a target with a wrong number of arguments is
/// passed over.
pub open spec fn target_type_errs(f: &Function, b: Block, exp: Seq<Type>, ts: Seq<(Block, Seq<Value>)>, j: int) -> Seq<
    Seq<char>,
>
    decreases j,
{
    if j <= 0 {
        seq![]
    } else {
        target_type_errs(f, b, exp, ts, j - 1) + if ts[j - 1].0 == b && ts[j - 1].1.len() == exp.len() {
            arg_type_errs(f, b.0 as nat, exp, ts[j - 1].1, exp.len() as int)
        } else {
            seq![]
        }
    }
}

/// The block argument type errors for the blocks at the first `kb`
/// positions.
pub open spec fn block_type_errs(f: &Function, kb: int) -> Seq<ErrView>
    decreases kb,
{
    if kb <= 0 {
        seq![]
    } else {
        let b = f.block_at(kb - 1);
        block_type_errs(f, kb - 1) + errs_by(
            f,
            |k: int, i: nat, d: InstDataView|
                target_type_errs(
                    f,
                    Block(b as u32),
                    f.blocks@[b].param_types@,
                    targets_of(d),
                    targets_of(d).len() as int,
                ),
            f.layout@.order.len() as int,
        )
    }
}

fn type_pair_msg(prefix: &str, n: u64, mid: &str, i: usize, e: Type, mid2: &str, t: Type) -> (r: String)
    ensures
        r@ == prefix@ + dec(n as nat) + mid@ + dec(i as nat) + " expects type "@ + type_text(e) + mid2@ + dec(
            i as nat,
        ) + " has type "@ + type_text(t),
{
    let mut m = prefixed(prefix, n);
    push_str(&mut m, mid);
    push_dec(&mut m, i as u64);
    push_str(&mut m, " expects type ");
    push_type(&mut m, e);
    push_str(&mut m, mid2);
    push_dec(&mut m, i as u64);
    push_str(&mut m, " has type ");
    push_type(&mut m, t);
    proof {
        assert(m@ =~= prefix@ + dec(n as nat) + mid@ + dec(i as nat) + " expects type "@ + type_text(e) + mid2@
            + dec(i as nat) + " has type "@ + type_text(t));
    }
    m
}

fn push_arg_type_errs(out: &mut Vec<String>, f: &Function, b: u32, exp: &Vec<Type>, args: &Vec<Value>)
    requires
        args@.len() == exp@.len(),
    ensures
        strs(final(out)@) == strs(old(out)@) + arg_type_errs(f, b as nat, exp@, args@, exp@.len() as int),
{
    let ghost o = strs(out@);
    let mut i: usize = 0;
    while i < exp.len()
        invariant
            args@.len() == exp@.len(),
            i <= exp@.len(),
            strs(out@) == o + arg_type_errs(f, b as nat, exp@, args@, i as int),
        decreases exp@.len() - i,
    {
        if let Some(t) = f.dfg.value_type(args[i]) {
            if t != exp[i] {
                let m = type_pair_msg("Block ", b as u64, " parameter ", i, exp[i], ", but argument ", t);
                push_msg(out, m);
            }
        }
        proof {
            assert(strs(out@) =~= o + arg_type_errs(f, b as nat, exp@, args@, i + 1));
        }
        i = i + 1;
    }
}

fn target_type_msgs(f: &Function, b: Block, exp: &Vec<Type>, d: &InstData) -> (r: Vec<String>)
    ensures
        strs(r@) == target_type_errs(f, b, exp@, targets_of(d@), targets_of(d@).len() as int),
{
    let mut out: Vec<String> = Vec::new();
    if let Some(ba) = &d.block_args {
        let mut j: usize = 0;
        while j < ba.targets.len()
            invariant
                d.block_args == Some(*ba),
                j <= ba.targets@.len(),
                strs(out@) == target_type_errs(f, b, exp@, targets_of(d@), j as int),
            decreases ba.targets@.len() - j,
        {
            assert(targets_of(d@)[j as int].0 == ba.targets@[j as int].0);
            assert(targets_of(d@)[j as int].1 == ba.targets@[j as int].1@);
            if ba.targets[j].0 == b && ba.targets[j].1.len() == exp.len() {
                push_arg_type_errs(&mut out, f, b.0, exp, &ba.targets[j].1);
            }
            proof {
                assert(strs(out@) =~= target_type_errs(f, b, exp@, targets_of(d@), j + 1));
            }
            j = j + 1;
        }
    } else {
        proof {
            assert(strs(out@) =~= target_type_errs(f, b, exp@, targets_of(d@), 0));
        }
    }
    out
}

/// Verify block argument types: for each block of the layout in turn, each
/// argument passed to it, by a target with as many arguments as it has
/// parameters, whose type is not its parameter's gives an error at the
/// instruction.
pub fn verify_block_argument_types(function: &Function, errors: &mut Vec<VerifierError>)
    requires
        function.wf(),
    ensures
        errs_view(final(errors)@) == errs_view(old(errors)@) + block_type_errs(
            function,
            function.layout@.order.len() as int,
        ),
{
    let ghost base = errs_view(errors@);
    let blocks = function.blocks();
    let n = blocks.len();
    let mut kb: usize = 0;
    while kb < n
        invariant
            function.wf(),
            n == blocks@.len(),
            blocks@.len() == function.layout@.order.len(),
            forall|i: int| 0 <= i < blocks@.len() ==> (#[trigger] blocks@[i]).0 == function.layout@.order[i],
            kb <= n,
            errs_view(errors@) == base + block_type_errs(function, kb as int),
        decreases n - kb,
    {
        proof {
            function.layout.lemma_order_bound(kb as int);
        }
        let b = blocks[kb];
        let bd = function.block_data(b).unwrap();
        let exp = &bd.param_types;
        let check = |k: usize, i: Inst, d: &InstData| -> (r: Vec<String>)
            ensures
                strs(r@) == target_type_errs(function, b, exp@, targets_of(d@), targets_of(d@).len() as int),
            { target_type_msgs(function, b, exp, d) };
        let ghost g = |k: int, i: nat, d: InstDataView|
            target_type_errs(function, b, exp@, targets_of(d), targets_of(d).len() as int);
        push_per_inst(function, errors, check, Ghost(g));
        proof {
            let bb = function.block_at(kb as int);
            assert(b == Block(bb as u32));
            assert(g =~= (|k: int, i: nat, d: InstDataView|
                target_type_errs(
                    function,
                    Block(bb as u32),
                    function.blocks@[bb].param_types@,
                    targets_of(d),
                    targets_of(d).len() as int,
                )));
            assert(errs_view(errors@) =~= base + block_type_errs(function, kb + 1));
        }
        kb = kb + 1;
    }
}


/// The type errors of the first `i` of `vs`, checked against `exp`, in a
/// call to `c`: `Call to '<c>'<what> <i> expects type <e><which> <i> has type <t>`.
pub open spec fn call_type_list_errs(
    f: &Function,
    c: Seq<char>,
    exp: Seq<Type>,
    vs: Seq<Value>,
    i: int,
    what: Seq<char>,
    which: Seq<char>,
) -> Seq<Seq<char>>
    decreases i,
{
    if i <= 0 {
        seq![]
    } else {
        call_type_list_errs(f, c, exp, vs, i - 1, what, which) + match vt(f, vs[i - 1]) {
            Some(t) => chk(
                t != exp[i - 1],
                "Call to '"@ + c + "'"@ + what + dec((i - 1) as nat) + " expects type "@ + type_text(exp[i - 1]) + which
                    + dec((i - 1) as nat) + " has type "@ + type_text(t),
            ),
            None => seq![],
        }
    }
}

/// The errors of a call to `c`, a function with signature counts and types
/// from `cf`: the argument count or, where it is right, the argument types;
/// then the result count or, where it is right, the result types.
pub open spec fn call_sig_errs(f: &Function, c: Seq<char>, cf: Function, d: InstDataView) -> Seq<Seq<char>> {
    let ps = cf.signature.params@;
    let rs = cf.signature.returns@;
    (if d.args.len() != ps.len() {
        seq!["Call to '"@ + c + "' expects "@ + dec(ps.len()) + " arguments, got "@ + dec(d.args.len())]
    } else {
        call_type_list_errs(f, c, ps, d.args, ps.len() as int, "' parameter "@, ", but argument "@)
    }) + (if d.results.len() != rs.len() {
        seq!["Call to '"@ + c + "' returns "@ + dec(rs.len()) + " values, but "@ + dec(d.results.len()) + " results expected"@]
    } else {
        call_type_list_errs(f, c, rs, d.results, rs.len() as int, "' result "@, ", but result "@)
    })
}

/// The type errors of a call to a function of the module.
pub open spec fn call_type_errs(f: &Function, module: &Module, d: InstDataView) -> Seq<Seq<char>> {
    match d.opcode {
        Opcode::Call { callee } => match module.lookup(callee@) {
            Some(cf) => call_sig_errs(f, callee@, cf, d),
            None => seq![],
        },
        _ => seq![],
    }
}

fn push_call_type_list(
    out: &mut Vec<String>,
    f: &Function,
    c: &str,
    exp: &Vec<Type>,
    vs: &Vec<Value>,
    what: &str,
    which: &str,
)
    requires
        vs@.len() == exp@.len(),
    ensures
        strs(final(out)@) == strs(old(out)@) + call_type_list_errs(f, c@, exp@, vs@, exp@.len() as int, what@, which@),
{
    let ghost o = strs(out@);
    let mut i: usize = 0;
    while i < exp.len()
        invariant
            vs@.len() == exp@.len(),
            i <= exp@.len(),
            strs(out@) == o + call_type_list_errs(f, c@, exp@, vs@, i as int, what@, which@),
        decreases exp@.len() - i,
    {
        if let Some(t) = f.dfg.value_type(vs[i]) {
            if t != exp[i] {
                let mut m = String::new();
                push_str(&mut m, "Call to '");
                push_str(&mut m, c);
                push_str(&mut m, "'");
                push_str(&mut m, what);
                push_dec(&mut m, i as u64);
                push_str(&mut m, " expects type ");
                push_type(&mut m, exp[i]);
                push_str(&mut m, which);
                push_dec(&mut m, i as u64);
                push_str(&mut m, " has type ");
                push_type(&mut m, t);
                push_msg(out, m);
            }
        }
        proof {
            assert(strs(out@) =~= o + call_type_list_errs(f, c@, exp@, vs@, i + 1, what@, which@));
        }
        i = i + 1;
    }
}

/// The messages of the call count and type checks of a call to `c`.
pub fn call_sig_msgs(f: &Function, c: &str, cf: &Function, d: &InstData) -> (r: Vec<String>)
    ensures
        strs(r@) == call_sig_errs(f, c@, *cf, d@),
{
    let mut out: Vec<String> = Vec::new();
    let np = cf.signature.params.len();
    let nr = cf.signature.returns.len();
    if d.args.len() != np {
        let mut m = String::new();
        push_str(&mut m, "Call to '");
        push_str(&mut m, c);
        push_str(&mut m, "' expects ");
        push_dec(&mut m, np as u64);
        push_str(&mut m, " arguments, got ");
        push_dec(&mut m, d.args.len() as u64);
        push_msg(&mut out, m);
    } else {
        push_call_type_list(&mut out, f, c, &cf.signature.params, &d.args, "' parameter ", ", but argument ");
    }
    let ghost mid = strs(out@);
    if d.results.len() != nr {
        let mut m = String::new();
        push_str(&mut m, "Call to '");
        push_str(&mut m, c);
        push_str(&mut m, "' returns ");
        push_dec(&mut m, nr as u64);
        push_str(&mut m, " values, but ");
        push_dec(&mut m, d.results.len() as u64);
        push_str(&mut m, " results expected");
        push_msg(&mut out, m);
    } else {
        push_call_type_list(&mut out, f, c, &cf.signature.returns, &d.results, "' result ", ", but result ");
    }
    proof {
        assert(strs(out@) =~= call_sig_errs(f, c@, *cf, d@));
    }
    out
}

fn call_type_msgs(f: &Function, module: &Module, d: &InstData) -> (r: Vec<String>)
    requires
        module.wf(),
    ensures
        strs(r@) == call_type_errs(f, module, d@),
{
    if let Opcode::Call { callee } = &d.opcode {
        if let Some(cf) = module.get_function(callee.as_str()) {
            return call_sig_msgs(f, callee.as_str(), cf, d);
        }
    }
    let out: Vec<String> = Vec::new();
    proof {
        assert(strs(out@) =~= call_type_errs(f, module, d@));
    }
    out
}

/// Verify the calls against the signatures of the functions they call,
/// each error at its instruction.
pub fn verify_function_call_types(function: &Function, errors: &mut Vec<VerifierError>, module: &Module)
    requires
        function.wf(),
        module.wf(),
    ensures
        errs_view(final(errors)@) == errs_view(old(errors)@) + errs_by(
            function,
            |k: int, i: nat, d: InstDataView| call_type_errs(function, module, d),
            function.layout@.order.len() as int,
        ),
{
    let check = |k: usize, i: Inst, d: &InstData| -> (r: Vec<String>)
        requires
            module.wf(),
        ensures
            strs(r@) == call_type_errs(function, module, d@),
        { call_type_msgs(function, module, d) };
    push_per_inst(
        function,
        errors,
        check,
        Ghost(|k: int, i: nat, d: InstDataView| call_type_errs(function, module, d)),
    );
}

/// The errors of the type checks.
pub open spec fn type_errs(f: &Function, module: Option<&Module>) -> Seq<ErrView> {
    let n = f.layout@.order.len() as int;
    errs_by(f, |k: int, i: nat, d: InstDataView| operand_errs(f, d), n) + block_type_errs(f, n) + match module {
        Some(m) => errs_by(f, |k: int, i: nat, d: InstDataView| call_type_errs(f, m, d), n),
        None => seq![],
    }
}

/// Verify types: operand types, block argument types and, with a module,
/// call types.
pub fn verify_types(function: &Function, errors: &mut Vec<VerifierError>, module: Option<&Module>)
    requires
        function.wf(),
        module matches Some(m) ==> m.wf(),
    ensures
        errs_view(final(errors)@) == errs_view(old(errors)@) + type_errs(function, module),
{
    let ghost o = errs_view(errors@);
    verify_instruction_types(function, errors);
    verify_block_argument_types(function, errors);
    if let Some(m) = module {
        verify_function_call_types(function, errors, m);
    }
    proof {
        assert(errs_view(errors@) =~= o + type_errs(function, module));
    }
}


/// The start of the message for an integer comparison of operands that are
/// not both integers.
pub open spec fn integer_compare_prefix() -> Seq<char> {
    "Icmp operation expects integer operands"@
}

/// The start of the message for an integer comparison of operands of two
/// different types.
pub open spec fn same_type_prefix() -> Seq<char> {
    "Icmp operation expects operands of the same type"@
}

/// The start of the message for a float comparison of operands that are
/// not both floats.
pub open spec fn float_compare_prefix() -> Seq<char> {
    "Fcmp operation expects f32 operands"@
}

/// An integer comparison of the layout whose operands are not both integers
/// (`i32` or `u32`), or are of two types, is reported at that instruction.
pub proof fn lemma_integer_compare_reported(
    f: &Function,
    module: Option<&Module>,
    k: int,
    q: int,
    t1: Type,
    t2: Type,
)
    requires
        0 <= k < f.layout@.order.len(),
        0 <= q < f.len_at(k),
        f.inst_at(f.block_at(k), q).opcode is Icmp,
        f.inst_at(f.block_at(k), q).args.len() >= 2,
        vt(f, f.inst_at(f.block_at(k), q).args[0]) == Some(t1),
        vt(f, f.inst_at(f.block_at(k), q).args[1]) == Some(t2),
    ensures
        (t1 == Type::F32 || t2 == Type::F32) ==> exists|m: Seq<char>|
            #[trigger] crate::ir_verifier::all_errs(f, module).contains(
                (m, Some(crate::ir_verifier::inst_loc(f.layout@.contents[f.block_at(k)][q]))),
            ) && integer_compare_prefix().is_prefix_of(m),
        t1 != t2 ==> exists|m: Seq<char>|
            #[trigger] crate::ir_verifier::all_errs(f, module).contains(
                (m, Some(crate::ir_verifier::inst_loc(f.layout@.contents[f.block_at(k)][q]))),
            ) && same_type_prefix().is_prefix_of(m),
{
    reveal_strlit("Icmp operation expects integer operands");
    reveal_strlit("Icmp operation expects integer operands, got ");
    reveal_strlit("Icmp operation expects operands of the same type");
    reveal_strlit("Icmp operation expects operands of the same type, got ");
    let d = f.inst_at(f.block_at(k), q);
    let ms = operand_errs(f, d);
    let m1 = "Icmp operation expects integer operands, got "@ + pair_text(t1, t2);
    let m2 = "Icmp operation expects operands of the same type, got "@ + pair_text(t1, t2);
    if t1 == Type::F32 || t2 == Type::F32 {
        assert(ms[0] == m1);
        assert(ms.contains(m1));
        crate::ir_verifier::lemma_operand_msg_reported(f, module, k, q, m1);
        assert(integer_compare_prefix().is_prefix_of(m1)) by { assert(integer_compare_prefix() =~= m1.subrange(0, 39)); }
    }
    if t1 != t2 {
        let i = ms.len() - 1;
        assert(ms[i] == m2);
        assert(ms.contains(m2));
        crate::ir_verifier::lemma_operand_msg_reported(f, module, k, q, m2);
        assert(same_type_prefix().is_prefix_of(m2)) by { assert(same_type_prefix() =~= m2.subrange(0, 48)); }
    }
}

/// A float comparison of the layout whose operands are not both `f32` is
/// reported at that instruction.
pub proof fn lemma_float_compare_reported(f: &Function, module: Option<&Module>, k: int, q: int, t1: Type, t2: Type)
    requires
        0 <= k < f.layout@.order.len(),
        0 <= q < f.len_at(k),
        f.inst_at(f.block_at(k), q).opcode is Fcmp,
        f.inst_at(f.block_at(k), q).args.len() >= 2,
        vt(f, f.inst_at(f.block_at(k), q).args[0]) == Some(t1),
        vt(f, f.inst_at(f.block_at(k), q).args[1]) == Some(t2),
        t1 != Type::F32 || t2 != Type::F32,
    ensures
        exists|m: Seq<char>|
            #[trigger] crate::ir_verifier::all_errs(f, module).contains(
                (m, Some(crate::ir_verifier::inst_loc(f.layout@.contents[f.block_at(k)][q]))),
            ) && float_compare_prefix().is_prefix_of(m),
{
    reveal_strlit("Fcmp operation expects ");
    reveal_strlit(" operands, got ");
    reveal_strlit("Fcmp operation expects f32 operands");
    reveal_strlit("f32");
    let d = f.inst_at(f.block_at(k), q);
    let ms = operand_errs(f, d);
    let m = "Fcmp operation expects "@ + type_text(Type::F32) + " operands, got "@ + pair_text(t1, t2);
    assert(ms[0] == m);
    assert(ms.contains(m));
    crate::ir_verifier::lemma_operand_msg_reported(f, module, k, q, m);
    assert(float_compare_prefix().is_prefix_of(m)) by { assert(float_compare_prefix() =~= m.subrange(0, 35)); }
}
} // verus!
