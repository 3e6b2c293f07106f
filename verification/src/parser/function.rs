//! Function, signature and block parsers.

use vstd::prelude::*;

use crate::{
    dfg::inst_data::InstDataView,
    function::Function,
    layout::MAX_INSTS,
    parser::{
        float::float_determined,
        instructions::{
            char_at, fconst_word_at, instruction_result, lemma_instruction_determined, name_at, parse_instruction,
            tok_at, viewed, Parsed,
        },
        lexer::{
            blank_end, block_index_at, lemma_blank_end_bounds, parse_block_index, parse_function_name, parse_type, parse_value, skip_blank,
            tok, tok_char, type_at, value_at,
        },
    },
    signature::Signature,
    text::{dec, push_dec, push_str},
    types::Type,
    value::Value,
};

verus! {

/// The types after the first one of a list that ended at `p`: each after a
/// comma, up to the first comma not followed by a type (left unread).
pub open spec fn type_tail_at(s: Seq<char>, p: int) -> (Seq<Type>, usize)
    decreases s.len() - p,
{
    match char_at(s, p, ',') {
        Some(q) => match type_at(s, q as int) {
            Some((t, q2)) => if p < q2 <= s.len() {
                let (rest, e) = type_tail_at(s, q2 as int);
                (seq![t] + rest, e)
            } else {
                (seq![], p as usize)
            },
            None => (seq![], p as usize),
        },
        None => (seq![], p as usize),
    }
}

/// Zero or more types separated by commas at `p`; a trailing comma is left
/// unread.
pub open spec fn type_list_at(s: Seq<char>, p: int) -> (Seq<Type>, usize) {
    match type_at(s, p) {
        Some((t, q)) => {
            let (rest, e) = type_tail_at(s, q as int);
            (seq![t] + rest, e)
        },
        None => (seq![], p as usize),
    }
}

/// A signature at `p`: its parameter types, its result types, and where it
/// ends.
pub open spec fn signature_at(s: Seq<char>, p: int) -> Option<(Seq<Type>, Seq<Type>, usize)> {
    match char_at(s, p, '(') {
        Some(q) => {
            let (params, q2) = type_list_at(s, q as int);
            match char_at(s, q2 as int, ')') {
                Some(q3) => match tok_at(s, q3 as int, "->"@) {
                    None => Some((params, seq![], q3)),
                    Some(q4) => match tok_at(s, q4 as int, "void"@) {
                        Some(q5) => Some((params, seq![], q5)),
                        None => {
                            let (rets, q5) = type_list_at(s, q4 as int);
                            Some((params, rets, q5))
                        },
                    },
                },
                None => None,
            }
        },
        None => None,
    }
}

/// A block parameter `v<n>: <type>` at `p`.
pub open spec fn block_param_at(s: Seq<char>, p: int) -> Option<((Value, Type), usize)> {
    match value_at(s, p) {
        Some((v, q)) => match char_at(s, q as int, ':') {
            Some(q2) => match type_at(s, q2 as int) {
                Some((t, q3)) => Some(((v, t), q3)),
                None => None,
            },
            None => None,
        },
        None => None,
    }
}

/// The block parameters after the first one of a list that ended at `p`:
/// each after a comma, up to the first comma not followed by a parameter.
pub open spec fn param_tail_at(s: Seq<char>, p: int) -> (Seq<(Value, Type)>, usize)
    decreases s.len() - p,
{
    match char_at(s, p, ',') {
        Some(q) => match block_param_at(s, q as int) {
            Some((vt, q2)) => if p < q2 <= s.len() {
                let (rest, e) = param_tail_at(s, q2 as int);
                (seq![vt] + rest, e)
            } else {
                (seq![], p as usize)
            },
            None => (seq![], p as usize),
        },
        None => (seq![], p as usize),
    }
}

/// A block header at `p`: `block<n>`, parameters in parentheses if there
/// are any, and `:`; the parameters and where the header ends.
pub open spec fn block_header_at(s: Seq<char>, p: int) -> Option<(Seq<(Value, Type)>, usize)> {
    match block_index_at(s, p) {
        Some((_, q)) => {
            let params_end: Option<(Seq<(Value, Type)>, usize)> = match char_at(s, q as int, '(') {
                None => Some((seq![], q)),
                Some(q1) => {
                    let (ps, q2) = match block_param_at(s, q1 as int) {
                        Some((vt, q3)) => {
                            let (rest, e) = param_tail_at(s, q3 as int);
                            (seq![vt] + rest, e)
                        },
                        None => (seq![], q1),
                    };
                    match char_at(s, q2 as int, ')') {
                        Some(q4) => Some((ps, q4)),
                        None => None,
                    }
                },
            };
            match params_end {
                Some((ps, q5)) => match char_at(s, q5 as int, ':') {
                    Some(q6) => Some((ps, q6)),
                    None => None,
                },
                None => None,
            }
        },
        None => None,
    }
}

/// Zero or more types separated by commas; a trailing comma is left unread.
pub fn parse_type_list(s: &Vec<char>, pos: usize) -> (r: (Vec<Type>, usize))
    requires
        pos <= s@.len(),
    ensures
        (r.0@, r.1) == type_list_at(s@, pos as int),
        pos <= r.1 <= s@.len(),
{
    let mut types: Vec<Type> = Vec::new();
    let mut p = pos;
    match parse_type(s, p) {
        None => {
            return (types, p);
        },
        Some((t, p2)) => {
            types.push(t);
            p = p2;
        },
    }
    loop
        invariant
            pos <= p <= s@.len(),
            type_list_at(s@, pos as int) == (types@ + type_tail_at(s@, p as int).0, type_tail_at(
                s@,
                p as int,
            ).1),
        decreases s@.len() - p,
    {
        match tok_char(s, p, ',') {
            None => {
                proof {
                    assert(types@ + Seq::<Type>::empty() =~= types@);
                }
                return (types, p);
            },
            Some(p2) => match parse_type(s, p2) {
                None => {
                    proof {
                        assert(types@ + Seq::<Type>::empty() =~= types@);
                    }
                    return (types, p);
                },
                Some((t, p3)) => {
                    let ghost before = types@;
                    types.push(t);
                    proof {
                        assert(before + (seq![t] + type_tail_at(s@, p3 as int).0) =~= types@ + type_tail_at(
                            s@,
                            p3 as int,
                        ).0);
                    }
                    p = p3;
                },
            },
        }
    }
}

/// Parse a function signature: `(i32, i32) -> i32`, `(i32) -> void` (no
/// results), or `(i32)` (no results either).
pub fn parse_signature(s: &Vec<char>, pos: usize) -> (r: Parsed<Signature>)
    requires
        pos <= s@.len(),
    ensures
        r is Some <==> signature_at(s@, pos as int) is Some,
        r matches Some((sig, p)) ==> signature_at(s@, pos as int) == Some(
            (sig.params@, sig.returns@, p),
        ),
        r matches Some((_, p)) ==> pos < p <= s@.len(),
{
    let p = tok_char(s, pos, '(')?;
    let (params, p) = parse_type_list(s, p);
    let p = tok_char(s, p, ')')?;
    match tok(s, p, "->") {
        None => Some((Signature { params, returns: Vec::new() }, p)),
        Some(p2) => match tok(s, p2, "void") {
            Some(p3) => Some((Signature { params, returns: Vec::new() }, p3)),
            None => {
                let (rets, p3) = parse_type_list(s, p2);
                Some((Signature { params, returns: rets }, p3))
            },
        },
    }
}

/// A block parameter `v<n>: <type>`.
fn parse_block_param(s: &Vec<char>, pos: usize) -> (r: Parsed<(Value, Type)>)
    requires
        pos <= s@.len(),
    ensures
        r == block_param_at(s@, pos as int),
        r matches Some((_, p)) ==> pos < p <= s@.len(),
{
    let (v, p) = parse_value(s, pos)?;
    let p = tok_char(s, p, ':')?;
    let (t, p) = parse_type(s, p)?;
    Some(((v, t), p))
}

/// A block header: `block<n>`, its parameters in brackets if it has any,
/// and `:`. The number is not kept: blocks are numbered in the order they
/// come in.
pub fn parse_block_header(s: &Vec<char>, pos: usize) -> (r: Parsed<(Vec<Value>, Vec<Type>)>)
    requires
        pos <= s@.len(),
    ensures
        r is Some <==> block_header_at(s@, pos as int) is Some,
        r matches Some((h, p)) ==> block_header_at(s@, pos as int) == Some((pairs(h.0@, h.1@), p)),
        r matches Some((h, p)) ==> pos < p <= s@.len() && h.0@.len() == h.1@.len(),
{
    let (_n, p0) = parse_block_index(s, pos)?;
    let mut params: Vec<Value> = Vec::new();
    let mut types: Vec<Type> = Vec::new();
    let mut p = p0;
    if let Some(p1) = tok_char(s, p0, '(') {
        p = p1;
        if let Some(((v, t), p2)) = parse_block_param(s, p1) {
            params.push(v);
            types.push(t);
            p = p2;
            let ghost first = seq![(v, t)];
            proof {
                assert(pairs(params@, types@) =~= first);
            }
            loop
                invariant
                    pos < p <= s@.len(),
                    params@.len() == types@.len(),
                    first + param_tail_at(s@, p2 as int).0 == pairs(params@, types@) + param_tail_at(
                        s@,
                        p as int,
                    ).0,
                    param_tail_at(s@, p2 as int).1 == param_tail_at(s@, p as int).1,
                ensures
                    pos < p <= s@.len(),
                    params@.len() == types@.len(),
                    first + param_tail_at(s@, p2 as int).0 == pairs(params@, types@) + param_tail_at(
                        s@,
                        p as int,
                    ).0,
                    param_tail_at(s@, p2 as int).1 == param_tail_at(s@, p as int).1,
                    param_tail_at(s@, p as int).0 == Seq::<(Value, Type)>::empty(),
                    param_tail_at(s@, p as int).1 == p,
                decreases s@.len() - p,
            {
                match tok_char(s, p, ',') {
                    None => {
                        break ;
                    },
                    Some(p3) => match parse_block_param(s, p3) {
                        None => {
                            break ;
                        },
                        Some(((v, t), p4)) => {
                            let ghost before = pairs(params@, types@);
                            params.push(v);
                            types.push(t);
                            proof {
                                assert(pairs(params@, types@) =~= before.push((v, t)));
                                assert(before + (seq![(v, t)] + param_tail_at(s@, p4 as int).0) =~= pairs(
                                    params@,
                                    types@,
                                ) + param_tail_at(s@, p4 as int).0);
                            }
                            p = p4;
                        },
                    },
                }
            }
            proof {
                assert(pairs(params@, types@) + Seq::<(Value, Type)>::empty() =~= pairs(params@, types@));
            }
        }
        p = tok_char(s, p, ')')?;
    }
    let p = tok_char(s, p, ':')?;
    proof {
        assert(pairs(params@, types@) =~= pairs(params@, types@));
    }
    Some(((params, types), p))
}

/// The pairs of values and types at the same positions.
pub open spec fn pairs(vs: Seq<Value>, ts: Seq<Type>) -> Seq<(Value, Type)> {
    Seq::new(vs.len(), |i: int| (vs[i], ts[i]))
}

/// The name `anon_<n>` given to the `n`-th function without a name.
pub open spec fn anon_name(n: nat) -> Seq<char> {
    "anon_"@ + dec(n)
}

fn anon_name_of(n: usize) -> (r: String)
    ensures
        r@ == anon_name(n as nat),
{
    let mut r = String::new();
    push_str(&mut r, "anon_");
    push_dec(&mut r, n as u64);
    r
}

/// The instructions of a block one after another, as a flat list.
pub open spec fn flat(dss: Seq<Seq<InstDataView>>) -> Seq<InstDataView>
    decreases dss.len(),
{
    if dss.len() == 0 {
        seq![]
    } else {
        flat(dss.drop_last()) + dss.last()
    }
}

/// Whether instructions `ds` are read one after another from `p`, at the
/// positions `ps`, up to `end`, where no instruction is read.
pub open spec fn insts_read(s: Seq<char>, p: usize, ds: Seq<InstDataView>, ps: Seq<usize>, end: usize) -> bool {
    &&& ps.len() == ds.len() + 1
    &&& ps[0] == p
    &&& ps[ds.len() as int] == end
    &&& forall|i: int|
        0 <= i < ds.len() ==> #[trigger] instruction_result(s, ps[i], Some((ds[i], ps[i + 1])))
    &&& instruction_result(s, end, None)
}

/// The numbers of the instructions of block `k`, when the blocks hold the
/// instructions `dss` numbered in order.
pub open spec fn block_run(dss: Seq<Seq<InstDataView>>, k: int) -> Seq<nat> {
    Seq::new(dss[k].len(), |j: int| (flat(dss.take(k)).len() + j) as nat)
}

/// Whether a block is read at `h`: a header with parameters `params`, then
/// instructions `ds` read at positions `ps` up to `e`.
pub open spec fn block_read(
    s: Seq<char>,
    h: usize,
    params: Seq<Value>,
    ds: Seq<InstDataView>,
    ps: Seq<usize>,
    e: usize,
) -> bool {
    match block_header_at(s, h as int) {
        Some((hp, he)) => params == hp.map_values(|x: (Value, Type)| x.0) && insts_read(s, he, ds, ps, e),
        None => false,
    }
}

/// Where the function's blocks start: right after `{`.
pub open spec fn body_start(s: Seq<char>, pos: usize, anon: usize) -> Option<usize> {
    match tok_at(s, pos as int, "function"@) {
        Some(q) => {
            let q1 = match name_at(s, q as int) {
                Some((_, q1)) => q1,
                None => q,
            };
            match signature_at(s, q1 as int) {
                Some((_, _, q2)) => char_at(s, q2 as int, '{'),
                None => None,
            }
        },
        None => None,
    }
}

/// Whether every float constant of the text is one whose reading is fixed
/// (`float_determined`): any but a decimal with more significant digits,
/// fraction digits or exponent than `decimal_in_range` allows.
pub open spec fn simple_float_constants(s: Seq<char>) -> bool {
    forall|p: int|
        #[trigger] fconst_word_at(s, p) matches Some((_, q)) ==> float_determined(s, q as int)
}

/// Whether a function read from the text stays within what the parser
/// builds: at most `0x7fff_0000` blocks and `MAX_INSTS` instructions.
pub open spec fn within_limits(f: Function) -> bool {
    f.blocks@.len() <= 0x7fff_0000 && f.dfg.insts@.len() <= MAX_INSTS
}

/// The instructions of the first `k + 1` blocks are those of the first `k`
/// and then those of block `k`.
proof fn lemma_flat_take(dss: Seq<Seq<InstDataView>>, k: int)
    requires
        0 <= k < dss.len(),
    ensures
        flat(dss.take(k + 1)).len() == flat(dss.take(k)).len() + dss[k].len(),
        flat(dss.take(k + 1)).len() <= flat(dss).len(),
    decreases dss.len() - k,
{
    assert(dss.take(k + 1).drop_last() =~= dss.take(k));
    if k + 1 < dss.len() {
        lemma_flat_take(dss, k + 1);
    } else {
        assert(dss.take(k + 1) =~= dss);
    }
}

/// Whether `f` has the name, the signature and the blocks read from the
/// text at `pos`, with blocks starting at `hs` whose instructions `dss`
/// are read at positions `pss` up to the ends `es`, the function ending at
/// `end`.
pub open spec fn function_read_with(
    s: Seq<char>,
    pos: usize,
    anon: usize,
    f: Function,
    end: usize,
    hs: Seq<usize>,
    es: Seq<usize>,
    pss: Seq<Seq<usize>>,
    dss: Seq<Seq<InstDataView>>,
) -> bool {
    let q = tok_at(s, pos as int, "function"@).unwrap();
    let q1 = match name_at(s, q as int) {
        Some((_, q1)) => q1,
        None => q,
    };
    let nb = hs.len();
    let start = body_start(s, pos, anon).unwrap();
    let last = if nb == 0 {
        blank_end(s, start as int)
    } else {
        blank_end(s, es[nb - 1] as int)
    };
    &&& body_start(s, pos, anon) is Some
    &&& (match name_at(s, q as int) {
        Some((n, _)) => f.name@ == n,
        None => f.name@ == anon_name(anon as nat),
    })
    &&& signature_at(s, q1 as int) matches Some((ps, rs, _)) && f.signature.params@ == ps
        && f.signature.returns@ == rs
    &&& es.len() == nb && pss.len() == nb && dss.len() == nb
    &&& f.blocks@.len() == nb
    &&& nb > 0 ==> hs[0] == blank_end(s, start as int)
    &&& forall|k: int| 0 <= k < nb - 1 ==> #[trigger] hs[k + 1] == blank_end(s, es[k] as int)
    &&& forall|k: int|
        0 <= k < nb ==> #[trigger] block_read(s, hs[k], f.blocks@[k].params@, dss[k], pss[k], es[k])
    &&& 0 <= last < s.len() && s[last] == '}'
    &&& end == blank_end(s, last + 1)
    &&& f.layout@.order == Seq::new(nb, |k: int| k as nat)
    &&& forall|k: int| 0 <= k < nb ==> #[trigger] f.layout@.contents[k] == block_run(dss, k)
    &&& f.dfg.insts@.len() == flat(dss).len()
    &&& forall|i: int| 0 <= i < flat(dss).len() ==> #[trigger] f.dfg.insts@[i]@ == flat(dss)[i]
}

/// Whether `f` is the function read from the text at `pos` up to `end`:
/// `function`, its name (`anon_<anon>` when it has none), its signature,
/// and in braces its blocks, each a header and the instructions read after
/// it; blocks are numbered in the order they come in, and instructions in
/// the order they come in over all blocks.
pub open spec fn function_read(s: Seq<char>, pos: usize, anon: usize, f: Function, end: usize) -> bool {
    exists|hs: Seq<usize>, es: Seq<usize>, pss: Seq<Seq<usize>>, dss: Seq<Seq<InstDataView>>|
        function_read_with(s, pos, anon, f, end, hs, es, pss, dss)
}

/// Parse a function: `function`, its name (or none, then it is named
/// `anon_<anon_counter>`), its signature, and its blocks in braces. Each
/// block is created with its parameters and appended to the layout, and
/// each of its instructions is created and appended to it, in order. Text
/// that reads as a function (within the limits on blocks and instructions,
/// with float constants whose reading is fixed, `float_determined`) is read.
pub fn parse_function_internal(s: &Vec<char>, pos: usize, anon_counter: usize) -> (r: Parsed<Function>)
    requires
        pos <= s@.len(),
    ensures
        r matches Some((f, p)) ==> pos < p <= s@.len() && f.wf(),
        r matches Some((f, p)) ==> function_read(s@, pos, anon_counter, f, p),
        (exists|f: Function, e: usize| #[trigger] function_read(s@, pos, anon_counter, f, e) && within_limits(f))
            && simple_float_constants(s@) ==> r is Some,
{
    let ghost fe = choose|fe: (Function, usize)| #[trigger] function_read(s@, pos, anon_counter, fe.0, fe.1) && within_limits(fe.0);
    let ghost e = fe.1;
    proof {
        if exists|f: Function, e: usize| #[trigger] function_read(s@, pos, anon_counter, f, e) && within_limits(f) {
            let f0 = choose|f: Function, e: usize| #[trigger] function_read(s@, pos, anon_counter, f, e) && within_limits(f);
            assert(function_read(s@, pos, anon_counter, (f0.0, f0.1).0, (f0.0, f0.1).1));
            assert(function_read(s@, pos, anon_counter, fe.0, fe.1) && within_limits(fe.0));
        }
    }
    read_function(s, pos, anon_counter, Ghost(e))
}

/// Read a function as `parse_function_internal` does; where the text reads
/// as a function ending at `end_w`, the function read ends there.
pub(crate) fn read_function(s: &Vec<char>, pos: usize, anon_counter: usize, Ghost(end_w): Ghost<usize>) -> (r: Parsed<Function>)
    requires
        pos <= s@.len(),
    ensures
        r matches Some((f, p)) ==> pos < p <= s@.len() && f.wf(),
        r matches Some((f, p)) ==> function_read(s@, pos, anon_counter, f, p),
        (exists|f: Function| #[trigger] function_read(s@, pos, anon_counter, f, end_w) && within_limits(f))
            && simple_float_constants(s@) ==> (r matches Some((_, p)) && p == end_w),
{
    let ghost has_w = (exists|f: Function| #[trigger] function_read(s@, pos, anon_counter, f, end_w) && within_limits(f))
        && simple_float_constants(s@);
    let ghost wfe: (Function, usize) = if has_w {
        (choose|f: Function| #[trigger] function_read(s@, pos, anon_counter, f, end_w) && within_limits(f), end_w)
    } else {
        arbitrary()
    };
    let ghost w: (Seq<usize>, Seq<usize>, Seq<Seq<usize>>, Seq<Seq<InstDataView>>) = if has_w {
        choose|w: (Seq<usize>, Seq<usize>, Seq<Seq<usize>>, Seq<Seq<InstDataView>>)|
            function_read_with(s@, pos, anon_counter, wfe.0, wfe.1, w.0, w.1, w.2, w.3)
    } else {
        arbitrary()
    };
    proof {
        if has_w {
            let (a, b, c, d) = choose|a: Seq<usize>, b: Seq<usize>, c: Seq<Seq<usize>>, d: Seq<Seq<InstDataView>>|
                function_read_with(s@, pos, anon_counter, wfe.0, wfe.1, a, b, c, d);
            let ww = (a, b, c, d);
            assert(function_read_with(s@, pos, anon_counter, wfe.0, wfe.1, ww.0, ww.1, ww.2, ww.3));
            assert(function_read_with(s@, pos, anon_counter, wfe.0, wfe.1, w.0, w.1, w.2, w.3));
            reveal_strlit("block");
        }
    }
    let ghost whs = w.0;
    let ghost wes = w.1;
    let ghost wpss = w.2;
    let ghost wdss = w.3;
    proof {
        if has_w {
            let fe = choose|fe: (Function, usize)| #[trigger] function_read(s@, pos, anon_counter, fe.0, fe.1) && within_limits(fe.0);
            assert(function_read(s@, pos, anon_counter, wfe.0, wfe.1) && within_limits(wfe.0)) by {
                let f0 = choose|f: Function, e: usize| #[trigger] function_read(s@, pos, anon_counter, f, e) && within_limits(f);
                assert(function_read(s@, pos, anon_counter, (f0.0, f0.1).0, (f0.0, f0.1).1));
            }
            let (a, b, c, d) = choose|a: Seq<usize>, b: Seq<usize>, c: Seq<Seq<usize>>, d: Seq<Seq<InstDataView>>|
                function_read_with(s@, pos, anon_counter, wfe.0, wfe.1, a, b, c, d);
            let ww = (a, b, c, d);
            assert(function_read_with(s@, pos, anon_counter, wfe.0, wfe.1, ww.0, ww.1, ww.2, ww.3));
            assert(function_read_with(s@, pos, anon_counter, wfe.0, wfe.1, w.0, w.1, w.2, w.3));
            reveal_strlit("block");
        }
    }
    let p = tok(s, pos, "function")?;
    let ghost q = p;
    let (name, p) = match parse_function_name(s, p) {
        Some((n, p2)) => (n, p2),
        None => (anon_name_of(anon_counter), p),
    };
    let ghost q1 = p;
    let (signature, p) = parse_signature(s, p)?;
    let mut p = tok_char(s, p, '{')?;
    let ghost start = p;
    let ghost name_ok = match name_at(s@, q as int) {
        Some((n, _)) => name@ == n,
        None => name@ == anon_name(anon_counter as nat),
    };
    let ghost sig_ok = signature_at(s@, q1 as int) matches Some((ps, rs, _)) && signature.params@ == ps
        && signature.returns@ == rs;
    proof {
        assert(name_ok);
        assert(sig_ok);
        assert(body_start(s@, pos, anon_counter) == Some(start));
    }
    let mut func = Function::new(signature, name);
    let ghost mut hs: Seq<usize> = seq![];
    let ghost mut es: Seq<usize> = seq![];
    let ghost mut pss: Seq<Seq<usize>> = seq![];
    let ghost mut dss: Seq<Seq<InstDataView>> = seq![];
    let ghost mut cur: usize = start;
    proof {
        assert(func.layout@.order =~= Seq::new(0, |k: int| k as nat));
    }
    loop
        invariant_except_break
            p == cur,
        invariant
            pos < cur <= s@.len(),
            cur == (if hs.len() == 0 {
                start
            } else {
                es[hs.len() - 1]
            }),
            func.wf(),
            body_start(s@, pos, anon_counter) == Some(start),
            (match name_at(s@, q as int) {
                Some((n, _)) => func.name@ == n,
                None => func.name@ == anon_name(anon_counter as nat),
            }),
            signature_at(s@, q1 as int) matches Some((ps, rs, _)) && func.signature.params@ == ps
                && func.signature.returns@ == rs,
            q == tok_at(s@, pos as int, "function"@).unwrap(),
            q1 == (match name_at(s@, q as int) {
                Some((_, q1)) => q1,
                None => q,
            }),
            es.len() == hs.len() && pss.len() == hs.len() && dss.len() == hs.len(),
            func.blocks@.len() == hs.len(),
            hs.len() > 0 ==> hs[0] == blank_end(s@, start as int),
            forall|k: int| 0 <= k < hs.len() - 1 ==> #[trigger] hs[k + 1] == blank_end(s@, es[k] as int),
            forall|k: int|
                0 <= k < hs.len() ==> #[trigger] block_read(s@, hs[k], func.blocks@[k].params@, dss[k], pss[k], es[k]),
            func.layout@.order == Seq::new(hs.len(), |k: int| k as nat),
            forall|k: int| 0 <= k < hs.len() ==> #[trigger] func.layout@.contents[k] == block_run(dss, k),
            func.dfg.insts@.len() == flat(dss).len(),
            forall|i: int| 0 <= i < flat(dss).len() ==> #[trigger] func.dfg.insts@[i]@ == flat(dss)[i],
            has_w == ((exists|f: Function| #[trigger] function_read(s@, pos, anon_counter, f, end_w) && within_limits(f))
                && simple_float_constants(s@)),
            has_w ==> function_read_with(s@, pos, anon_counter, wfe.0, wfe.1, whs, wes, wpss, wdss)
                && within_limits(wfe.0) && simple_float_constants(s@),
            has_w ==> hs.len() <= whs.len(),
            has_w ==> forall|k: int| 0 <= k < hs.len() ==> es[k] == wes[k],
            has_w ==> func.dfg.insts@.len() == flat(wdss.take(hs.len() as int)).len(),
        ensures
            p == blank_end(s@, cur as int),
            cur <= p,
            p < s@.len() && s@[p as int] == '}',
            has_w ==> hs.len() == whs.len(),
        decreases s@.len() - cur,
    {
        p = skip_blank(s, p);
        proof {
            if has_w {
                let k = hs.len() as int;
                if k < whs.len() {
                    if k == 0 {
                        assert(whs[0] == blank_end(s@, start as int));
                    } else {
                        assert(whs[(k - 1) + 1] == blank_end(s@, wes[k - 1] as int));
                    }
                    assert(whs[k] == p);
                    assert(block_read(s@, whs[k], wfe.0.blocks@[k].params@, wdss[k], wpss[k], wes[k]));
                    assert(block_header_at(s@, p as int) is Some);
                    assert(block_index_at(s@, p as int) is Some);
                    reveal_strlit("block");
                    assert(s@.subrange(p as int, p + 5) == "block"@);
                    assert(s@[p as int] == s@.subrange(p as int, p + 5)[0]);
                } else {
                    assert(k == whs.len());
                    if k > 0 {
                        assert(wes[k - 1] == es[k - 1]);
                    }
                    assert(p < s@.len() && s@[p as int] == '}');
                }
            }
        }
        assert(has_w ==> (hs.len() < whs.len() ==> block_header_at(s@, p as int) is Some && p == whs[hs.len() as int])
            && (hs.len() == whs.len() ==> p < s@.len() && s@[p as int] == '}'));
        if p < s.len() && s[p] == '}' {
            break ;
        }
        assert(has_w ==> hs.len() < whs.len());
        let ghost h = p;
        let ((params, _types), p2) = parse_block_header(s, p)?;
        proof {
            if has_w {
                assert(func.blocks@.len() < 0x7fff_0000);
            }
        }
        if func.block_count() >= 0x7fff_0000 {
            return None;
        }
        let ghost nb = hs.len();
        let ghost f0 = func;
        proof {
            func.lemma_fresh();
        }
        let block = func.create_block_with_params(params);
        func.append_block(block);
        proof {
            let o = func.layout@.order;
            assert(o[o.len() - 1] == block.0 as nat);
            assert(func.layout@.order =~= Seq::new(nb + 1, |k: int| k as nat));
            assert(func.layout@.contents[nb as int] == Seq::<nat>::empty());
        }
        p = p2;
        let ghost mut ds: Seq<InstDataView> = seq![];
        let ghost mut ps: Seq<usize> = seq![p2];
        let ghost base = flat(dss).len();
        proof {
            if has_w {
                let k = nb as int;
                assert(block_read(s@, whs[k], wfe.0.blocks@[k].params@, wdss[k], wpss[k], wes[k]));
                assert(insts_read(s@, p2, wdss[k], wpss[k], wes[k]));
                lemma_flat_take(wdss, k);
                assert(base == flat(wdss.take(k)).len());
            }
        }
        loop
            invariant
                pos < p <= s@.len(),
                cur < p,
                func.wf(),
                func.layout@.inserted(block.0 as nat),
                block.0 == nb,
                func.blocks@.len() == nb + 1,
                func.blocks@.subrange(0, nb as int) == f0.blocks@,
                func.blocks@[nb as int].params@ == params@,
                func.name == f0.name,
                func.signature == f0.signature,
                func.layout@.order == Seq::new(nb + 1, |k: int| k as nat),
                forall|k: int| 0 <= k < nb ==> #[trigger] func.layout@.contents[k] == f0.layout@.contents[k],
                func.layout@.contents[nb as int] == Seq::new(ds.len(), |j: int| (base + j) as nat),
                func.dfg.insts@.len() == base + ds.len(),
                forall|i: int| 0 <= i < base ==> #[trigger] func.dfg.insts@[i] == f0.dfg.insts@[i],
                forall|j: int| 0 <= j < ds.len() ==> #[trigger] func.dfg.insts@[base + j]@ == ds[j],
                f0.dfg.insts@.len() == base,
                ps.len() == ds.len() + 1,
                ps[0] == p2,
                ps[ds.len() as int] == p,
                forall|i: int| 0 <= i < ds.len() ==> #[trigger] instruction_result(s@, ps[i], Some((ds[i], ps[i + 1]))),
                has_w == ((exists|f: Function| #[trigger] function_read(s@, pos, anon_counter, f, end_w) && within_limits(f))
                    && simple_float_constants(s@)),
                has_w ==> simple_float_constants(s@) && nb < whs.len() && insts_read(s@, p2, wdss[nb as int], wpss[nb as int], wes[nb as int]),
                has_w ==> ds.len() <= wdss[nb as int].len() && p == wpss[nb as int][ds.len() as int],
                has_w ==> base + wdss[nb as int].len() <= MAX_INSTS,
            ensures
                has_w ==> ds.len() == wdss[nb as int].len() && p == wes[nb as int],
                instruction_result(s@, p, None),
                pos < p <= s@.len(),
                cur < p,
                func.wf(),
                func.blocks@.len() == nb + 1,
                func.blocks@.subrange(0, nb as int) == f0.blocks@,
                func.blocks@[nb as int].params@ == params@,
                func.name == f0.name,
                func.signature == f0.signature,
                func.layout@.order == Seq::new(nb + 1, |k: int| k as nat),
                forall|k: int| 0 <= k < nb ==> #[trigger] func.layout@.contents[k] == f0.layout@.contents[k],
                func.layout@.contents[nb as int] == Seq::new(ds.len(), |j: int| (base + j) as nat),
                func.dfg.insts@.len() == base + ds.len(),
                forall|i: int| 0 <= i < base ==> #[trigger] func.dfg.insts@[i] == f0.dfg.insts@[i],
                forall|j: int| 0 <= j < ds.len() ==> #[trigger] func.dfg.insts@[base + j]@ == ds[j],
                ps.len() == ds.len() + 1,
                ps[0] == p2,
                ps[ds.len() as int] == p,
                forall|i: int| 0 <= i < ds.len() ==> #[trigger] instruction_result(s@, ps[i], Some((ds[i], ps[i + 1]))),
            decreases s@.len() - p,
        {
            let parsed = parse_instruction(s, p);
            proof {
                if has_w {
                    let k = nb as int;
                    let i = ds.len() as int;
                    if i < wdss[k].len() {
                        assert(instruction_result(s@, wpss[k][i], Some((wdss[k][i], wpss[k][i + 1]))));
                        lemma_instruction_determined(s@, p, viewed(parsed), Some((wdss[k][i], wpss[k][i + 1])));
                    } else {
                        assert(p == wes[k]);
                        lemma_instruction_determined(s@, p, viewed(parsed), None);
                    }
                }
            }
            match parsed {
                None => {
                    break ;
                },
                Some((data, p3)) => {
                    proof {
                        func.layout.lemma_wf_bounds();
                        if has_w {
                            assert(ds.len() < wdss[nb as int].len());
                            assert(p3 == wpss[nb as int][ds.len() as int + 1]);
                        }
                    }
                    if func.layout.num_insts() >= MAX_INSTS as usize {
                        return None;
                    }
                    proof {
                        func.lemma_fresh();
                    }
                    let ghost d = data@;
                    let ghost before = func;
                    let inst = func.create_inst(data);
                    func.append_inst(inst, block);
                    proof {
                        assert(func.layout@.contents[nb as int] =~= Seq::new(
                            (ds.len() + 1) as nat,
                            |j: int| (base + j) as nat,
                        ));
                        assert(func.dfg.insts@[(base + ds.len()) as int]@ == d);
                        assert forall|j: int| 0 <= j < ds.len() + 1 implies #[trigger] func.dfg.insts@[base + j]@
                            == ds.push(d)[j] by {
                            if j < ds.len() {
                                assert(func.dfg.insts@[base + j] == before.dfg.insts@[base + j]);
                            }
                        }
                        assert forall|i: int| 0 <= i < ds.len() + 1 implies #[trigger] instruction_result(
                            s@,
                            ps.push(p3)[i],
                            Some((ds.push(d)[i], ps.push(p3)[i + 1])),
                        ) by {
                            if i < ds.len() {
                                assert(ps.push(p3)[i] == ps[i] && ps.push(p3)[i + 1] == ps[i + 1]);
                                assert(instruction_result(s@, ps[i], Some((ds[i], ps[i + 1]))));
                            }
                        }
                        ds = ds.push(d);
                        ps = ps.push(p3);
                    }
                    p = p3;
                },
            }
        }
        proof {
            let dss2 = dss.push(ds);
            assert(dss2.drop_last() =~= dss);
            assert(flat(dss2) == flat(dss) + ds);
            assert forall|k: int| 0 <= k <= nb implies #[trigger] dss2.take(k) == (if k < nb {
                dss.take(k)
            } else {
                dss
            }) by {
                if k < nb {
                    assert(dss2.take(k) =~= dss.take(k));
                } else {
                    assert(dss2.take(k) =~= dss);
                }
            }
            assert forall|k: int| 0 <= k < nb + 1 implies #[trigger] func.layout@.contents[k] == block_run(dss2, k) by {
                if k < nb {
                    assert(dss2.take(k) == dss.take(k));
                    assert(block_run(dss2, k) =~= block_run(dss, k));
                } else {
                    assert(dss2.take(k) == dss);
                    assert(block_run(dss2, k) =~= func.layout@.contents[k]);
                }
            }
            assert forall|i: int| 0 <= i < flat(dss2).len() implies #[trigger] func.dfg.insts@[i]@ == flat(dss2)[i] by {
                if i < base {
                    assert(func.dfg.insts@[i] == f0.dfg.insts@[i]);
                } else {
                    assert(func.dfg.insts@[base + (i - base)]@ == ds[i - base]);
                }
            }
            let hp = pairs(params@, _types@);
            assert(hp.map_values(|x: (Value, Type)| x.0) =~= params@);
            assert(block_read(s@, h, func.blocks@[nb as int].params@, ds, ps, p));
            assert forall|k: int| 0 <= k < nb implies #[trigger] func.blocks@[k] == f0.blocks@[k] by {
                assert(func.blocks@.subrange(0, nb as int)[k] == func.blocks@[k]);
            }
            hs = hs.push(h);
            es = es.push(p);
            pss = pss.push(ps);
            dss = dss2;
            cur = p;
            assert forall|k: int| 0 <= k < hs.len() implies #[trigger] block_read(
                s@,
                hs[k],
                func.blocks@[k].params@,
                dss[k],
                pss[k],
                es[k],
            ) by {
                if k < nb {
                    assert(func.blocks@[k] == f0.blocks@[k]);
                }
            }
        }
    }
    let ghost closing = p;
    let p = match tok_char(s, p, '}') {
        Some(p) => p,
        None => {
            return None;
        },
    };
    proof {
        lemma_blank_end_bounds(s@, closing + 1);
        assert(s@.len() == s.len());
        assert(p == blank_end(s@, closing + 1));
        let nb = hs.len();
        let last = if nb == 0 {
            blank_end(s@, start as int)
        } else {
            blank_end(s@, es[nb - 1] as int)
        };
        assert(last == blank_end(s@, cur as int));
        assert(0 <= last < s@.len() && s@[last] == '}');
        lemma_blank_end_bounds(s@, last + 1);
        assert(p == blank_end(s@, last + 1));
        assert(function_read_with(s@, pos, anon_counter, func, p, hs, es, pss, dss));
        if has_w {
            if nb > 0 {
                assert(es[nb - 1] == wes[nb - 1]);
            }
            assert(p == wfe.1);
        }
    }
    Some((func, p))
}

} // verus!
