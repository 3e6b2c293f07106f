//! Instruction parsers.
//!
//! Each parser reads one instruction at a position of the input and gives
//! back the instruction data and the position after it (and the blanks that
//! follow), or nothing when the text there is not that instruction.

use vstd::prelude::*;

use crate::{
    condcodes::{FloatCC, IntCC},
    dfg::{
        inst_data::{inst_view, InstDataView},
        Immediate, InstData, Opcode,
    },
    entity::Block,
    parser::{
        float::{float_determined, float_result, parse_float},
        lexer::{
            blank_end, lemma_blank_end_bounds, lemma_block_name_at, lemma_value_name_at, block_index_at, has_at,
            integer_at, is_space, lemma_dec_digits, lemma_dec_len_u32, name_end, parse_block_index,
            parse_function_name, parse_integer, parse_type, parse_value, tok, tok_char, type_at,
            value_at,
        },
    },
    inst::opt_args_text,
    printer::{binary_mnemonic, data_text},
    text::{binop_text, block_name, value_name, values_text},
    trapcode::TrapCode,
    value::Value,
};

verus! {

/// What a parser gives back: a result and the position after it.
pub type Parsed<T> = Option<(T, usize)>;

/// The word `w` at `p`, and where the blanks after it end.
pub open spec fn tok_at(s: Seq<char>, p: int, w: Seq<char>) -> Option<usize> {
    if has_at(s, p, w) {
        Some(blank_end(s, p + w.len()) as usize)
    } else {
        None
    }
}

/// The character `c` at `p`, and where the blanks after it end.
pub open spec fn char_at(s: Seq<char>, p: int, c: char) -> Option<usize> {
    if 0 <= p < s.len() && s[p] == c {
        Some(blank_end(s, p + 1) as usize)
    } else {
        None
    }
}

/// `v<n> =` at `p`: the value assigned, and the position after `=`.
pub open spec fn assign_at(s: Seq<char>, p: int) -> Option<(Value, usize)> {
    match value_at(s, p) {
        Some((v, q)) => match char_at(s, q as int, '=') {
            Some(q2) => Some((v, q2)),
            None => None,
        },
        None => None,
    }
}

/// Two values separated by a comma at `p`.
pub open spec fn two_values_at(s: Seq<char>, p: int) -> Option<((Value, Value), usize)> {
    match value_at(s, p) {
        Some((a, q)) => match char_at(s, q as int, ',') {
            Some(q2) => match value_at(s, q2 as int) {
                Some((b, q3)) => Some(((a, b), q3)),
                None => None,
            },
            None => None,
        },
        None => None,
    }
}

/// The values after the first one of a list that ended at `p`: each after
/// a comma, up to the first comma not followed by a value (left unread).
pub open spec fn list_tail_at(s: Seq<char>, p: int) -> (Seq<Value>, usize)
    decreases s.len() - p,
{
    match char_at(s, p, ',') {
        Some(q) => match value_at(s, q as int) {
            Some((v, q2)) => if p < q2 <= s.len() {
                let (rest, e) = list_tail_at(s, q2 as int);
                (seq![v] + rest, e)
            } else {
                (seq![], p as usize)
            },
            None => (seq![], p as usize),
        },
        None => (seq![], p as usize),
    }
}

/// Zero or more values separated by commas at `p`; a trailing comma is
/// left unread.
pub open spec fn value_list_at(s: Seq<char>, p: int) -> (Seq<Value>, usize) {
    match value_at(s, p) {
        Some((v, q)) => {
            let (rest, e) = list_tail_at(s, q as int);
            (seq![v] + rest, e)
        },
        None => (seq![], p as usize),
    }
}

/// A parse result with its item taken by its view.
pub open spec fn viewed<T: View>(r: Option<(T, usize)>) -> Option<(T::V, usize)> {
    match r {
        Some((x, p)) => Some((x@, p)),
        None => None,
    }
}

/// A list of words with what each stands for, the words as text.
pub open spec fn words_view<T>(v: Seq<(&str, T)>) -> Seq<(Seq<char>, T)> {
    v.map_values(|x: (&str, T)| (x.0@, x.1))
}

/// The first of the words from the `i`-th on that stands at `p`: what it
/// stands for, and where the blanks after it end.
pub open spec fn word_choice_at<T>(s: Seq<char>, p: int, ws: Seq<(Seq<char>, T)>, i: int) -> Option<
    (T, usize),
>
    decreases ws.len() - i,
{
    if 0 <= i < ws.len() {
        match tok_at(s, p, ws[i].0) {
            Some(q) => Some((ws[i].1, q)),
            None => word_choice_at(s, p, ws, i + 1),
        }
    } else {
        None
    }
}

/// An optional parenthesized list of values at `p`; empty when there is
/// none.
pub open spec fn opt_paren_at(s: Seq<char>, p: int) -> Option<(Seq<Value>, usize)> {
    match char_at(s, p, '(') {
        None => Some((seq![], p as usize)),
        Some(q) => {
            let (vals, q2) = value_list_at(s, q as int);
            match char_at(s, q2 as int, ')') {
                Some(q3) => Some((vals, q3)),
                None => None,
            }
        },
    }
}

/// A parenthesized list of values at `p`.
pub open spec fn paren_at(s: Seq<char>, p: int) -> Option<(Seq<Value>, usize)> {
    match char_at(s, p, '(') {
        None => None,
        Some(q) => {
            let (vals, q2) = value_list_at(s, q as int);
            match char_at(s, q2 as int, ')') {
                Some(q3) => Some((vals, q3)),
                None => None,
            }
        },
    }
}

/// An optional `-> v1, v2, ...` list of results at `p`; empty when there
/// is none.
pub open spec fn opt_results_at(s: Seq<char>, p: int) -> (Seq<Value>, usize) {
    match tok_at(s, p, "->"@) {
        Some(q) => value_list_at(s, q as int),
        None => (seq![], p as usize),
    }
}

/// After `v<r> =` ended at `p`: the first of the opcode words from the
/// `i`-th on that stands there, and two values.
pub open spec fn word_binary_at(s: Seq<char>, p: int, ws: Seq<(Seq<char>, Opcode)>, res: Value, i: int) -> Option<
    (InstDataView, usize),
>
    decreases ws.len() - i,
{
    if 0 <= i < ws.len() {
        match tok_at(s, p, ws[i].0) {
            Some(q) => match two_values_at(s, q as int) {
                Some(((a, b), q2)) => Some((inst_view(ws[i].1, seq![a, b], seq![res], None, None, None), q2)),
                None => None,
            },
            None => word_binary_at(s, p, ws, res, i + 1),
        }
    } else {
        None
    }
}

/// A binary operation `v<r> = <op> v<a>, v<b>` at `p`, with one of the
/// opcode words.
pub open spec fn binary_at(s: Seq<char>, p: int, ws: Seq<(Seq<char>, Opcode)>) -> Option<(InstDataView, usize)> {
    match assign_at(s, p) {
        Some((res, q)) => word_binary_at(s, q as int, ws, res, 0),
        None => None,
    }
}

/// The words of the integer arithmetic opcodes.
pub open spec fn arith_words() -> Seq<(Seq<char>, Opcode)> {
    seq![
        ("iadd"@, Opcode::Iadd),
        ("isub"@, Opcode::Isub),
        ("imulh"@, Opcode::Imulh),
        ("imul"@, Opcode::Imul),
        ("idiv"@, Opcode::Idiv),
        ("irem"@, Opcode::Irem),
    ]
}

/// The words of the float arithmetic opcodes.
pub open spec fn float_words() -> Seq<(Seq<char>, Opcode)> {
    seq![("fadd"@, Opcode::Fadd), ("fsub"@, Opcode::Fsub), ("fmul"@, Opcode::Fmul), ("fdiv"@, Opcode::Fdiv)]
}

/// The words of the bitwise opcodes.
pub open spec fn bitwise_words() -> Seq<(Seq<char>, Opcode)> {
    seq![("iand"@, Opcode::Iand), ("ior"@, Opcode::Ior), ("ixor"@, Opcode::Ixor)]
}

/// The words of the shift opcodes.
pub open spec fn shift_words() -> Seq<(Seq<char>, Opcode)> {
    seq![("ishl"@, Opcode::Ishl), ("ishr"@, Opcode::Ishr), ("iashr"@, Opcode::Iashr)]
}

/// `v<r> = inot v<a>` at `p`.
pub open spec fn inot_at(s: Seq<char>, p: int) -> Option<(InstDataView, usize)> {
    match assign_at(s, p) {
        Some((res, q)) => match tok_at(s, q as int, "inot"@) {
            Some(q2) => match value_at(s, q2 as int) {
                Some((a, q3)) => Some((inst_view(Opcode::Inot, seq![a], seq![res], None, None, None), q3)),
                None => None,
            },
            None => None,
        },
        None => None,
    }
}

/// The words of the integer condition codes.
pub open spec fn int_cc_words() -> Seq<(Seq<char>, IntCC)> {
    seq![
        ("eq"@, IntCC::Equal),
        ("ne"@, IntCC::NotEqual),
        ("slt"@, IntCC::SignedLessThan),
        ("sge"@, IntCC::SignedGreaterThanOrEqual),
        ("sgt"@, IntCC::SignedGreaterThan),
        ("sle"@, IntCC::SignedLessThanOrEqual),
        ("ult"@, IntCC::UnsignedLessThan),
        ("uge"@, IntCC::UnsignedGreaterThanOrEqual),
        ("ugt"@, IntCC::UnsignedGreaterThan),
        ("ule"@, IntCC::UnsignedLessThanOrEqual),
    ]
}

/// Reading a condition code gives back the one whose text the printer
/// writes: for every integer condition code `c`, its mnemonic, followed by
/// anything, reads as `c`.
pub proof fn lemma_int_cc_read_back(c: IntCC, rest: Seq<char>)
    ensures
        word_choice_at(c.spec_mnemonic() + rest, 0, int_cc_words(), 0) == Some(
            (c, blank_end(c.spec_mnemonic() + rest, c.spec_mnemonic().len() as int) as usize),
        ),
{
    let s = c.spec_mnemonic() + rest;
    reveal_with_fuel(word_choice_at, 11);
    reveal_strlit("eq");
    reveal_strlit("ne");
    reveal_strlit("slt");
    reveal_strlit("sge");
    reveal_strlit("sgt");
    reveal_strlit("sle");
    reveal_strlit("ult");
    reveal_strlit("uge");
    reveal_strlit("ugt");
    reveal_strlit("ule");
    let m = c.spec_mnemonic();
    assert(s.subrange(0, m.len() as int) =~= m);
    assert(s[0] == m[0]);
    assert(s[1] == m[1]);
    if m.len() == 3 {
        assert(s[2] == m[2]);
    }
    lemma_blank_end_bounds(s, m.len() as int);
    let ws = int_cc_words();
    assert forall|i: int| 0 <= i < ws.len() && ws[i].1 == c implies #[trigger] ws[i].0 =~= m by {}
    assert(has_at(s, 0, m));
    assert forall|i: int| 0 <= i < ws.len() && ws[i].1 != c implies !has_at(s, 0, #[trigger] ws[i].0) by {
        if has_at(s, 0, ws[i].0) {
            let w = ws[i].0;
            assert(s.subrange(0, w.len() as int)[0] == w[0]);
            assert(s.subrange(0, w.len() as int)[1] == w[1]);
            if w.len() == 3 {
                assert(s.subrange(0, w.len() as int)[2] == w[2]);
            }
        }
    }
}

/// Reading a float condition code gives back the one whose text the
/// printer writes: for every float condition code `c`, its mnemonic,
/// followed by anything, reads as `c`.
pub proof fn lemma_float_cc_read_back(c: FloatCC, rest: Seq<char>)
    ensures
        word_choice_at(c.spec_mnemonic() + rest, 0, float_cc_words(), 0) == Some(
            (c, blank_end(c.spec_mnemonic() + rest, c.spec_mnemonic().len() as int) as usize),
        ),
{
    let s = c.spec_mnemonic() + rest;
    reveal_with_fuel(word_choice_at, 15);
    reveal_strlit("ord");
    reveal_strlit("uno");
    reveal_strlit("eq");
    reveal_strlit("ne");
    reveal_strlit("one");
    reveal_strlit("ueq");
    reveal_strlit("lt");
    reveal_strlit("le");
    reveal_strlit("gt");
    reveal_strlit("ge");
    reveal_strlit("ult");
    reveal_strlit("ule");
    reveal_strlit("ugt");
    reveal_strlit("uge");
    let m = c.spec_mnemonic();
    assert(s.subrange(0, m.len() as int) =~= m);
    assert(s[0] == m[0]);
    assert(s[1] == m[1]);
    if m.len() == 3 {
        assert(s[2] == m[2]);
    }
    lemma_blank_end_bounds(s, m.len() as int);
    let ws = float_cc_words();
    assert forall|i: int| 0 <= i < ws.len() && ws[i].1 != c implies !has_at(s, 0, #[trigger] ws[i].0) by {
        if has_at(s, 0, ws[i].0) {
            let w = ws[i].0;
            assert(s.subrange(0, w.len() as int)[0] == w[0]);
            assert(s.subrange(0, w.len() as int)[1] == w[1]);
            if w.len() == 3 {
                assert(s.subrange(0, w.len() as int)[2] == w[2]);
            }
        }
    }
}

/// `, v<a>, v<b>, ...`: each value behind a comma and a space.
spec fn comma_values_text(ws: Seq<Value>) -> Seq<char>
    decreases ws.len(),
{
    if ws.len() == 0 {
        seq![]
    } else {
        comma_values_text(ws.drop_last()) + ", "@ + value_name(ws.last().0 as nat)
    }
}

/// The first value of a comma list comes first in its text.
proof fn lemma_comma_values_front(w: Value, ws: Seq<Value>)
    ensures
        comma_values_text(seq![w] + ws) == ", "@ + value_name(w.0 as nat) + comma_values_text(ws),
    decreases ws.len(),
{
    let l = seq![w] + ws;
    if ws.len() == 0 {
        assert(l.drop_last() =~= Seq::<Value>::empty());
        assert(l.last() == w);
        assert(comma_values_text(Seq::<Value>::empty()) == Seq::<char>::empty());
        assert(comma_values_text(ws) == Seq::<char>::empty());
        assert(comma_values_text(l) == comma_values_text(Seq::<Value>::empty()) + ", "@ + value_name(w.0 as nat));
        assert(comma_values_text(l) =~= ", "@ + value_name(w.0 as nat) + comma_values_text(ws));
    } else {
        lemma_comma_values_front(w, ws.drop_last());
        assert(l.drop_last() =~= seq![w] + ws.drop_last());
        assert(l.last() == ws.last());
        assert(comma_values_text(l) == comma_values_text(seq![w] + ws.drop_last()) + ", "@ + value_name(
            ws.last().0 as nat,
        ));
        assert(comma_values_text(ws) == comma_values_text(ws.drop_last()) + ", "@ + value_name(ws.last().0 as nat));
        assert(comma_values_text(l) =~= ", "@ + value_name(w.0 as nat) + comma_values_text(ws));
    }
}

/// The text of a non-empty list of values: the first, then the others each
/// behind a comma and a space.
proof fn lemma_values_text_split(vs: Seq<Value>)
    requires
        vs.len() >= 1,
    ensures
        values_text(vs) == value_name(vs[0].0 as nat) + comma_values_text(vs.subrange(1, vs.len() as int)),
    decreases vs.len(),
{
    if vs.len() == 1 {
        assert(vs.subrange(1, 1) =~= Seq::<Value>::empty());
        assert(values_text(vs) =~= value_name(vs[0].0 as nat) + comma_values_text(vs.subrange(1, 1)));
    } else {
        lemma_values_text_split(vs.drop_last());
        let r = vs.subrange(1, vs.len() as int);
        assert(r.drop_last() =~= vs.drop_last().subrange(1, vs.len() - 1));
        assert(r.last() == vs.last());
        reveal_strlit(", ");
        assert(values_text(vs) =~= value_name(vs[0].0 as nat) + comma_values_text(r));
    }
}

/// The text of a list of values is short enough for its positions.
proof fn lemma_comma_values_len(ws: Seq<Value>)
    ensures
        comma_values_text(ws).len() <= 13 * ws.len(),
    decreases ws.len(),
{
    reveal_strlit(", ");
    if ws.len() > 0 {
        lemma_comma_values_len(ws.drop_last());
        lemma_dec_len_u32(ws.last().0);
    }
}

/// `, v<a>, ...` at `p`, up to a `)`, reads as those values.
proof fn lemma_list_tail_read(s: Seq<char>, p: int, ws: Seq<Value>)
    requires
        0 <= p,
        p + comma_values_text(ws).len() < s.len(),
        s.len() <= usize::MAX,
        s.subrange(p, p + comma_values_text(ws).len()) == comma_values_text(ws),
        s[p + comma_values_text(ws).len()] == ')',
    ensures
        list_tail_at(s, p) == (ws, (p + comma_values_text(ws).len()) as usize),
    decreases ws.len(),
{
    reveal_strlit(", ");
    if ws.len() == 0 {
        assert(s[p] == ')');
    } else {
        let w = ws[0];
        let rest = ws.subrange(1, ws.len() as int);
        assert(ws =~= seq![w] + rest);
        lemma_comma_values_front(w, rest);
        let vn = value_name(w.0 as nat);
        let a = vn.len() as int;
        let t = comma_values_text(rest);
        let all = comma_values_text(ws);
        assert(all == ", "@ + vn + t);
        let sub = s.subrange(p, p + all.len());
        assert(s[p] == sub[0] && sub[0] == ',');
        assert(s[p + 1] == sub[1] && sub[1] == ' ');
        lemma_dec_digits(w.0 as nat);
        assert(s[p + 2] == sub[2] && sub[2] == 'v');
        assert(s.subrange(p + 2, p + 2 + a) =~= vn) by {
            assert forall|k: int| 0 <= k < a implies s.subrange(p + 2, p + 2 + a)[k] == vn[k] by {
                assert(sub[k + 2] == vn[k]);
            }
        }
        assert(s.subrange(p + 2 + a, p + 2 + a + t.len()) =~= t) by {
            assert forall|k: int| 0 <= k < t.len() implies s.subrange(p + 2 + a, p + 2 + a + t.len())[k] == t[k] by {
                assert(sub[k + 2 + a] == t[k]);
            }
        }
        let q = p + 2 + a;
        assert(s[q] == ',' || s[q] == ')') by {
            if t.len() > 0 {
                lemma_comma_values_front(rest[0], rest.subrange(1, rest.len() as int));
                assert(rest =~= seq![rest[0]] + rest.subrange(1, rest.len() as int));
                assert(s[q] == s.subrange(q, q + t.len())[0]);
            }
        }
        assert(blank_end(s, p + 2) == p + 2);
        assert(blank_end(s, p + 1) == p + 2);
        assert(char_at(s, p, ',') == Some((p + 2) as usize));
        lemma_value_name_at(s, p + 2, w.0);
        assert(blank_end(s, q) == q);
        assert(value_at(s, p + 2) == Some((w, q as usize)));
        lemma_list_tail_read(s, q, rest);
        assert(seq![w] + rest =~= ws);
    }
}

/// A non-empty list of values, as the printer writes it, up to a `)`,
/// reads as those values.
proof fn lemma_value_list_read(s: Seq<char>, p: int, vs: Seq<Value>)
    requires
        0 <= p,
        vs.len() >= 1,
        p + values_text(vs).len() < s.len(),
        s.len() <= usize::MAX,
        s.subrange(p, p + values_text(vs).len()) == values_text(vs),
        s[p + values_text(vs).len()] == ')',
    ensures
        value_list_at(s, p) == (vs, (p + values_text(vs).len()) as usize),
{
    lemma_values_text_split(vs);
    let w = vs[0];
    let rest = vs.subrange(1, vs.len() as int);
    let vn = value_name(w.0 as nat);
    let a = vn.len() as int;
    let t = comma_values_text(rest);
    let all = values_text(vs);
    let sub = s.subrange(p, p + all.len());
    assert(s.subrange(p, p + a) =~= vn) by {
        assert forall|k: int| 0 <= k < a implies s.subrange(p, p + a)[k] == vn[k] by {
            assert(sub[k] == vn[k]);
        }
    }
    assert(s.subrange(p + a, p + a + t.len()) =~= t) by {
        assert forall|k: int| 0 <= k < t.len() implies s.subrange(p + a, p + a + t.len())[k] == t[k] by {
            assert(sub[k + a] == t[k]);
        }
    }
    let q = p + a;
    assert(s[q] == ',' || s[q] == ')') by {
        reveal_strlit(", ");
        if t.len() > 0 {
            lemma_comma_values_front(rest[0], rest.subrange(1, rest.len() as int));
            assert(rest =~= seq![rest[0]] + rest.subrange(1, rest.len() as int));
            assert(s[q] == s.subrange(q, q + t.len())[0]);
        }
    }
    lemma_value_name_at(s, p, w.0);
    assert(blank_end(s, q) == q);
    lemma_list_tail_read(s, q, rest);
    assert(seq![w] + rest =~= vs);
}

/// Optional arguments in parentheses, as the printer writes them, followed
/// by a comma or the end, read as those arguments.
proof fn lemma_opt_args_read(s: Seq<char>, p: int, vs: Seq<Value>)
    requires
        0 <= p,
        p + opt_args_text(vs).len() <= s.len(),
        s.len() <= usize::MAX,
        s.subrange(p, p + opt_args_text(vs).len()) == opt_args_text(vs),
        p + opt_args_text(vs).len() == s.len() || s[p + opt_args_text(vs).len()] == ',',
    ensures
        opt_paren_at(s, p) == Some((vs, (p + opt_args_text(vs).len()) as usize)),
{
    reveal_strlit("(");
    reveal_strlit(")");
    let o = opt_args_text(vs);
    if vs.len() == 0 {
        assert(o.len() == 0);
    } else {
        let vt = values_text(vs);
        let l = vt.len() as int;
        assert(o == "("@ + vt + ")"@);
        assert(s[p] == s.subrange(p, p + o.len())[0]);
        assert(s[p] == '(');
        assert(s.subrange(p + 1, p + 1 + l) =~= vt) by {
            assert forall|k: int| 0 <= k < l implies s.subrange(p + 1, p + 1 + l)[k] == vt[k] by {
                assert(s.subrange(p, p + o.len())[k + 1] == o[k + 1]);
            }
        }
        assert(s[p + 1 + l] == s.subrange(p, p + o.len())[1 + l]);
        assert(s[p + 1 + l] == ')');
        lemma_values_text_split(vs);
        assert(s[p + 1] == vt[0]);
        assert(vt[0] == 'v');
        assert(blank_end(s, p + 1) == p + 1);
        lemma_value_list_read(s, p + 1, vs);
        assert(blank_end(s, p + 2 + l) == p + 2 + l);
    }
}

/// `brif <c>, <t0>(<a0>), <t1>(<a1>)`.
#[verifier::opaque]
spec fn brif_args_text(c: Value, t0: Block, a0: Seq<Value>, t1: Block, a1: Seq<Value>) -> Seq<char> {
    "brif "@ + value_name(c.0 as nat) + ", "@ + block_name(t0.0 as nat) + opt_args_text(a0) + ", "@ + block_name(
        t1.0 as nat,
    ) + opt_args_text(a1)
}

/// The characters of `brif <c>, <t0>(<a0>), <t1>(<a1>)` where its parts meet.
proof fn lemma_brif_args_chars(c: Value, t0: Block, a0: Seq<Value>, t1: Block, a1: Seq<Value>)
    ensures
        ({
            let s = brif_args_text(c, t0, a0, t1, a1);
            let a = value_name(c.0 as nat).len() as int;
            let l0 = block_name(t0.0 as nat).len() as int;
            let o0 = opt_args_text(a0).len() as int;
            let l1 = block_name(t1.0 as nat).len() as int;
            let o1 = opt_args_text(a1).len() as int;
            let x = 7 + a + l0 + o0;
            &&& s.len() == 9 + a + l0 + o0 + l1 + o1
            &&& s[4] == ' ' && s[5] == 'v'
            &&& s[5 + a] == ',' && s[6 + a] == ' ' && s[7 + a] == 'b'
            &&& s[x] == ',' && s[x + 1] == ' ' && s[x + 2] == 'b'
            &&& s.subrange(0, 4) == "brif"@
            &&& s.subrange(5, 5 + a) == value_name(c.0 as nat)
            &&& s.subrange(7 + a, 7 + a + l0) == block_name(t0.0 as nat)
            &&& s.subrange(7 + a + l0, x) == opt_args_text(a0)
            &&& s.subrange(x + 2, x + 2 + l1) == block_name(t1.0 as nat)
            &&& s.subrange(x + 2 + l1, s.len() as int) == opt_args_text(a1)
        }),
{
    reveal_strlit("brif ");
    reveal_strlit(", ");
    reveal_strlit("brif");
    reveal(brif_args_text);
    let vn = value_name(c.0 as nat);
    let b0 = block_name(t0.0 as nat);
    let b1 = block_name(t1.0 as nat);
    let o0 = opt_args_text(a0);
    let o1 = opt_args_text(a1);
    let p1 = "brif "@ + vn;
    let p2 = p1 + ", "@;
    let p3 = p2 + b0;
    let p3b = p3 + o0;
    let p4 = p3b + ", "@;
    let p5 = p4 + b1;
    let s = p5 + o1;
    assert(s == brif_args_text(c, t0, a0, t1, a1));
    let a = vn.len() as int;
    let l0 = b0.len() as int;
    let x = 7 + a + l0 + o0.len();
    assert(p1[4] == ' ' && p1[5] == 'v');
    assert(p2[5 + a] == ',' && p2[6 + a] == ' ');
    assert(p3[7 + a] == 'b');
    assert(p4[x] == ',' && p4[x + 1] == ' ');
    assert(p5[x + 2] == 'b');
    assert(s.subrange(0, 4) =~= "brif"@);
    assert(s.subrange(5, 5 + a) =~= vn);
    assert(s.subrange(7 + a, 7 + a + l0) =~= b0);
    assert(s.subrange(7 + a + l0, x) =~= o0);
    assert(s.subrange(x + 2, x + 2 + b1.len()) =~= b1);
    assert(s.subrange(x + 2 + b1.len(), s.len() as int) =~= o1);
}

/// The first character of a non-empty argument list, and of none.
proof fn lemma_opt_args_first(vs: Seq<Value>)
    ensures
        opt_args_text(vs).len() > 0 ==> opt_args_text(vs)[0] == '(',
        vs.len() == 0 ==> opt_args_text(vs).len() == 0,
{
    reveal_strlit("(");
}

/// `brif <c>, <t0>(<a0>), <t1>(<a1>)` reads as that branch.
#[verifier::spinoff_prover]
#[verifier::rlimit(100)]
proof fn lemma_brif_args_read(c: Value, t0: Block, a0: Seq<Value>, t1: Block, a1: Seq<Value>)
    requires
        brif_args_text(c, t0, a0, t1, a1).len() <= usize::MAX,
    ensures
        branch_at(brif_args_text(c, t0, a0, t1, a1), 0) == Some(
            (
                inst_view(Opcode::Br, seq![c] + a0 + a1, seq![], Some(seq![(t0, a0), (t1, a1)]), None, None),
                brif_args_text(c, t0, a0, t1, a1).len() as usize,
            ),
        ),
{
    reveal_strlit("brif");
    let s = brif_args_text(c, t0, a0, t1, a1);
    let a = value_name(c.0 as nat).len() as int;
    let l0 = block_name(t0.0 as nat).len() as int;
    let o0 = opt_args_text(a0).len() as int;
    let l1 = block_name(t1.0 as nat).len() as int;
    let x = 7 + a + l0 + o0;
    lemma_brif_args_chars(c, t0, a0, t1, a1);
    lemma_opt_args_first(a0);
    lemma_opt_args_first(a1);
    let e = s.len() as int;
    lemma_blank_one(s, 4);
    assert(tok_at(s, 0, "brif"@) == Some(5usize));
    lemma_value_name_at(s, 5, c.0);
    lemma_blank_stop(s, 5 + a);
    assert(value_at(s, 5) == Some((c, (5 + a) as usize)));
    lemma_blank_one(s, 6 + a);
    assert(char_at(s, 5 + a, ',') == Some((7 + a) as usize));
    assert(s[7 + a + l0] == ',' || s[7 + a + l0] == '(') by {
        if o0 > 0 {
            assert(s[7 + a + l0] == s.subrange(7 + a + l0, x)[0]);
        }
    }
    lemma_block_name_at(s, 7 + a, t0.0);
    lemma_blank_stop(s, 7 + a + l0);
    assert(block_index_at(s, 7 + a) == Some((t0.0, (7 + a + l0) as usize)));
    lemma_opt_args_read(s, 7 + a + l0, a0);
    lemma_blank_one(s, x + 1);
    assert(char_at(s, x, ',') == Some((x + 2) as usize));
    assert(x + 2 + l1 == e || s[x + 2 + l1] == '(') by {
        if x + 2 + l1 < e {
            assert(s[x + 2 + l1] == s.subrange(x + 2 + l1, e)[0]);
        }
    }
    lemma_block_name_at(s, x + 2, t1.0);
    lemma_blank_stop(s, x + 2 + l1);
    assert(block_index_at(s, x + 2) == Some((t1.0, (x + 2 + l1) as usize)));
    lemma_opt_args_read(s, x + 2 + l1, a1);
    assert(Block(t0.0) == t0 && Block(t1.0) == t1);
}

/// `jump <t>(<a>)`.
#[verifier::opaque]
spec fn jump_args_text(t: Block, a: Seq<Value>) -> Seq<char> {
    "jump "@ + block_name(t.0 as nat) + opt_args_text(a)
}

/// `jump <t>(<a>)` reads as that jump.
#[verifier::spinoff_prover]
proof fn lemma_jump_args_read(t: Block, a: Seq<Value>)
    requires
        jump_args_text(t, a).len() <= usize::MAX,
    ensures
        jump_at(jump_args_text(t, a), 0) == Some(
            (inst_view(Opcode::Jump, a, seq![], Some(seq![(t, a)]), None, None), jump_args_text(t, a).len() as usize),
        ),
{
    reveal_strlit("jump ");
    reveal_strlit("jump");
    let b = block_name(t.0 as nat);
    let o = opt_args_text(a);
    let p1 = "jump "@ + b;
    let s = p1 + o;
    reveal(jump_args_text);
    assert(s == jump_args_text(t, a));
    let l = b.len() as int;
    assert(p1[4] == ' ' && p1[5] == 'b');
    assert(s[4] == ' ' && s[5] == 'b');
    assert(s.subrange(0, 4) =~= "jump"@);
    assert(s.subrange(5, 5 + l) =~= b);
    assert(s.subrange(5 + l, s.len() as int) =~= o);
    lemma_opt_args_first(a);
    lemma_blank_one(s, 4);
    assert(tok_at(s, 0, "jump"@) == Some(5usize));
    assert(5 + l == s.len() || s[5 + l] == '(') by {
        if 5 + l < s.len() {
            assert(s[5 + l] == s.subrange(5 + l, s.len() as int)[0]);
        }
    }
    lemma_block_name_at(s, 5, t.0);
    lemma_blank_stop(s, 5 + l);
    assert(block_index_at(s, 5) == Some((t.0, (5 + l) as usize)));
    lemma_opt_args_read(s, 5 + l, a);
    assert(Block(t.0) == t);
}

/// A jump, as the printer writes it, reads back as the same jump: the same
/// target with the same arguments (for a text that fits in memory).
pub proof fn lemma_jump_text_read_back(d: InstDataView)
    requires
        d.opcode is Jump,
        d.block_args matches Some(t) && t.len() == 1,
        data_text(d).len() <= usize::MAX,
    ensures
        jump_at(data_text(d), 0) == Some(
            (
                inst_view(Opcode::Jump, d.block_args.unwrap()[0].1, seq![], d.block_args, None, None),
                data_text(d).len() as usize,
            ),
        ),
{
    reveal_strlit("jump ");
    let t = d.block_args.unwrap();
    reveal(jump_args_text);
    assert(data_text(d) =~= jump_args_text(t[0].0, t[0].1));
    lemma_jump_args_read(t[0].0, t[0].1);
    assert(seq![(t[0].0, t[0].1)] =~= t);
}

/// Reading operation words from `j` on stops at the first one found.
proof fn lemma_word_binary_skip(s: Seq<char>, p: int, ws: Seq<(Seq<char>, Opcode)>, res: Value, j: int, i: int)
    requires
        0 <= j <= i < ws.len(),
        forall|k: int| j <= k < i ==> tok_at(s, p, #[trigger] ws[k].0) is None,
    ensures
        word_binary_at(s, p, ws, res, j) == word_binary_at(s, p, ws, res, i),
    decreases i - j,
{
    if j < i {
        lemma_word_binary_skip(s, p, ws, res, j + 1, i);
    }
}

/// `v<r> = <m> v<a>, v<b>` reads as the binary operation that the word `m`
/// stands for in `ws`, where no word before it in `ws` starts the text.
#[verifier::spinoff_prover]
proof fn lemma_binop_read(r: Value, m: Seq<char>, a: Value, b: Value, ws: Seq<(Seq<char>, Opcode)>, i: int)
    requires
        0 <= i < ws.len(),
        ws[i].0 == m,
        1 <= m.len() <= 8,
        forall|k: int| 0 <= k < m.len() ==> 'a' <= #[trigger] m[k] <= 'z',
        forall|j: int|
            0 <= j < i ==> (#[trigger] ws[j].0).len() <= m.len() + 1 && !has_at(m + " "@, 0, ws[j].0),
    ensures
        binary_at(binop_text(r, m, a, b), 0, ws) == Some(
            (inst_view(ws[i].1, seq![a, b], seq![r], None, None, None), binop_text(r, m, a, b).len() as usize),
        ),
{
    reveal_strlit(" = ");
    reveal_strlit(" ");
    reveal_strlit(", ");
    let s = binop_text(r, m, a, b);
    let vr = value_name(r.0 as nat);
    let va = value_name(a.0 as nat);
    let vb = value_name(b.0 as nat);
    lemma_dec_len_u32(r.0);
    lemma_dec_len_u32(a.0);
    lemma_dec_len_u32(b.0);
    let x = vr.len() as int;
    let lm = m.len() as int;
    let la = va.len() as int;
    let y = x + 4 + lm;
    let p1 = vr + " = "@;
    let p2 = p1 + m;
    let p3 = p2 + " "@;
    let p4 = p3 + va;
    let p5 = p4 + ", "@;
    assert(s == p5 + vb);
    assert(s.len() == y + la + 2 + vb.len());
    assert(s.len() <= 60);
    assert(p1[x] == ' ' && p1[x + 1] == '=' && p1[x + 2] == ' ');
    assert(p3[x + 3 + lm] == ' ');
    assert(p4[y] == 'v');
    assert(p5[y + la] == ',' && p5[y + la + 1] == ' ');
    assert(s[y + la + 2] == 'v');
    assert(s.subrange(0, x) =~= vr);
    assert(s.subrange(y, y + la) =~= va);
    assert(s.subrange(y + la + 2, s.len() as int) =~= vb);
    assert(s.subrange(x + 3, x + 4 + lm) =~= m + " "@);
    assert(s[x + 3] == m[0]);
    lemma_value_name_at(s, 0, r.0);
    lemma_blank_one(s, x);
    assert(value_at(s, 0) == Some((r, (x + 1) as usize)));
    lemma_blank_one(s, x + 2);
    assert(char_at(s, x + 1, '=') == Some((x + 3) as usize));
    assert(assign_at(s, 0) == Some((r, (x + 3) as usize)));
    assert forall|k: int| 0 <= k < i implies tok_at(s, x + 3, #[trigger] ws[k].0) is None by {
        let w = ws[k].0;
        if has_at(s, x + 3, w) {
            assert(has_at(m + " "@, 0, w)) by {
                assert((m + " "@).subrange(0, w.len() as int) =~= w) by {
                    assert forall|c: int| 0 <= c < w.len() implies (m + " "@).subrange(0, w.len() as int)[c] == w[c] by {
                        assert(s.subrange(x + 3, x + 3 + w.len())[c] == w[c]);
                        assert(s.subrange(x + 3, x + 4 + lm)[c] == (m + " "@)[c]);
                    }
                }
            }
        }
    }
    lemma_word_binary_skip(s, x + 3, ws, r, 0, i);
    assert(s.subrange(x + 3, x + 3 + lm) =~= m);
    lemma_blank_one(s, x + 3 + lm);
    assert(tok_at(s, x + 3, m) == Some(y as usize));
    lemma_value_name_at(s, y, a.0);
    lemma_blank_stop(s, y + la);
    lemma_blank_one(s, y + la + 1);
    lemma_value_name_at(s, y + la + 2, b.0);
    lemma_blank_stop(s, s.len() as int);
    assert(two_values_at(s, y) == Some(((a, b), s.len() as usize)));
}

/// Where the words before position `i` of `ws` differ from the word there
/// followed by a space, the conditions of `lemma_binop_read` hold.
proof fn lemma_binop_words(ws: Seq<(Seq<char>, Opcode)>, i: int)
    requires
        0 <= i < ws.len(),
        1 <= ws[i].0.len() <= 8,
        forall|k: int| 0 <= k < ws[i].0.len() ==> 'a' <= #[trigger] ws[i].0[k] <= 'z',
        forall|j: int|
            0 <= j < i ==> (#[trigger] ws[j].0).len() <= ws[i].0.len() + 1 && exists|c: int|
                0 <= c < ws[j].0.len() && c <= ws[i].0.len() && ws[j].0[c] != (ws[i].0 + " "@)[c],
    ensures
        forall|j: int|
            0 <= j < i ==> (#[trigger] ws[j].0).len() <= ws[i].0.len() + 1 && !has_at(ws[i].0 + " "@, 0, ws[j].0),
{
    reveal_strlit(" ");
    assert forall|j: int| 0 <= j < i implies (#[trigger] ws[j].0).len() <= ws[i].0.len() + 1 && !has_at(
        ws[i].0 + " "@,
        0,
        ws[j].0,
    ) by {
        let w = ws[j].0;
        let c = choose|c: int| 0 <= c < w.len() && c <= ws[i].0.len() && w[c] != (ws[i].0 + " "@)[c];
        if has_at(ws[i].0 + " "@, 0, w) {
            assert((ws[i].0 + " "@).subrange(0, w.len() as int)[c] == w[c]);
        }
    }
}

/// An integer arithmetic operation, as the printer writes it, reads back as
/// the same operation on the same operands.
pub proof fn lemma_arith_text_read_back(d: InstDataView)
    requires
        d.opcode is Iadd || d.opcode is Isub || d.opcode is Imulh || d.opcode is Imul || d.opcode is Idiv
            || d.opcode is Irem,
        d.results.len() == 1,
        d.args.len() == 2,
    ensures
        binary_at(data_text(d), 0, arith_words()) == Some(
            (inst_view(d.opcode, d.args, d.results, None, None, None), data_text(d).len() as usize),
        ),
{
    reveal_strlit("iadd");
    reveal_strlit("isub");
    reveal_strlit("imulh");
    reveal_strlit("imul");
    reveal_strlit("idiv");
    reveal_strlit("irem");
    let ws = arith_words();
    let i: int = match d.opcode {
        Opcode::Iadd => 0,
        Opcode::Isub => 1,
        Opcode::Imulh => 2,
        Opcode::Imul => 3,
        Opcode::Idiv => 4,
        _ => 5,
    };
    assert(ws[i].1 == d.opcode);
    assert(binary_mnemonic(d.opcode) == Some(ws[i].0));
    assert forall|j: int|
        0 <= j < i implies (#[trigger] ws[j].0).len() <= ws[i].0.len() + 1 && exists|c: int|
            0 <= c < ws[j].0.len() && c <= ws[i].0.len() && ws[j].0[c] != (ws[i].0 + " "@)[c] by {
        reveal_strlit(" ");
        let m = ws[i].0 + " "@;
        if ws[j].0[1] != m[1] {
            assert(ws[j].0[1] != m[1]);
        } else if ws[j].0[2] != m[2] {
            assert(ws[j].0[2] != m[2]);
        } else if ws[j].0[3] != m[3] {
            assert(ws[j].0[3] != m[3]);
        } else {
            assert(ws[j].0[4] != m[4]);
        }
    }
    lemma_binop_words(ws, i);
    lemma_binop_read(d.results[0], ws[i].0, d.args[0], d.args[1], ws, i);
    assert(data_text(d) == binop_text(d.results[0], ws[i].0, d.args[0], d.args[1]));
    assert(seq![d.args[0], d.args[1]] =~= d.args);
    assert(seq![d.results[0]] =~= d.results);
}

/// A float arithmetic operation, as the printer writes it, reads back as the
/// same operation on the same operands.
pub proof fn lemma_float_text_read_back(d: InstDataView)
    requires
        d.opcode is Fadd || d.opcode is Fsub || d.opcode is Fmul || d.opcode is Fdiv,
        d.results.len() == 1,
        d.args.len() == 2,
    ensures
        binary_at(data_text(d), 0, float_words()) == Some(
            (inst_view(d.opcode, d.args, d.results, None, None, None), data_text(d).len() as usize),
        ),
{
    reveal_strlit("fadd");
    reveal_strlit("fsub");
    reveal_strlit("fmul");
    reveal_strlit("fdiv");
    let ws = float_words();
    let i: int = match d.opcode {
        Opcode::Fadd => 0,
        Opcode::Fsub => 1,
        Opcode::Fmul => 2,
        _ => 3,
    };
    assert(ws[i].1 == d.opcode);
    assert(binary_mnemonic(d.opcode) == Some(ws[i].0));
    assert forall|j: int|
        0 <= j < i implies (#[trigger] ws[j].0).len() <= ws[i].0.len() + 1 && exists|c: int|
            0 <= c < ws[j].0.len() && c <= ws[i].0.len() && ws[j].0[c] != (ws[i].0 + " "@)[c] by {
        reveal_strlit(" ");
        let m = ws[i].0 + " "@;
        if ws[j].0[1] != m[1] {
            assert(ws[j].0[1] != m[1]);
        } else if ws[j].0[2] != m[2] {
            assert(ws[j].0[2] != m[2]);
        } else if ws[j].0[3] != m[3] {
            assert(ws[j].0[3] != m[3]);
        } else {
            assert(ws[j].0[4] != m[4]);
        }
    }
    lemma_binop_words(ws, i);
    lemma_binop_read(d.results[0], ws[i].0, d.args[0], d.args[1], ws, i);
    assert(data_text(d) == binop_text(d.results[0], ws[i].0, d.args[0], d.args[1]));
    assert(seq![d.args[0], d.args[1]] =~= d.args);
    assert(seq![d.results[0]] =~= d.results);
}

/// A bitwise operation, as the printer writes it, reads back as the
/// same operation on the same operands.
pub proof fn lemma_bitwise_text_read_back(d: InstDataView)
    requires
        d.opcode is Iand || d.opcode is Ior || d.opcode is Ixor,
        d.results.len() == 1,
        d.args.len() == 2,
    ensures
        binary_at(data_text(d), 0, bitwise_words()) == Some(
            (inst_view(d.opcode, d.args, d.results, None, None, None), data_text(d).len() as usize),
        ),
{
    reveal_strlit("iand");
    reveal_strlit("ior");
    reveal_strlit("ixor");
    let ws = bitwise_words();
    let i: int = match d.opcode {
        Opcode::Iand => 0,
        Opcode::Ior => 1,
        _ => 2,
    };
    assert(ws[i].1 == d.opcode);
    assert(binary_mnemonic(d.opcode) == Some(ws[i].0));
    assert forall|j: int|
        0 <= j < i implies (#[trigger] ws[j].0).len() <= ws[i].0.len() + 1 && exists|c: int|
            0 <= c < ws[j].0.len() && c <= ws[i].0.len() && ws[j].0[c] != (ws[i].0 + " "@)[c] by {
        reveal_strlit(" ");
        let m = ws[i].0 + " "@;
        if ws[j].0[1] != m[1] {
            assert(ws[j].0[1] != m[1]);
        } else if ws[j].0[2] != m[2] {
            assert(ws[j].0[2] != m[2]);
        } else if ws[j].0[3] != m[3] {
            assert(ws[j].0[3] != m[3]);
        } else {
            assert(ws[j].0[4] != m[4]);
        }
    }
    lemma_binop_words(ws, i);
    lemma_binop_read(d.results[0], ws[i].0, d.args[0], d.args[1], ws, i);
    assert(data_text(d) == binop_text(d.results[0], ws[i].0, d.args[0], d.args[1]));
    assert(seq![d.args[0], d.args[1]] =~= d.args);
    assert(seq![d.results[0]] =~= d.results);
}

/// A shift, as the printer writes it, reads back as the
/// same operation on the same operands.
pub proof fn lemma_shift_text_read_back(d: InstDataView)
    requires
        d.opcode is Ishl || d.opcode is Ishr || d.opcode is Iashr,
        d.results.len() == 1,
        d.args.len() == 2,
    ensures
        binary_at(data_text(d), 0, shift_words()) == Some(
            (inst_view(d.opcode, d.args, d.results, None, None, None), data_text(d).len() as usize),
        ),
{
    reveal_strlit("ishl");
    reveal_strlit("ishr");
    reveal_strlit("iashr");
    let ws = shift_words();
    let i: int = match d.opcode {
        Opcode::Ishl => 0,
        Opcode::Ishr => 1,
        _ => 2,
    };
    assert(ws[i].1 == d.opcode);
    assert(binary_mnemonic(d.opcode) == Some(ws[i].0));
    assert forall|j: int|
        0 <= j < i implies (#[trigger] ws[j].0).len() <= ws[i].0.len() + 1 && exists|c: int|
            0 <= c < ws[j].0.len() && c <= ws[i].0.len() && ws[j].0[c] != (ws[i].0 + " "@)[c] by {
        reveal_strlit(" ");
        let m = ws[i].0 + " "@;
        if ws[j].0[1] != m[1] {
            assert(ws[j].0[1] != m[1]);
        } else if ws[j].0[2] != m[2] {
            assert(ws[j].0[2] != m[2]);
        } else if ws[j].0[3] != m[3] {
            assert(ws[j].0[3] != m[3]);
        } else {
            assert(ws[j].0[4] != m[4]);
        }
    }
    lemma_binop_words(ws, i);
    lemma_binop_read(d.results[0], ws[i].0, d.args[0], d.args[1], ws, i);
    assert(data_text(d) == binop_text(d.results[0], ws[i].0, d.args[0], d.args[1]));
    assert(seq![d.args[0], d.args[1]] =~= d.args);
    assert(seq![d.results[0]] =~= d.results);
}

/// The end of a text, as a position.
pub open spec fn text_end(s: Seq<char>) -> usize {
    s.len() as usize
}

/// The condition mnemonics are lower-case letters.
proof fn lemma_cc_letters(c: IntCC, f: FloatCC)
    ensures
        2 <= c.spec_mnemonic().len() <= 3,
        forall|k: int| 0 <= k < c.spec_mnemonic().len() ==> 'a' <= #[trigger] c.spec_mnemonic()[k] <= 'z',
        2 <= f.spec_mnemonic().len() <= 3,
        forall|k: int| 0 <= k < f.spec_mnemonic().len() ==> 'a' <= #[trigger] f.spec_mnemonic()[k] <= 'z',
{
    reveal_strlit("ord");
    reveal_strlit("uno");
    reveal_strlit("eq");
    reveal_strlit("ne");
    reveal_strlit("one");
    reveal_strlit("ueq");
    reveal_strlit("lt");
    reveal_strlit("le");
    reveal_strlit("gt");
    reveal_strlit("ge");
    reveal_strlit("ult");
    reveal_strlit("ule");
    reveal_strlit("ugt");
    reveal_strlit("uge");
}

/// `v<r> = <w> <m> v<a>, v<b>`: the parts a reader of a comparison goes
/// through, with `w` a word of lower-case letters and `m` the condition.
#[verifier::spinoff_prover]
proof fn lemma_cond_binop_parts(r: Value, w: Seq<char>, m: Seq<char>, a: Value, b: Value) -> (p: (usize, usize, usize))
    requires
        1 <= w.len() <= 8,
        1 <= m.len() <= 8,
        forall|k: int| 0 <= k < w.len() ==> 'a' <= #[trigger] w[k] <= 'z',
        forall|k: int| 0 <= k < m.len() ==> 'a' <= #[trigger] m[k] <= 'z',
    ensures
        ({
            let s = binop_text(r, w + " "@ + m, a, b);
            &&& assign_u(s, 0) == Some((r, p.0))
            &&& tok_u(s, p.0, w) == Some(p.1)
            &&& p.1 + m.len() + 1 == p.2
            &&& s.subrange(p.1 as int, p.1 + m.len()) == m
            &&& s[p.1 + m.len()] == ' '
            &&& blank_end(s, p.1 + m.len()) == p.2
            &&& two_values_u(s, p.2) == Some(((a, b), text_end(s)))
        }),
{
    reveal_strlit(" = ");
    reveal_strlit(" ");
    reveal_strlit(", ");
    let op = w + " "@ + m;
    let s = binop_text(r, op, a, b);
    let vr = value_name(r.0 as nat);
    let va = value_name(a.0 as nat);
    let vb = value_name(b.0 as nat);
    lemma_dec_len_u32(r.0);
    lemma_dec_len_u32(a.0);
    lemma_dec_len_u32(b.0);
    let x = vr.len() as int;
    let lw = w.len() as int;
    let lm = m.len() as int;
    let lo = op.len() as int;
    let la = va.len() as int;
    let y = x + 4 + lo;
    let p1 = vr + " = "@;
    let p2 = p1 + op;
    let p3 = p2 + " "@;
    let p4 = p3 + va;
    let p5 = p4 + ", "@;
    assert(s == p5 + vb);
    assert(s.len() <= 80);
    assert(p1[x] == ' ' && p1[x + 1] == '=' && p1[x + 2] == ' ');
    assert(op[lw] == ' ' && op[lw + 1] == m[0]);
    assert(p2[x + 3 + lw] == ' ' && p2[x + 4 + lw] == m[0]);
    assert(p3[x + 3 + lo] == ' ');
    assert(p4[y] == 'v');
    assert(p5[y + la] == ',' && p5[y + la + 1] == ' ');
    assert(s[y + la + 2] == 'v');
    assert(s.subrange(0, x) =~= vr);
    assert(s.subrange(x + 3, x + 3 + lw) =~= w);
    assert(s.subrange(x + 4 + lw, x + 4 + lw + lm) =~= m);
    assert(s.subrange(y, y + la) =~= va);
    assert(s.subrange(y + la + 2, s.len() as int) =~= vb);
    assert(s[x + 3] == w[0]);
    lemma_value_name_at(s, 0, r.0);
    lemma_blank_one(s, x);
    lemma_blank_one(s, x + 2);
    assert(assign_at(s, 0) == Some((r, (x + 3) as usize)));
    lemma_blank_one(s, x + 3 + lw);
    assert(tok_at(s, x + 3, w) == Some((x + 4 + lw) as usize));
    lemma_blank_one(s, x + 3 + lo);
    lemma_value_name_at(s, y, a.0);
    lemma_blank_stop(s, y + la);
    lemma_blank_one(s, y + la + 1);
    lemma_value_name_at(s, y + la + 2, b.0);
    lemma_blank_stop(s, s.len() as int);
    assert(two_values_at(s, y) == Some(((a, b), s.len() as usize)));
    ((x + 3) as usize, (x + 4 + lw) as usize, y as usize)
}

/// An integer condition code's mnemonic at `p`, followed by a space and
/// a value, reads as that condition code.
proof fn lemma_int_cc_at(s: Seq<char>, pu: usize, c: IntCC)
    requires
        pu <= s.len(),
        pu + c.spec_mnemonic().len() + 1 < s.len(),
        s.subrange(pu as int, pu + c.spec_mnemonic().len()) == c.spec_mnemonic(),
        s[pu + c.spec_mnemonic().len()] == ' ',
        s[pu + c.spec_mnemonic().len() + 1] == 'v',
    ensures
        word_choice_u(s, pu, int_cc_words()) == Some((c, (pu + c.spec_mnemonic().len() + 1) as usize)),
{
    let p = pu as int;
    reveal_with_fuel(word_choice_at, 11);
    reveal_strlit("eq");
    reveal_strlit("ne");
    reveal_strlit("slt");
    reveal_strlit("sge");
    reveal_strlit("sgt");
    reveal_strlit("sle");
    reveal_strlit("ult");
    reveal_strlit("uge");
    reveal_strlit("ugt");
    reveal_strlit("ule");
    let m = c.spec_mnemonic();
    let sub = s.subrange(p, p + m.len());
    assert(s[p] == sub[0] && sub[0] == m[0]);
    assert(s[p + 1] == sub[1] && sub[1] == m[1]);
    if m.len() == 3 {
        assert(s[p + 2] == sub[2] && sub[2] == m[2]);
    }
    let ws = int_cc_words();
    assert forall|i: int| 0 <= i < ws.len() && ws[i].1 == c implies #[trigger] ws[i].0 =~= m by {}
    assert(has_at(s, p, m)) by {
        assert(s.subrange(p, p + m.len()) =~= m);
    }
    assert forall|i: int| 0 <= i < ws.len() && ws[i].1 != c implies !has_at(s, p, #[trigger] ws[i].0) by {
        if has_at(s, p, ws[i].0) {
            let w = ws[i].0;
            assert(s.subrange(p, p + w.len())[0] == w[0]);
            assert(s.subrange(p, p + w.len())[1] == w[1]);
            if w.len() == 3 {
                assert(s.subrange(p, p + w.len())[2] == w[2]);
            }
        }
    }
    lemma_blank_one(s, p + m.len());
}

/// A float condition code's mnemonic at `p`, followed by a space and
/// a value, reads as that condition code.
proof fn lemma_float_cc_at(s: Seq<char>, pu: usize, c: FloatCC)
    requires
        pu <= s.len(),
        pu + c.spec_mnemonic().len() + 1 < s.len(),
        s.subrange(pu as int, pu + c.spec_mnemonic().len()) == c.spec_mnemonic(),
        s[pu + c.spec_mnemonic().len()] == ' ',
        s[pu + c.spec_mnemonic().len() + 1] == 'v',
    ensures
        word_choice_u(s, pu, float_cc_words()) == Some((c, (pu + c.spec_mnemonic().len() + 1) as usize)),
{
    let p = pu as int;
    reveal_with_fuel(word_choice_at, 15);
    reveal_strlit("ord");
    reveal_strlit("uno");
    reveal_strlit("eq");
    reveal_strlit("ne");
    reveal_strlit("one");
    reveal_strlit("ueq");
    reveal_strlit("lt");
    reveal_strlit("le");
    reveal_strlit("gt");
    reveal_strlit("ge");
    reveal_strlit("ult");
    reveal_strlit("ule");
    reveal_strlit("ugt");
    reveal_strlit("uge");
    let m = c.spec_mnemonic();
    let sub = s.subrange(p, p + m.len());
    assert(s[p] == sub[0] && sub[0] == m[0]);
    assert(s[p + 1] == sub[1] && sub[1] == m[1]);
    if m.len() == 3 {
        assert(s[p + 2] == sub[2] && sub[2] == m[2]);
    }
    let ws = float_cc_words();
    assert forall|i: int| 0 <= i < ws.len() && ws[i].1 == c implies #[trigger] ws[i].0 =~= m by {}
    assert(has_at(s, p, m)) by {
        assert(s.subrange(p, p + m.len()) =~= m);
    }
    assert forall|i: int| 0 <= i < ws.len() && ws[i].1 != c implies !has_at(s, p, #[trigger] ws[i].0) by {
        if has_at(s, p, ws[i].0) {
            let w = ws[i].0;
            assert(s.subrange(p, p + w.len())[0] == w[0]);
            assert(s.subrange(p, p + w.len())[1] == w[1]);
            if w.len() == 3 {
                assert(s.subrange(p, p + w.len())[2] == w[2]);
            }
        }
    }
    lemma_blank_one(s, p + m.len());
}

/// An integer comparison, as the printer writes it, reads back as the same
/// comparison: the same condition on the same operands.
pub proof fn lemma_int_compare_text_read_back(d: InstDataView, c: IntCC)
    requires
        d.opcode == (Opcode::Icmp { cond: c }),
        d.results.len() == 1,
        d.args.len() == 2,
    ensures
        int_compare_at(data_text(d), 0) == Some(
            (
                inst_view(d.opcode, d.args, d.results, None, None, Some(Immediate::IntCondCode(c))),
                text_end(data_text(d)),
            ),
        ),
{
    reveal_strlit("icmp");
    reveal_strlit("icmp ");
    reveal_strlit(" ");
    lemma_cc_letters(c, FloatCC::Equal);
    let w = "icmp"@;
    let m = c.spec_mnemonic();
    assert("icmp "@ + m =~= w + " "@ + m);
    let s = data_text(d);
    assert(s == binop_text(d.results[0], w + " "@ + m, d.args[0], d.args[1]));
    let p = lemma_cond_binop_parts(d.results[0], w, m, d.args[0], d.args[1]);
    lemma_int_cc_at(s, p.1, c);
    assert(seq![d.args[0], d.args[1]] =~= d.args);
    assert(seq![d.results[0]] =~= d.results);
}

/// A float comparison, as the printer writes it, reads back as the same
/// comparison: the same condition on the same operands.
pub proof fn lemma_float_compare_text_read_back(d: InstDataView, c: FloatCC)
    requires
        d.opcode == (Opcode::Fcmp { cond: c }),
        d.results.len() == 1,
        d.args.len() == 2,
    ensures
        float_compare_at(data_text(d), 0) == Some(
            (
                inst_view(d.opcode, d.args, d.results, None, None, Some(Immediate::FloatCondCode(c))),
                text_end(data_text(d)),
            ),
        ),
{
    reveal_strlit("fcmp");
    reveal_strlit("fcmp ");
    reveal_strlit(" ");
    lemma_cc_letters(IntCC::Equal, c);
    let w = "fcmp"@;
    let m = c.spec_mnemonic();
    assert("fcmp "@ + m =~= w + " "@ + m);
    let s = data_text(d);
    assert(s == binop_text(d.results[0], w + " "@ + m, d.args[0], d.args[1]));
    let p = lemma_cond_binop_parts(d.results[0], w, m, d.args[0], d.args[1]);
    lemma_float_cc_at(s, p.1, c);
    assert(seq![d.args[0], d.args[1]] =~= d.args);
    assert(seq![d.results[0]] =~= d.results);
}

/// A branch, as the printer writes it, reads back as the same branch: the
/// same condition, the same true target and the same false target (here
/// for targets without arguments).
pub proof fn lemma_branch_text_read_back(d: InstDataView)
    requires
        d.opcode is Br,
        d.args.len() > 0,
        d.block_args matches Some(t) && t.len() == 2 && t[0].1.len() == 0 && t[1].1.len() == 0,
    ensures
        branch_at(data_text(d), 0) == Some(
            (
                inst_view(
                    Opcode::Br,
                    seq![d.args[0]],
                    seq![],
                    Some(seq![(d.block_args.unwrap()[0].0, seq![]), (d.block_args.unwrap()[1].0, seq![])]),
                    None,
                    None,
                ),
                data_text(d).len() as usize,
            ),
        ),
{
    reveal_strlit("brif ");
    reveal_strlit(", ");
    let t = d.block_args.unwrap();
    let c = d.args[0];
    reveal(brif_text);
    assert(data_text(d) =~= brif_text(c, t[0].0, t[1].0));
    lemma_brif_text_read(c, t[0].0, t[1].0);
}

/// A branch, as the printer writes it, reads back as the same branch: the
/// same condition, the same true target with its arguments, and the same
/// false target with its arguments (for a text that fits in memory).
pub proof fn lemma_branch_text_read_back_args(d: InstDataView)
    requires
        d.opcode is Br,
        d.args.len() > 0,
        d.block_args matches Some(t) && t.len() == 2,
        data_text(d).len() <= usize::MAX,
    ensures
        branch_at(data_text(d), 0) == Some(
            (
                inst_view(
                    Opcode::Br,
                    seq![d.args[0]] + d.block_args.unwrap()[0].1 + d.block_args.unwrap()[1].1,
                    seq![],
                    d.block_args,
                    None,
                    None,
                ),
                data_text(d).len() as usize,
            ),
        ),
{
    reveal_strlit("brif ");
    reveal_strlit(", ");
    let t = d.block_args.unwrap();
    let c = d.args[0];
    reveal(brif_args_text);
    assert(data_text(d) =~= brif_args_text(c, t[0].0, t[0].1, t[1].0, t[1].1));
    lemma_brif_args_read(c, t[0].0, t[0].1, t[1].0, t[1].1);
    assert(seq![(t[0].0, t[0].1), (t[1].0, t[1].1)] =~= t);
}

/// `brif <c>, <t0>, <t1>`, with targets without arguments.
#[verifier::opaque]
spec fn brif_text(c: Value, t0: Block, t1: Block) -> Seq<char> {
    "brif "@ + value_name(c.0 as nat) + ", "@ + block_name(t0.0 as nat) + ", "@ + block_name(t1.0 as nat)
}

/// Blanks end at once at a character that starts none.
proof fn lemma_blank_stop(s: Seq<char>, x: int)
    requires
        0 <= x,
        x < s.len() ==> !is_space(s[x]) && s[x] != ';' && s[x] != '\\',
    ensures
        blank_end(s, x) == x,
{
}

/// One space, then a character that starts no blank.
proof fn lemma_blank_one(s: Seq<char>, x: int)
    requires
        0 <= x,
        x + 1 < s.len(),
        s[x] == ' ',
        !is_space(s[x + 1]) && s[x + 1] != ';' && s[x + 1] != '\\',
    ensures
        blank_end(s, x) == x + 1,
{
    lemma_blank_stop(s, x + 1);
}

/// The characters of `brif <c>, <t0>, <t1>` where its parts meet.
proof fn lemma_brif_chars(c: Value, t0: Block, t1: Block)
    ensures
        ({
            let s = brif_text(c, t0, t1);
            let a = value_name(c.0 as nat).len() as int;
            let l0 = block_name(t0.0 as nat).len() as int;
            let l1 = block_name(t1.0 as nat).len() as int;
            &&& s.len() == 9 + a + l0 + l1
            &&& s[4] == ' ' && s[5] == 'v'
            &&& s[5 + a] == ',' && s[6 + a] == ' ' && s[7 + a] == 'b'
            &&& s[7 + a + l0] == ',' && s[8 + a + l0] == ' ' && s[9 + a + l0] == 'b'
            &&& s.subrange(0, 4) == "brif"@
            &&& s.subrange(5, 5 + a) == value_name(c.0 as nat)
            &&& s.subrange(7 + a, 7 + a + l0) == block_name(t0.0 as nat)
            &&& s.subrange(9 + a + l0, 9 + a + l0 + l1) == block_name(t1.0 as nat)
        }),
{
    reveal_strlit("brif ");
    reveal_strlit(", ");
    reveal_strlit("brif");
    let vn = value_name(c.0 as nat);
    let b0 = block_name(t0.0 as nat);
    let b1 = block_name(t1.0 as nat);
    let p1 = "brif "@ + vn;
    let p2 = p1 + ", "@;
    let p3 = p2 + b0;
    let p4 = p3 + ", "@;
    let s = p4 + b1;
    reveal(brif_text);
    assert(s == brif_text(c, t0, t1));
    let a = vn.len() as int;
    let l0 = b0.len() as int;
    assert(p1[4] == ' ' && p1[5] == 'v');
    assert(p2[5 + a] == ',' && p2[6 + a] == ' ');
    assert(p3[7 + a] == 'b');
    assert(p4[7 + a + l0] == ',' && p4[8 + a + l0] == ' ');
    assert(s[9 + a + l0] == 'b');
    assert(s.subrange(0, 4) =~= "brif"@);
    assert(s.subrange(5, 5 + a) =~= vn);
    assert(s.subrange(7 + a, 7 + a + l0) =~= b0);
    assert(s.subrange(9 + a + l0, s.len() as int) =~= b1);
}

/// `brif <c>, <t0>, <t1>` reads as that branch.
#[verifier::spinoff_prover]
#[verifier::rlimit(100)]
proof fn lemma_brif_text_read(c: Value, t0: Block, t1: Block)
    ensures
        branch_at(brif_text(c, t0, t1), 0) == Some(
            (
                inst_view(Opcode::Br, seq![c], seq![], Some(seq![(t0, seq![]), (t1, seq![])]), None, None),
                brif_text(c, t0, t1).len() as usize,
            ),
        ),
{
    reveal_strlit("brif");
    let s = brif_text(c, t0, t1);
    let a = value_name(c.0 as nat).len() as int;
    let l0 = block_name(t0.0 as nat).len() as int;
    lemma_brif_chars(c, t0, t1);
    lemma_dec_len_u32(c.0);
    lemma_dec_len_u32(t0.0);
    lemma_dec_len_u32(t1.0);
    assert(s.len() <= 50);
    let e = s.len() as int;
    lemma_blank_one(s, 4);
    assert(tok_at(s, 0, "brif"@) == Some(5usize));
    lemma_value_name_at(s, 5, c.0);
    lemma_blank_stop(s, 5 + a);
    assert(value_at(s, 5) == Some((c, (5 + a) as usize)));
    lemma_blank_one(s, 6 + a);
    assert(char_at(s, 5 + a, ',') == Some((7 + a) as usize));
    lemma_block_name_at(s, 7 + a, t0.0);
    lemma_blank_stop(s, 7 + a + l0);
    assert(block_index_at(s, 7 + a) == Some((t0.0, (7 + a + l0) as usize)));
    assert(opt_paren_at(s, 7 + a + l0) == Some((Seq::<Value>::empty(), (7 + a + l0) as usize)));
    lemma_blank_one(s, 8 + a + l0);
    assert(char_at(s, 7 + a + l0, ',') == Some((9 + a + l0) as usize));
    lemma_block_name_at(s, 9 + a + l0, t1.0);
    lemma_blank_stop(s, e);
    assert(block_index_at(s, 9 + a + l0) == Some((t1.0, e as usize)));
    assert(opt_paren_at(s, e) == Some((Seq::<Value>::empty(), e as usize)));
    assert(seq![c] + Seq::<Value>::empty() + Seq::<Value>::empty() =~= seq![c]);
}

/// The words of the float condition codes.
pub open spec fn float_cc_words() -> Seq<(Seq<char>, FloatCC)> {
    seq![
        ("ord"@, FloatCC::Ordered),
        ("uno"@, FloatCC::Unordered),
        ("eq"@, FloatCC::Equal),
        ("ne"@, FloatCC::NotEqual),
        ("one"@, FloatCC::OrderedNotEqual),
        ("ueq"@, FloatCC::UnorderedOrEqual),
        ("lt"@, FloatCC::LessThan),
        ("le"@, FloatCC::LessThanOrEqual),
        ("gt"@, FloatCC::GreaterThan),
        ("ge"@, FloatCC::GreaterThanOrEqual),
        ("ult"@, FloatCC::UnorderedOrLessThan),
        ("ule"@, FloatCC::UnorderedOrLessThanOrEqual),
        ("ugt"@, FloatCC::UnorderedOrGreaterThan),
        ("uge"@, FloatCC::UnorderedOrGreaterThanOrEqual),
    ]
}

/// The words of the standard trap codes.
pub open spec fn trap_words() -> Seq<(Seq<char>, TrapCode)> {
    seq![
        ("stk_ovf"@, TrapCode::STACK_OVERFLOW),
        ("heap_oob"@, TrapCode::HEAP_OUT_OF_BOUNDS),
        ("int_ovf"@, TrapCode::INTEGER_OVERFLOW),
        ("int_divz"@, TrapCode::INTEGER_DIVISION_BY_ZERO),
        ("bad_toint"@, TrapCode::BAD_CONVERSION_TO_INTEGER),
    ]
}

/// A trap code at `p`: a standard name, or `user` and a number, kept to
/// its low eight bits.
pub open spec fn trap_code_at(s: Seq<char>, p: int) -> Option<(TrapCode, usize)> {
    match word_choice_at(s, p, trap_words(), 0) {
        Some(r) => Some(r),
        None => match tok_at(s, p, "user"@) {
            Some(q) => match integer_at(s, q as int) {
                Some((n, q2)) => Some((TrapCode::User(n as u8), q2)),
                None => None,
            },
            None => None,
        },
    }
}

/// `tok_at` at a position given as a `usize`.
pub open spec fn tok_u(s: Seq<char>, p: usize, w: Seq<char>) -> Option<usize> {
    tok_at(s, p as int, w)
}

/// `assign_at` at a position given as a `usize`.
pub open spec fn assign_u(s: Seq<char>, p: usize) -> Option<(Value, usize)> {
    assign_at(s, p as int)
}

/// `two_values_at` at a position given as a `usize`.
pub open spec fn two_values_u(s: Seq<char>, p: usize) -> Option<((Value, Value), usize)> {
    two_values_at(s, p as int)
}

/// `word_choice_at` over all the words, at a position given as a `usize`.
pub open spec fn word_choice_u<T>(s: Seq<char>, p: usize, ws: Seq<(Seq<char>, T)>) -> Option<(T, usize)> {
    word_choice_at(s, p as int, ws, 0)
}

/// `v<r> = icmp <cond> v<a>, v<b>` at `p`.
pub open spec fn int_compare_at(s: Seq<char>, p: usize) -> Option<(InstDataView, usize)> {
    match assign_u(s, p) {
        Some((res, q)) => match tok_u(s, q, "icmp"@) {
            Some(q2) => match word_choice_u(s, q2, int_cc_words()) {
                Some((c, q3)) => match two_values_u(s, q3) {
                    Some(((a, b), q4)) => Some(
                        (
                            inst_view(
                                Opcode::Icmp { cond: c },
                                seq![a, b],
                                seq![res],
                                None,
                                None,
                                Some(Immediate::IntCondCode(c)),
                            ),
                            q4,
                        ),
                    ),
                    None => None,
                },
                None => None,
            },
            None => None,
        },
        None => None,
    }
}

/// `v<r> = fcmp <cond> v<a>, v<b>` at `p`.
pub open spec fn float_compare_at(s: Seq<char>, p: usize) -> Option<(InstDataView, usize)> {
    match assign_u(s, p) {
        Some((res, q)) => match tok_u(s, q, "fcmp"@) {
            Some(q2) => match word_choice_u(s, q2, float_cc_words()) {
                Some((c, q3)) => match two_values_u(s, q3) {
                    Some(((a, b), q4)) => Some(
                        (
                            inst_view(
                                Opcode::Fcmp { cond: c },
                                seq![a, b],
                                seq![res],
                                None,
                                None,
                                Some(Immediate::FloatCondCode(c)),
                            ),
                            q4,
                        ),
                    ),
                    None => None,
                },
                None => None,
            },
            None => None,
        },
        None => None,
    }
}

/// `v<r> = iconst <n>` at `p`.
pub open spec fn iconst_at(s: Seq<char>, p: int) -> Option<(InstDataView, usize)> {
    match assign_at(s, p) {
        Some((res, q)) => match tok_at(s, q as int, "iconst"@) {
            Some(q2) => match integer_at(s, q2 as int) {
                Some((v, q3)) => Some(
                    (inst_view(Opcode::Iconst, seq![], seq![res], None, None, Some(Immediate::I64(v))), q3),
                ),
                None => None,
            },
            None => None,
        },
        None => None,
    }
}

/// `v<r> = fconst` at `p`, not `iconst`: the value assigned, and where the
/// float literal starts.
pub open spec fn fconst_word_at(s: Seq<char>, p: int) -> Option<(Value, usize)> {
    match assign_at(s, p) {
        Some((res, q)) => if tok_at(s, q as int, "iconst"@) is Some {
            None
        } else {
            match tok_at(s, q as int, "fconst"@) {
                Some(q2) => Some((res, q2)),
                None => None,
            }
        },
        None => None,
    }
}

/// The float constant defining `res` that a literal's reading gives: the
/// constant with its bits, and where the reading ends; none without one.
pub open spec fn fconst_result(res: Value, lit: Option<(u32, usize)>) -> Option<(InstDataView, usize)> {
    match lit {
        Some((bits, e)) => Some(
            (inst_view(Opcode::Fconst, seq![], seq![res], None, None, Some(Immediate::F32Bits(bits))), e),
        ),
        None => None,
    }
}

/// Whether `d` is a float constant defining `res`.
pub open spec fn is_fconst_of(d: InstDataView, res: Value) -> bool {
    &&& d.opcode == Opcode::Fconst
    &&& d.args == Seq::<Value>::empty()
    &&& d.results == seq![res]
    &&& d.block_args is None
    &&& d.ty is None
    &&& d.imm matches Some(Immediate::F32Bits(_))
}

/// `v<r> = stackalloc <n>` at `p`, with a size that fits in a `u32`.
pub open spec fn stackalloc_at(s: Seq<char>, p: int) -> Option<(InstDataView, usize)> {
    match assign_at(s, p) {
        Some((res, q)) => match tok_at(s, q as int, "stackalloc"@) {
            Some(q2) => match integer_at(s, q2 as int) {
                Some((v, q3)) => if 0 <= v <= u32::MAX {
                    Some(
                        (inst_view(Opcode::StackAlloc { size: v as u32 }, seq![], seq![res], None, None, None), q3),
                    )
                } else {
                    None
                },
                None => None,
            },
            None => None,
        },
        None => None,
    }
}

/// `jump block<n>` with optional arguments in parentheses at `p`.
pub open spec fn jump_at(s: Seq<char>, p: int) -> Option<(InstDataView, usize)> {
    match tok_at(s, p, "jump"@) {
        Some(q) => match block_index_at(s, q as int) {
            Some((t, q2)) => match opt_paren_at(s, q2 as int) {
                Some((args, q3)) => Some(
                    (inst_view(Opcode::Jump, args, seq![], Some(seq![(Block(t), args)]), None, None), q3),
                ),
                None => None,
            },
            None => None,
        },
        None => None,
    }
}

/// `brif v<c>, block<t>(..), block<f>(..)` at `p`, the argument lists
/// optional.
pub open spec fn branch_at(s: Seq<char>, p: int) -> Option<(InstDataView, usize)> {
    match tok_at(s, p, "brif"@) {
        Some(q) => match value_at(s, q as int) {
            Some((c, q2)) => match char_at(s, q2 as int, ',') {
                Some(q3) => match block_index_at(s, q3 as int) {
                    Some((tt, q4)) => match opt_paren_at(s, q4 as int) {
                        Some((at, q5)) => match char_at(s, q5 as int, ',') {
                            Some(q6) => match block_index_at(s, q6 as int) {
                                Some((tf, q7)) => match opt_paren_at(s, q7 as int) {
                                    Some((af, q8)) => Some(
                                        (
                                            inst_view(
                                                Opcode::Br,
                                                seq![c] + at + af,
                                                seq![],
                                                Some(seq![(Block(tt), at), (Block(tf), af)]),
                                                None,
                                                None,
                                            ),
                                            q8,
                                        ),
                                    ),
                                    None => None,
                                },
                                None => None,
                            },
                            None => None,
                        },
                        None => None,
                    },
                    None => None,
                },
                None => None,
            },
            None => None,
        },
        None => None,
    }
}

/// A function name `%name` at `q`: the name, and where the blanks after it
/// end.
pub open spec fn name_at(s: Seq<char>, q: int) -> Option<(Seq<char>, usize)> {
    if 0 <= q < s.len() && s[q] == '%' && name_end(s, q + 1) > q + 1 {
        Some((s.subrange(q + 1, name_end(s, q + 1)), blank_end(s, name_end(s, q + 1)) as usize))
    } else {
        None
    }
}

/// After `call` ended at `q`: the callee's name, the arguments in
/// parentheses, the results after `->` (none when there is no arrow), and
/// the position after them.
pub open spec fn call_rest_at(s: Seq<char>, q: int, results: Option<Seq<Value>>) -> Option<
    (Seq<char>, Seq<Value>, Seq<Value>, usize),
> {
    match name_at(s, q) {
        Some((name, q2)) => match paren_at(s, q2 as int) {
            Some((args, q3)) => match results {
                Some(res) => Some((name, args, res, q3)),
                None => {
                    let (res, q4) = opt_results_at(s, q3 as int);
                    Some((name, args, res, q4))
                },
            },
            None => None,
        },
        None => None,
    }
}

/// `call %name(v..) -> v..` at `p`: its parts.
pub open spec fn call_at(s: Seq<char>, p: int) -> Option<(Seq<char>, Seq<Value>, Seq<Value>, usize)> {
    match tok_at(s, p, "call"@) {
        Some(q) => call_rest_at(s, q as int, None),
        None => None,
    }
}

/// `v.., v.. = call %name(v..)` at `p`: its parts.
pub open spec fn assigned_call_at(s: Seq<char>, p: int) -> Option<(Seq<char>, Seq<Value>, Seq<Value>, usize)> {
    let (res, q) = value_list_at(s, p);
    if res.len() == 0 {
        None
    } else {
        match char_at(s, q as int, '=') {
            Some(q2) => match tok_at(s, q2 as int, "call"@) {
                Some(q3) => call_rest_at(s, q3 as int, Some(res)),
                None => None,
            },
            None => None,
        }
    }
}

/// Whether a parse result is the call with these parts, or none when there
/// are none.
pub open spec fn call_result(
    parts: Option<(Seq<char>, Seq<Value>, Seq<Value>, usize)>,
    r: Option<(InstDataView, usize)>,
) -> bool {
    match (parts, r) {
        (Some((name, args, res, q)), Some((d, q2))) => {
            &&& q2 == q
            &&& d.opcode matches Opcode::Call { callee } && callee@ == name
            &&& d.args == args
            &&& d.results == res
            &&& d.block_args is None
            &&& d.ty is None
            &&& d.imm is None
        },
        (None, None) => true,
        _ => false,
    }
}

/// `syscall <n>(v..) -> v..` at `p`; the number is kept to its low 32 bits.
pub open spec fn syscall_at(s: Seq<char>, p: int) -> Option<(InstDataView, usize)> {
    match tok_at(s, p, "syscall"@) {
        Some(q) => match integer_at(s, q as int) {
            Some((n, q2)) => match paren_at(s, q2 as int) {
                Some((args, q3)) => {
                    let (res, q4) = opt_results_at(s, q3 as int);
                    Some(
                        (
                            inst_view(Opcode::Syscall, args, res, None, None, Some(Immediate::I32(n as i32))),
                            q4,
                        ),
                    )
                },
                None => None,
            },
            None => None,
        },
        None => None,
    }
}

/// `v<r> = load.<type> v<a>` at `p`.
pub open spec fn load_at(s: Seq<char>, p: int) -> Option<(InstDataView, usize)> {
    match assign_at(s, p) {
        Some((res, q)) => if has_at(s, q as int, "load."@) {
            match type_at(s, q + "load."@.len()) {
                Some((ty, q2)) => match value_at(s, q2 as int) {
                    Some((a, q3)) => Some((inst_view(Opcode::Load, seq![a], seq![res], None, Some(ty), None), q3)),
                    None => None,
                },
                None => None,
            }
        } else {
            None
        },
        None => None,
    }
}

/// `store.<type> v<a>, v<v>` at `p`.
pub open spec fn store_at(s: Seq<char>, p: int) -> Option<(InstDataView, usize)> {
    if has_at(s, p, "store."@) {
        match type_at(s, p + "store."@.len()) {
            Some((ty, q)) => match two_values_at(s, q as int) {
                Some(((a, v), q2)) => Some((inst_view(Opcode::Store, seq![a, v], seq![], None, Some(ty), None), q2)),
                None => None,
            },
            None => None,
        }
    } else {
        None
    }
}

/// `return v..` at `p`.
pub open spec fn return_at(s: Seq<char>, p: int) -> Option<(InstDataView, usize)> {
    match tok_at(s, p, "return"@) {
        Some(q) => {
            let (vals, q2) = value_list_at(s, q as int);
            Some((inst_view(Opcode::Return, vals, seq![], None, None, None), q2))
        },
        None => None,
    }
}

/// `halt` at `p`.
pub open spec fn halt_at(s: Seq<char>, p: int) -> Option<(InstDataView, usize)> {
    match tok_at(s, p, "halt"@) {
        Some(q) => Some((inst_view(Opcode::Halt, seq![], seq![], None, None, None), q)),
        None => None,
    }
}

/// `trap <code>` at `p`.
pub open spec fn trap_at(s: Seq<char>, p: int) -> Option<(InstDataView, usize)> {
    match tok_at(s, p, "trap"@) {
        Some(q) => match trap_code_at(s, q as int) {
            Some((code, q2)) => Some(
                (inst_view(Opcode::Trap { code }, seq![], seq![], None, None, Some(Immediate::TrapCode(code))), q2),
            ),
            None => None,
        },
        None => None,
    }
}

/// `trapz v<c>, <code>` at `p`.
pub open spec fn trapz_at(s: Seq<char>, p: int) -> Option<(InstDataView, usize)> {
    match tok_at(s, p, "trapz"@) {
        Some(q) => match value_at(s, q as int) {
            Some((c, q2)) => match char_at(s, q2 as int, ',') {
                Some(q3) => match trap_code_at(s, q3 as int) {
                    Some((code, q4)) => Some(
                        (
                            inst_view(Opcode::Trapz { code }, seq![c], seq![], None, None, Some(Immediate::TrapCode(code))),
                            q4,
                        ),
                    ),
                    None => None,
                },
                None => None,
            },
            None => None,
        },
        None => None,
    }
}

/// `trapnz v<c>, <code>` at `p`.
pub open spec fn trapnz_at(s: Seq<char>, p: int) -> Option<(InstDataView, usize)> {
    match tok_at(s, p, "trapnz"@) {
        Some(q) => match value_at(s, q as int) {
            Some((c, q2)) => match char_at(s, q2 as int, ',') {
                Some(q3) => match trap_code_at(s, q3 as int) {
                    Some((code, q4)) => Some(
                        (
                            inst_view(Opcode::Trapnz { code }, seq![c], seq![], None, None, Some(Immediate::TrapCode(code))),
                            q4,
                        ),
                    ),
                    None => None,
                },
                None => None,
            },
            None => None,
        },
        None => None,
    }
}

/// What parsing an instruction at `p` gives: the forms are tried in a
/// fixed order, and the first that is there decides. A float constant
/// gives an `fconst` of its result, with the bits of the literal, when the
/// literal is read.
pub open spec fn instruction_result(s: Seq<char>, p: usize, r: Option<(InstDataView, usize)>) -> bool {
    let q = p as int;
    if store_at(s, q) is Some {
        r == store_at(s, q)
    } else if call_at(s, q) is Some {
        call_result(call_at(s, q), r)
    } else if assigned_call_at(s, q) is Some {
        call_result(assigned_call_at(s, q), r)
    } else if syscall_at(s, q) is Some {
        r == syscall_at(s, q)
    } else if branch_at(s, q) is Some {
        r == branch_at(s, q)
    } else if jump_at(s, q) is Some {
        r == jump_at(s, q)
    } else if return_at(s, q) is Some {
        r == return_at(s, q)
    } else if halt_at(s, q) is Some {
        r == halt_at(s, q)
    } else if trap_at(s, q) is Some {
        r == trap_at(s, q)
    } else if trapz_at(s, q) is Some {
        r == trapz_at(s, q)
    } else if trapnz_at(s, q) is Some {
        r == trapnz_at(s, q)
    } else if iconst_at(s, q) is Some {
        r == iconst_at(s, q)
    } else if fconst_word_at(s, q) is Some {
        &&& (r matches Some((d, _)) ==> is_fconst_of(d, fconst_word_at(s, q).unwrap().0))
        &&& (float_determined(s, fconst_word_at(s, q).unwrap().1 as int) ==> r == fconst_result(
            fconst_word_at(s, q).unwrap().0,
            float_result(s, fconst_word_at(s, q).unwrap().1 as int),
        ))
    } else if stackalloc_at(s, q) is Some {
        r == stackalloc_at(s, q)
    } else if load_at(s, q) is Some {
        r == load_at(s, q)
    } else if float_compare_at(s, p) is Some {
        r == float_compare_at(s, p)
    } else if int_compare_at(s, p) is Some {
        r == int_compare_at(s, p)
    } else if binary_at(s, q, float_words()) is Some {
        r == binary_at(s, q, float_words())
    } else if inot_at(s, q) is Some {
        r == inot_at(s, q)
    } else if binary_at(s, q, bitwise_words()) is Some {
        r == binary_at(s, q, bitwise_words())
    } else if binary_at(s, q, shift_words()) is Some {
        r == binary_at(s, q, shift_words())
    } else {
        r == binary_at(s, q, arith_words())
    }
}

/// Where no float constant starts, or one written in a form whose reading
/// is always accepted, what is read at `p` is determined: two
/// results that both meet `instruction_result` both read an instruction, or
/// both read none, and end at the same place.
pub proof fn lemma_instruction_determined(
    s: Seq<char>,
    p: usize,
    r1: Option<(InstDataView, usize)>,
    r2: Option<(InstDataView, usize)>,
)
    requires
        instruction_result(s, p, r1),
        instruction_result(s, p, r2),
        fconst_word_at(s, p as int) matches Some((_, q)) ==> float_determined(s, q as int),
    ensures
        r1 is Some <==> r2 is Some,
        r1 matches Some((_, a)) ==> r2 matches Some((_, b)) && a == b,
{
}

/// `v<n> =` at the start of an instruction that defines a value.
fn parse_assign(s: &Vec<char>, pos: usize) -> (r: Parsed<Value>)
    requires
        pos <= s@.len(),
    ensures
        r == assign_at(s@, pos as int),
        r matches Some((_, p)) ==> pos < p <= s@.len(),
{
    let (v, p) = parse_value(s, pos)?;
    let p2 = tok_char(s, p, '=')?;
    Some((v, p2))
}

/// `v<a>, v<b>`: two values separated by a comma.
fn parse_two_values(s: &Vec<char>, pos: usize) -> (r: Parsed<(Value, Value)>)
    requires
        pos <= s@.len(),
    ensures
        r == two_values_at(s@, pos as int),
        r matches Some((_, p)) ==> pos < p <= s@.len(),
{
    let (a, p) = parse_value(s, pos)?;
    let p2 = tok_char(s, p, ',')?;
    let (b, p3) = parse_value(s, p2)?;
    Some(((a, b), p3))
}

/// Zero or more values separated by commas. A trailing comma is left
/// unread.
pub fn parse_value_list(s: &Vec<char>, pos: usize) -> (r: (Vec<Value>, usize))
    requires
        pos <= s@.len(),
    ensures
        (r.0@, r.1) == value_list_at(s@, pos as int),
        pos <= r.1 <= s@.len(),
{
    let mut out: Vec<Value> = Vec::new();
    let first = parse_value(s, pos);
    let mut p = match first {
        Some((v, q)) => {
            out.push(v);
            q
        },
        None => {
            return (out, pos);
        },
    };
    proof {
        assert(out@ == seq![out@[0]]);
    }
    loop
        invariant
            pos <= p <= s@.len(),
            value_list_at(s@, pos as int) == (out@ + list_tail_at(s@, p as int).0, list_tail_at(
                s@,
                p as int,
            ).1),
        decreases s@.len() - p,
    {
        let after_comma = match tok_char(s, p, ',') {
            Some(q) => q,
            None => {
                proof {
                    assert(out@ + Seq::<Value>::empty() =~= out@);
                }
                return (out, p);
            },
        };
        match parse_value(s, after_comma) {
            Some((v, q)) => {
                let ghost before = out@;
                proof {
                    assert(list_tail_at(s@, p as int) == (seq![v] + list_tail_at(s@, q as int).0, list_tail_at(
                        s@,
                        q as int,
                    ).1));
                }
                out.push(v);
                proof {
                    assert(before + (seq![v] + list_tail_at(s@, q as int).0) =~= out@ + list_tail_at(
                        s@,
                        q as int,
                    ).0);
                }
                p = q;
            },
            None => {
                proof {
                    assert(out@ + Seq::<Value>::empty() =~= out@);
                }
                return (out, p);
            },
        }
    }
}

/// An optional parenthesized list of values; empty when there is none.
fn parse_opt_paren_values(s: &Vec<char>, pos: usize) -> (r: Parsed<Vec<Value>>)
    requires
        pos <= s@.len(),
    ensures
        viewed(r) == opt_paren_at(s@, pos as int),
        r matches Some((_, p)) ==> pos <= p <= s@.len(),
{
    match tok_char(s, pos, '(') {
        None => Some((Vec::new(), pos)),
        Some(p) => {
            let (vals, p2) = parse_value_list(s, p);
            match tok_char(s, p2, ')') {
                Some(p3) => Some((vals, p3)),
                None => None,
            }
        },
    }
}

/// A parenthesized list of values.
fn parse_paren_values(s: &Vec<char>, pos: usize) -> (r: Parsed<Vec<Value>>)
    requires
        pos <= s@.len(),
    ensures
        viewed(r) == paren_at(s@, pos as int),
        r matches Some((_, p)) ==> pos < p <= s@.len(),
{
    let p = tok_char(s, pos, '(')?;
    let (vals, p2) = parse_value_list(s, p);
    let p3 = tok_char(s, p2, ')')?;
    Some((vals, p3))
}

/// An optional `-> v1, v2, ...` list of results; empty when there is none.
fn parse_opt_results(s: &Vec<char>, pos: usize) -> (r: (Vec<Value>, usize))
    requires
        pos <= s@.len(),
    ensures
        (r.0@, r.1) == opt_results_at(s@, pos as int),
        pos <= r.1 <= s@.len(),
{
    match tok(s, pos, "->") {
        Some(p) => parse_value_list(s, p),
        None => (Vec::new(), pos),
    }
}

/// A binary operation `v<r> = <op> v<a>, v<b>` with one of the given
/// opcode words, tried in order.
fn parse_binary(s: &Vec<char>, pos: usize, words: &Vec<(&str, Opcode)>) -> (r: Parsed<InstData>)
    requires
        pos <= s@.len(),
    ensures
        viewed(r) == binary_at(s@, pos as int, words_view(words@)),
        r matches Some((_, p)) ==> pos < p <= s@.len(),
{
    let ghost ws = words_view(words@);
    let (result, p) = parse_assign(s, pos)?;
    let mut i: usize = 0;
    while i < words.len()
        invariant
            pos < p <= s@.len(),
            ws == words_view(words@),
            i <= words@.len(),
            binary_at(s@, pos as int, ws) == word_binary_at(s@, p as int, ws, result, i as int),
        decreases words@.len() - i,
    {
        if let Some(p2) = tok(s, p, words[i].0) {
            if let Some(((a, b), p3)) = parse_two_values(s, p2) {
                return Some((InstData::arithmetic(words[i].1.clone(), result, a, b), p3));
            }
            return None;
        }
        i = i + 1;
    }
    None
}

/// Parse an arithmetic instruction (iadd, isub, imul, imulh, idiv, irem)
pub fn parse_arithmetic(s: &Vec<char>, pos: usize) -> (r: Parsed<InstData>)
    requires
        pos <= s@.len(),
    ensures
        viewed(r) == binary_at(s@, pos as int, arith_words()),
        r matches Some((_, p)) ==> pos < p <= s@.len(),
{
    let words = vec![
        ("iadd", Opcode::Iadd),
        ("isub", Opcode::Isub),
        ("imulh", Opcode::Imulh),
        ("imul", Opcode::Imul),
        ("idiv", Opcode::Idiv),
        ("irem", Opcode::Irem),
    ];
    proof {
        assert(words_view(words@) =~= arith_words());
    }
    parse_binary(s, pos, &words)
}

/// Parse a floating point arithmetic instruction (fadd, fsub, fmul, fdiv)
pub fn parse_float_arithmetic(s: &Vec<char>, pos: usize) -> (r: Parsed<InstData>)
    requires
        pos <= s@.len(),
    ensures
        viewed(r) == binary_at(s@, pos as int, float_words()),
        r matches Some((_, p)) ==> pos < p <= s@.len(),
{
    let words = vec![
        ("fadd", Opcode::Fadd),
        ("fsub", Opcode::Fsub),
        ("fmul", Opcode::Fmul),
        ("fdiv", Opcode::Fdiv),
    ];
    proof {
        assert(words_view(words@) =~= float_words());
    }
    parse_binary(s, pos, &words)
}

/// Parse a bitwise instruction (iand, ior, ixor)
pub fn parse_bitwise(s: &Vec<char>, pos: usize) -> (r: Parsed<InstData>)
    requires
        pos <= s@.len(),
    ensures
        viewed(r) == binary_at(s@, pos as int, bitwise_words()),
        r matches Some((_, p)) ==> pos < p <= s@.len(),
{
    let words = vec![("iand", Opcode::Iand), ("ior", Opcode::Ior), ("ixor", Opcode::Ixor)];
    proof {
        assert(words_view(words@) =~= bitwise_words());
    }
    parse_binary(s, pos, &words)
}

/// Parse a shift instruction (ishl, ishr, iashr)
pub fn parse_shift(s: &Vec<char>, pos: usize) -> (r: Parsed<InstData>)
    requires
        pos <= s@.len(),
    ensures
        viewed(r) == binary_at(s@, pos as int, shift_words()),
        r matches Some((_, p)) ==> pos < p <= s@.len(),
{
    let words = vec![("ishl", Opcode::Ishl), ("ishr", Opcode::Ishr), ("iashr", Opcode::Iashr)];
    proof {
        assert(words_view(words@) =~= shift_words());
    }
    parse_binary(s, pos, &words)
}

/// Parse a bitwise unary instruction (inot)
pub fn parse_bitwise_unary(s: &Vec<char>, pos: usize) -> (r: Parsed<InstData>)
    requires
        pos <= s@.len(),
    ensures
        viewed(r) == inot_at(s@, pos as int),
        r matches Some((_, p)) ==> pos < p <= s@.len(),
{
    let (result, p) = parse_assign(s, pos)?;
    let p2 = tok(s, p, "inot")?;
    let (arg, p3) = parse_value(s, p2)?;
    Some((InstData::bitwise_unary(Opcode::Inot, result, arg), p3))
}

/// Parse an integer condition code
pub fn parse_int_cond_code(s: &Vec<char>, pos: usize) -> (r: Parsed<IntCC>)
    requires
        pos <= s@.len(),
    ensures
        r == word_choice_at(s@, pos as int, int_cc_words(), 0),
        r matches Some((_, p)) ==> pos <= p <= s@.len(),
{
    let codes = vec![
        ("eq", IntCC::Equal),
        ("ne", IntCC::NotEqual),
        ("slt", IntCC::SignedLessThan),
        ("sge", IntCC::SignedGreaterThanOrEqual),
        ("sgt", IntCC::SignedGreaterThan),
        ("sle", IntCC::SignedLessThanOrEqual),
        ("ult", IntCC::UnsignedLessThan),
        ("uge", IntCC::UnsignedGreaterThanOrEqual),
        ("ugt", IntCC::UnsignedGreaterThan),
        ("ule", IntCC::UnsignedLessThanOrEqual),
    ];
    proof {
        assert(words_view(codes@) =~= int_cc_words());
    }
    let mut i: usize = 0;
    while i < codes.len()
        invariant
            pos <= s@.len(),
            words_view(codes@) == int_cc_words(),
            i <= codes@.len(),
            word_choice_at(s@, pos as int, int_cc_words(), 0) == word_choice_at(s@, pos as int, int_cc_words(), i as int),
        decreases codes@.len() - i,
    {
        if let Some(p) = tok(s, pos, codes[i].0) {
            return Some((codes[i].1, p));
        }
        i = i + 1;
    }
    None
}

/// Parse a floating point condition code
pub fn parse_float_cond_code(s: &Vec<char>, pos: usize) -> (r: Parsed<FloatCC>)
    requires
        pos <= s@.len(),
    ensures
        r == word_choice_at(s@, pos as int, float_cc_words(), 0),
        r matches Some((_, p)) ==> pos <= p <= s@.len(),
{
    let codes = vec![
        ("ord", FloatCC::Ordered),
        ("uno", FloatCC::Unordered),
        ("eq", FloatCC::Equal),
        ("ne", FloatCC::NotEqual),
        ("one", FloatCC::OrderedNotEqual),
        ("ueq", FloatCC::UnorderedOrEqual),
        ("lt", FloatCC::LessThan),
        ("le", FloatCC::LessThanOrEqual),
        ("gt", FloatCC::GreaterThan),
        ("ge", FloatCC::GreaterThanOrEqual),
        ("ult", FloatCC::UnorderedOrLessThan),
        ("ule", FloatCC::UnorderedOrLessThanOrEqual),
        ("ugt", FloatCC::UnorderedOrGreaterThan),
        ("uge", FloatCC::UnorderedOrGreaterThanOrEqual),
    ];
    proof {
        assert(words_view(codes@) =~= float_cc_words());
    }
    let mut i: usize = 0;
    while i < codes.len()
        invariant
            pos <= s@.len(),
            words_view(codes@) == float_cc_words(),
            i <= codes@.len(),
            word_choice_at(s@, pos as int, float_cc_words(), 0) == word_choice_at(s@, pos as int, float_cc_words(), i as int),
        decreases codes@.len() - i,
    {
        if let Some(p) = tok(s, pos, codes[i].0) {
            return Some((codes[i].1, p));
        }
        i = i + 1;
    }
    None
}

/// Parse a trap code: a standard name, or `user` and a number
pub fn parse_trap_code(s: &Vec<char>, pos: usize) -> (r: Parsed<TrapCode>)
    requires
        pos <= s@.len(),
    ensures
        r == trap_code_at(s@, pos as int),
        r matches Some((_, p)) ==> pos <= p <= s@.len(),
{
    let codes = vec![
        ("stk_ovf", TrapCode::STACK_OVERFLOW),
        ("heap_oob", TrapCode::HEAP_OUT_OF_BOUNDS),
        ("int_ovf", TrapCode::INTEGER_OVERFLOW),
        ("int_divz", TrapCode::INTEGER_DIVISION_BY_ZERO),
        ("bad_toint", TrapCode::BAD_CONVERSION_TO_INTEGER),
    ];
    proof {
        assert(words_view(codes@) =~= trap_words());
    }
    let mut i: usize = 0;
    while i < codes.len()
        invariant
            pos <= s@.len(),
            words_view(codes@) == trap_words(),
            i <= codes@.len(),
            word_choice_at(s@, pos as int, trap_words(), 0) == word_choice_at(s@, pos as int, trap_words(), i as int),
        decreases codes@.len() - i,
    {
        if let Some(p) = tok(s, pos, codes[i].0) {
            return Some((codes[i].1, p));
        }
        i = i + 1;
    }
    let p = tok(s, pos, "user")?;
    let (n, p2) = parse_integer(s, p)?;
    Some((TrapCode::unwrap_user(truncate_u8(n)), p2))
}

/// The low eight bits of an integer.
fn truncate_u8(n: i64) -> (r: u8)
    ensures
        r == n as u8,
{
    #[verifier::truncate]
    (n as u8)
}

/// Parse a comparison instruction (icmp with condition code)
pub fn parse_comparison(s: &Vec<char>, pos: usize) -> (r: Parsed<InstData>)
    requires
        pos <= s@.len(),
    ensures
        viewed(r) == int_compare_at(s@, pos),
        r matches Some((_, p)) ==> pos < p <= s@.len(),
{
    let (result, p) = parse_assign(s, pos)?;
    let p2 = tok(s, p, "icmp")?;
    let (cond, p3) = parse_int_cond_code(s, p2)?;
    let ((a, b), p4) = parse_two_values(s, p3)?;
    Some((InstData::comparison(Opcode::Icmp { cond }, result, a, b), p4))
}

/// Parse a floating point comparison instruction (fcmp with condition code)
pub fn parse_fcmp(s: &Vec<char>, pos: usize) -> (r: Parsed<InstData>)
    requires
        pos <= s@.len(),
    ensures
        viewed(r) == float_compare_at(s@, pos),
        r matches Some((_, p)) ==> pos < p <= s@.len(),
{
    let (result, p) = parse_assign(s, pos)?;
    let p2 = tok(s, p, "fcmp")?;
    let (cond, p3) = parse_float_cond_code(s, p2)?;
    let ((a, b), p4) = parse_two_values(s, p3)?;
    Some((InstData::comparison(Opcode::Fcmp { cond }, result, a, b), p4))
}

/// Parse a constant instruction (iconst, fconst)
pub fn parse_const(s: &Vec<char>, pos: usize) -> (r: Parsed<InstData>)
    requires
        pos <= s@.len(),
    ensures
        iconst_at(s@, pos as int) is None && fconst_word_at(s@, pos as int) is None ==> r is None,
        fconst_word_at(s@, pos as int) matches Some((res, _)) ==> (r matches Some((d, _)) ==> is_fconst_of(d@, res)),
        fconst_word_at(s@, pos as int) matches Some((res, q)) ==> (float_determined(s@, q as int) ==> viewed(r)
            == fconst_result(res, float_result(s@, q as int))),
        iconst_at(s@, pos as int) is Some ==> viewed(r) == iconst_at(s@, pos as int),
        r matches Some((_, p)) ==> pos < p <= s@.len(),
{
    let (result, p) = parse_assign(s, pos)?;
    if let Some(p2) = tok(s, p, "iconst") {
        let (value, p3) = parse_integer(s, p2)?;
        return Some((InstData::constant(result, Immediate::I64(value)), p3));
    }
    let p2 = tok(s, p, "fconst")?;
    let (bits, p3) = parse_float(s, p2)?;
    Some((InstData::constant(result, Immediate::F32Bits(bits)), p3))
}

/// Parse a stack allocation instruction (stackalloc); the size must be a
/// number that fits in a `u32`
pub fn parse_stackalloc(s: &Vec<char>, pos: usize) -> (r: Parsed<InstData>)
    requires
        pos <= s@.len(),
    ensures
        viewed(r) == stackalloc_at(s@, pos as int),
        r matches Some((_, p)) ==> pos < p <= s@.len(),
{
    let (result, p) = parse_assign(s, pos)?;
    let p2 = tok(s, p, "stackalloc")?;
    let (size, p3) = parse_integer(s, p2)?;
    if size < 0 || size > 0xffff_ffff {
        return None;
    }
    Some((InstData::stackalloc(result, size as u32), p3))
}

/// Parse a jump instruction
pub fn parse_jump(s: &Vec<char>, pos: usize) -> (r: Parsed<InstData>)
    requires
        pos <= s@.len(),
    ensures
        viewed(r) == jump_at(s@, pos as int),
        r matches Some((_, p)) ==> pos < p <= s@.len(),
{
    let p = tok(s, pos, "jump")?;
    let (target, p2) = parse_block_index(s, p)?;
    let (args, p3) = parse_opt_paren_values(s, p2)?;
    Some((InstData::jump(Block(target), args), p3))
}

/// Parse a branch instruction (brif)
pub fn parse_branch(s: &Vec<char>, pos: usize) -> (r: Parsed<InstData>)
    requires
        pos <= s@.len(),
    ensures
        viewed(r) == branch_at(s@, pos as int),
        r matches Some((_, p)) ==> pos < p <= s@.len(),
{
    let p = tok(s, pos, "brif")?;
    let (condition, p2) = parse_value(s, p)?;
    let p3 = tok_char(s, p2, ',')?;
    let (target_true, p4) = parse_block_index(s, p3)?;
    let (args_true, p5) = parse_opt_paren_values(s, p4)?;
    let p6 = tok_char(s, p5, ',')?;
    let (target_false, p7) = parse_block_index(s, p6)?;
    let (args_false, p8) = parse_opt_paren_values(s, p7)?;
    Some((InstData::branch(condition, Block(target_true), args_true, Block(target_false), args_false), p8))
}

/// Parse a call instruction
pub fn parse_call(s: &Vec<char>, pos: usize) -> (r: Parsed<InstData>)
    requires
        pos <= s@.len(),
    ensures
        call_result(call_at(s@, pos as int), viewed(r)),
        r matches Some((_, p)) ==> pos < p <= s@.len(),
{
    let p = tok(s, pos, "call")?;
    let (callee, p2) = parse_function_name(s, p)?;
    let (args, p3) = parse_paren_values(s, p2)?;
    let (results, p4) = parse_opt_results(s, p3);
    Some((InstData::call(callee, args, results), p4))
}

/// Parse a call whose results are written first: `v1, v2 = call %f(v0)`.
pub fn parse_assigned_call(s: &Vec<char>, pos: usize) -> (r: Parsed<InstData>)
    requires
        pos <= s@.len(),
    ensures
        call_result(assigned_call_at(s@, pos as int), viewed(r)),
        r matches Some((_, p)) ==> pos < p <= s@.len(),
{
    let (results, p) = parse_value_list(s, pos);
    if results.len() == 0 {
        return None;
    }
    let p1 = tok_char(s, p, '=')?;
    let p2 = tok(s, p1, "call")?;
    let (callee, p3) = parse_function_name(s, p2)?;
    let (args, p4) = parse_paren_values(s, p3)?;
    Some((InstData::call(callee, args, results), p4))
}

/// Parse a syscall instruction
pub fn parse_syscall(s: &Vec<char>, pos: usize) -> (r: Parsed<InstData>)
    requires
        pos <= s@.len(),
    ensures
        viewed(r) == syscall_at(s@, pos as int),
        r matches Some((_, p)) ==> pos < p <= s@.len(),
{
    let p = tok(s, pos, "syscall")?;
    let (number, p2) = parse_integer(s, p)?;
    let (args, p3) = parse_paren_values(s, p2)?;
    let (results, p4) = parse_opt_results(s, p3);
    Some((InstData::syscall(truncate_i32(number), args, results), p4))
}

/// The low 32 bits of an integer, read as signed.
fn truncate_i32(n: i64) -> (r: i32)
    ensures
        r == n as i32,
{
    #[verifier::truncate]
    (n as i32)
}

/// Parse a load instruction
pub fn parse_load(s: &Vec<char>, pos: usize) -> (r: Parsed<InstData>)
    requires
        pos <= s@.len(),
    ensures
        viewed(r) == load_at(s@, pos as int),
        r matches Some((_, p)) ==> pos < p <= s@.len(),
{
    let (result, p) = parse_assign(s, pos)?;
    let p2 = crate::parser::lexer::match_lit(s, p, &crate::parser::lexer::lit_chars("load."))?;
    let (ty, p3) = parse_type(s, p2)?;
    let (address, p4) = parse_value(s, p3)?;
    Some((InstData::load(result, address, ty), p4))
}

/// Parse a store instruction
pub fn parse_store(s: &Vec<char>, pos: usize) -> (r: Parsed<InstData>)
    requires
        pos <= s@.len(),
    ensures
        viewed(r) == store_at(s@, pos as int),
        r matches Some((_, p)) ==> pos < p <= s@.len(),
{
    proof {
        reveal_strlit("store.");
    }
    let p = crate::parser::lexer::match_lit(s, pos, &crate::parser::lexer::lit_chars("store."))?;
    let (ty, p2) = parse_type(s, p)?;
    let ((address, value), p3) = parse_two_values(s, p2)?;
    Some((InstData::store(address, value, ty), p3))
}

/// Parse a return instruction
pub fn parse_return(s: &Vec<char>, pos: usize) -> (r: Parsed<InstData>)
    requires
        pos <= s@.len(),
    ensures
        viewed(r) == return_at(s@, pos as int),
        r matches Some((_, p)) ==> pos < p <= s@.len(),
{
    proof {
        reveal_strlit("return");
    }
    let p = tok(s, pos, "return")?;
    let (values, p2) = parse_value_list(s, p);
    Some((InstData::return_(values), p2))
}

/// Parse a halt instruction
pub fn parse_halt(s: &Vec<char>, pos: usize) -> (r: Parsed<InstData>)
    requires
        pos <= s@.len(),
    ensures
        viewed(r) == halt_at(s@, pos as int),
        r matches Some((_, p)) ==> pos < p <= s@.len(),
{
    proof {
        reveal_strlit("halt");
    }
    let p = tok(s, pos, "halt")?;
    Some((InstData::halt(), p))
}

/// Parse a trap instruction
pub fn parse_trap(s: &Vec<char>, pos: usize) -> (r: Parsed<InstData>)
    requires
        pos <= s@.len(),
    ensures
        viewed(r) == trap_at(s@, pos as int),
        r matches Some((_, p)) ==> pos < p <= s@.len(),
{
    proof {
        reveal_strlit("trap");
    }
    let p = tok(s, pos, "trap")?;
    let (code, p2) = parse_trap_code(s, p)?;
    Some((InstData::trap(code), p2))
}

/// Parse a trapz instruction (trap if condition is zero)
pub fn parse_trapz(s: &Vec<char>, pos: usize) -> (r: Parsed<InstData>)
    requires
        pos <= s@.len(),
    ensures
        viewed(r) == trapz_at(s@, pos as int),
        r matches Some((_, p)) ==> pos < p <= s@.len(),
{
    proof {
        reveal_strlit("trapz");
    }
    let p = tok(s, pos, "trapz")?;
    let (condition, p2) = parse_value(s, p)?;
    let p3 = tok_char(s, p2, ',')?;
    let (code, p4) = parse_trap_code(s, p3)?;
    Some((InstData::trapz(condition, code), p4))
}

/// Parse a trapnz instruction (trap if condition is non-zero)
pub fn parse_trapnz(s: &Vec<char>, pos: usize) -> (r: Parsed<InstData>)
    requires
        pos <= s@.len(),
    ensures
        viewed(r) == trapnz_at(s@, pos as int),
        r matches Some((_, p)) ==> pos < p <= s@.len(),
{
    proof {
        reveal_strlit("trapnz");
    }
    let p = tok(s, pos, "trapnz")?;
    let (condition, p2) = parse_value(s, p)?;
    let p3 = tok_char(s, p2, ',')?;
    let (code, p4) = parse_trap_code(s, p3)?;
    Some((InstData::trapnz(condition, code), p4))
}

/// Text at which `fconst` stands cannot be read as any form tried after
/// constants.
proof fn lemma_fconst_excludes(s: Seq<char>, p: usize)
    ensures
        fconst_word_at(s, p as int) is Some ==> stackalloc_at(s, p as int) is None,
        fconst_word_at(s, p as int) is Some ==> load_at(s, p as int) is None,
        fconst_word_at(s, p as int) is Some ==> float_compare_at(s, p) is None,
        fconst_word_at(s, p as int) is Some ==> int_compare_at(s, p) is None,
        fconst_word_at(s, p as int) is Some ==> binary_at(s, p as int, float_words()) is None,
        fconst_word_at(s, p as int) is Some ==> inot_at(s, p as int) is None,
        fconst_word_at(s, p as int) is Some ==> binary_at(s, p as int, bitwise_words()) is None,
        fconst_word_at(s, p as int) is Some ==> binary_at(s, p as int, shift_words()) is None,
        fconst_word_at(s, p as int) is Some ==> binary_at(s, p as int, arith_words()) is None,
{
    reveal_strlit("fconst");
    reveal_strlit("stackalloc");
    reveal_strlit("load.");
    reveal_strlit("fcmp");
    reveal_strlit("icmp");
    reveal_strlit("inot");
    reveal_strlit("fadd");
    reveal_strlit("fsub");
    reveal_strlit("fmul");
    reveal_strlit("fdiv");
    reveal_strlit("iand");
    reveal_strlit("ior");
    reveal_strlit("ixor");
    reveal_strlit("ishl");
    reveal_strlit("ishr");
    reveal_strlit("iashr");
    reveal_strlit("iadd");
    reveal_strlit("isub");
    reveal_strlit("imulh");
    reveal_strlit("imul");
    reveal_strlit("idiv");
    reveal_strlit("irem");
    reveal_with_fuel(word_binary_at, 7);
    if fconst_word_at(s, p as int) is Some {
        let q = assign_at(s, p as int).unwrap().1 as int;
        assert forall|w: Seq<char>| #[trigger] has_at(s, q, w) && w.len() > 2 implies s[q] == w[0] && s[q + 1]
            == w[1] && s[q + 2] == w[2] by {
            assert(s.subrange(q, q + w.len())[0] == s[q]);
            assert(s.subrange(q, q + w.len())[1] == s[q + 1]);
            assert(s.subrange(q, q + w.len())[2] == s[q + 2]);
        }
        assert(has_at(s, q, "fconst"@));
        assert(s[q] == 'f' && s[q + 1] == 'c' && s[q + 2] == 'o');
    }
}

/// Parse any instruction, trying the forms in a fixed order: those that do
/// not start with a value assignment first, then the assignments.
pub fn parse_instruction(s: &Vec<char>, pos: usize) -> (r: Parsed<InstData>)
    requires
        pos <= s@.len(),
    ensures
        instruction_result(s@, pos, viewed(r)),
        r matches Some((_, p)) ==> pos < p <= s@.len(),
{
    if let Some(r) = parse_store(s, pos) {
        return Some(r);
    }
    if let Some(r) = parse_call(s, pos) {
        return Some(r);
    }
    if let Some(r) = parse_assigned_call(s, pos) {
        return Some(r);
    }
    if let Some(r) = parse_syscall(s, pos) {
        return Some(r);
    }
    if let Some(r) = parse_branch(s, pos) {
        return Some(r);
    }
    if let Some(r) = parse_jump(s, pos) {
        return Some(r);
    }
    if let Some(r) = parse_return(s, pos) {
        return Some(r);
    }
    if let Some(r) = parse_halt(s, pos) {
        return Some(r);
    }
    if let Some(r) = parse_trap(s, pos) {
        return Some(r);
    }
    if let Some(r) = parse_trapz(s, pos) {
        return Some(r);
    }
    if let Some(r) = parse_trapnz(s, pos) {
        return Some(r);
    }
    if let Some(r) = parse_const(s, pos) {
        return Some(r);
    }
    proof {
        lemma_fconst_excludes(s@, pos);
    }
    if let Some(r) = parse_stackalloc(s, pos) {
        return Some(r);
    }
    if let Some(r) = parse_load(s, pos) {
        return Some(r);
    }
    if let Some(r) = parse_fcmp(s, pos) {
        return Some(r);
    }
    if let Some(r) = parse_comparison(s, pos) {
        return Some(r);
    }
    if let Some(r) = parse_float_arithmetic(s, pos) {
        return Some(r);
    }
    if let Some(r) = parse_bitwise_unary(s, pos) {
        return Some(r);
    }
    if let Some(r) = parse_bitwise(s, pos) {
        return Some(r);
    }
    if let Some(r) = parse_shift(s, pos) {
        return Some(r);
    }
    parse_arithmetic(s, pos)
}

} // verus!
