//! Building text: decimal numbers and value names.

use vstd::prelude::*;

use crate::{types::Type, value::Value};

verus! {

/// The decimal digit `d` as a character.
pub open spec fn digit_char(d: nat) -> char {
    if d == 0 {
        '0'
    } else if d == 1 {
        '1'
    } else if d == 2 {
        '2'
    } else if d == 3 {
        '3'
    } else if d == 4 {
        '4'
    } else if d == 5 {
        '5'
    } else if d == 6 {
        '6'
    } else if d == 7 {
        '7'
    } else if d == 8 {
        '8'
    } else {
        '9'
    }
}

/// The decimal digits of `n`, most significant first, without leading zeros.
pub open spec fn dec(n: nat) -> Seq<char>
    decreases n,
{
    if n < 10 {
        seq![digit_char(n)]
    } else {
        dec(n / 10).push(digit_char(n % 10))
    }
}

/// The decimal text of an integer, with a minus sign when it is negative.
pub open spec fn dec_int(n: int) -> Seq<char> {
    if n < 0 {
        seq!['-'] + dec((-n) as nat)
    } else {
        dec(n as nat)
    }
}

/// The text `v<n>` that names the value with index `n`.
pub open spec fn value_name(n: nat) -> Seq<char> {
    seq!['v'] + dec(n)
}

/// The text `block<n>` that names the block with index `n`.
pub open spec fn block_name(n: nat) -> Seq<char> {
    seq!['b', 'l', 'o', 'c', 'k'] + dec(n)
}

/// A one-character string holding the decimal digit `d`.
fn digit_str(d: u64) -> (r: &'static str)
    requires
        d < 10,
    ensures
        r@ == seq![digit_char(d as nat)],
{
    proof {
        reveal_strlit("0");
        reveal_strlit("1");
        reveal_strlit("2");
        reveal_strlit("3");
        reveal_strlit("4");
        reveal_strlit("5");
        reveal_strlit("6");
        reveal_strlit("7");
        reveal_strlit("8");
        reveal_strlit("9");
    }
    if d == 0 {
        "0"
    } else if d == 1 {
        "1"
    } else if d == 2 {
        "2"
    } else if d == 3 {
        "3"
    } else if d == 4 {
        "4"
    } else if d == 5 {
        "5"
    } else if d == 6 {
        "6"
    } else if d == 7 {
        "7"
    } else if d == 8 {
        "8"
    } else {
        "9"
    }
}

/// Append the decimal digits of `n`.
pub fn push_dec(out: &mut String, n: u64)
    ensures
        final(out)@ == old(out)@ + dec(n as nat),
    decreases n,
{
    if n >= 10 {
        push_dec(out, n / 10);
    }
    out.append(digit_str(n % 10));
    proof {
        assert(old(out)@ + dec(n as nat) =~= (if n >= 10 {
            old(out)@ + dec((n / 10) as nat)
        } else {
            old(out)@
        }) + seq![digit_char((n % 10) as nat)]);
    }
}

/// Append the decimal digits of a wide number.
pub fn push_dec_wide(out: &mut String, n: u128)
    ensures
        final(out)@ == old(out)@ + dec(n as nat),
    decreases n,
{
    if n >= 10 {
        push_dec_wide(out, n / 10);
    }
    out.append(digit_str((n % 10) as u64));
    proof {
        assert(old(out)@ + dec(n as nat) =~= (if n >= 10 {
            old(out)@ + dec((n / 10) as nat)
        } else {
            old(out)@
        }) + seq![digit_char((n % 10) as nat)]);
    }
}

/// Append the decimal text of a signed integer.
pub fn push_i64(out: &mut String, n: i64)
    ensures
        final(out)@ == old(out)@ + dec_int(n as int),
{
    if n < 0 {
        proof {
            reveal_strlit("-");
        }
        out.append("-");
        let m: u64 = if n == i64::MIN {
            9223372036854775808u64
        } else {
            (-n) as u64
        };
        push_dec(out, m);
        proof {
            assert(old(out)@ + dec_int(n as int) =~= old(out)@ + seq!['-'] + dec(m as nat));
        }
    } else {
        push_dec(out, n as u64);
    }
}

/// Append `s`.
pub fn push_str(out: &mut String, s: &str)
    ensures
        final(out)@ == old(out)@ + s@,
{
    out.append(s);
}

/// Append the name `v<n>` of a value.
pub fn push_value_name(out: &mut String, n: u32)
    ensures
        final(out)@ == old(out)@ + value_name(n as nat),
{
    proof {
        reveal_strlit("v");
    }
    out.append("v");
    push_dec(out, n as u64);
    proof {
        assert(old(out)@ + value_name(n as nat) =~= old(out)@ + seq!['v'] + dec(n as nat));
    }
}

/// Append the name `block<n>` of a block.
pub fn push_block_name(out: &mut String, n: u32)
    ensures
        final(out)@ == old(out)@ + block_name(n as nat),
{
    proof {
        reveal_strlit("block");
    }
    out.append("block");
    push_dec(out, n as u64);
    proof {
        assert(old(out)@ + block_name(n as nat) =~= old(out)@ + seq!['b', 'l', 'o', 'c', 'k'] + dec(n as nat));
    }
}

/// The text of a type: `i32`, `u32`, or the float type's.
pub open spec fn type_text(t: Type) -> Seq<char> {
    match t {
        Type::I32 => seq!['i', '3', '2'],
        Type::U32 => seq!['u', '3', '2'],
        Type::F32 => seq!['f', '3', '2'],
    }
}

/// The text of a list of values, separated by `, `.
pub open spec fn values_text(vs: Seq<Value>) -> Seq<char>
    decreases vs.len(),
{
    if vs.len() == 0 {
        seq![]
    } else if vs.len() == 1 {
        value_name(vs[0].0 as nat)
    } else {
        values_text(vs.drop_last()) + seq![',', ' '] + value_name(vs.last().0 as nat)
    }
}

/// The text of a list of types, separated by `, `.
pub open spec fn types_text(ts: Seq<Type>) -> Seq<char>
    decreases ts.len(),
{
    if ts.len() == 0 {
        seq![]
    } else if ts.len() == 1 {
        type_text(ts[0])
    } else {
        types_text(ts.drop_last()) + seq![',', ' '] + type_text(ts.last())
    }
}

/// Append the text of a type.
pub fn push_type(out: &mut String, t: Type)
    ensures
        final(out)@ == old(out)@ + type_text(t),
{
    proof {
        reveal_strlit("i");
        reveal_strlit("u");
        reveal_strlit("f");
        reveal_strlit("32");
    }
    match t {
        Type::I32 => out.append("i"),
        Type::U32 => out.append("u"),
        Type::F32 => out.append("f"),
    }
    out.append("32");
    proof {
        assert(out@ =~= old(out)@ + type_text(t));
    }
}

/// Append the names of values, separated by `, `.
pub fn push_values(out: &mut String, vs: &[Value])
    ensures
        final(out)@ == old(out)@ + values_text(vs@),
{
    let mut i: usize = 0;
    while i < vs.len()
        invariant
            i <= vs@.len(),
            out@ == old(out)@ + values_text(vs@.subrange(0, i as int)),
        decreases vs@.len() - i,
    {
        let ghost before = out@;
        if i > 0 {
            proof {
                reveal_strlit(", ");
            }
            out.append(", ");
        }
        push_value_name(out, vs[i].0);
        proof {
            let s = vs@.subrange(0, i + 1);
            assert(s.drop_last() =~= vs@.subrange(0, i as int));
            if i == 0 {
                assert(values_text(s) == value_name(vs@[0].0 as nat));
                assert(out@ =~= old(out)@ + values_text(s));
            } else {
                assert(out@ =~= old(out)@ + values_text(s));
            }
        }
        i = i + 1;
    }
    proof {
        assert(vs@.subrange(0, vs@.len() as int) =~= vs@);
    }
}

/// Append the texts of types, separated by `, `.
pub fn push_types(out: &mut String, ts: &[Type])
    ensures
        final(out)@ == old(out)@ + types_text(ts@),
{
    let mut i: usize = 0;
    while i < ts.len()
        invariant
            i <= ts@.len(),
            out@ == old(out)@ + types_text(ts@.subrange(0, i as int)),
        decreases ts@.len() - i,
    {
        if i > 0 {
            proof {
                reveal_strlit(", ");
            }
            out.append(", ");
        }
        push_type(out, ts[i]);
        proof {
            let s = ts@.subrange(0, i + 1);
            assert(s.drop_last() =~= ts@.subrange(0, i as int));
            assert(out@ =~= old(out)@ + types_text(s));
        }
        i = i + 1;
    }
    proof {
        assert(ts@.subrange(0, ts@.len() as int) =~= ts@);
    }
}

/// The hexadecimal digit `d` as a character.
pub open spec fn hex_char(d: nat) -> char {
    if d < 10 {
        digit_char(d)
    } else if d == 10 {
        'a'
    } else if d == 11 {
        'b'
    } else if d == 12 {
        'c'
    } else if d == 13 {
        'd'
    } else if d == 14 {
        'e'
    } else {
        'f'
    }
}

/// The eight hexadecimal digits of `n` (most significant first), behind `0x`.
pub open spec fn hex32(n: u32) -> Seq<char> {
    seq!['0', 'x'] + Seq::new(8, |i: int| hex_char(((n as nat) / pow16((7 - i) as nat)) % 16))
}

/// 16 to the power `k`.
pub open spec fn pow16(k: nat) -> nat
    decreases k,
{
    if k == 0 {
        1
    } else {
        16 * pow16((k - 1) as nat)
    }
}

/// A one-character string holding the hexadecimal digit `d`.
fn hex_str(d: u32) -> (r: &'static str)
    requires
        d < 16,
    ensures
        r@ == seq![hex_char(d as nat)],
{
    if d < 10 {
        return digit_str(d as u64);
    }
    proof {
        reveal_strlit("a");
        reveal_strlit("b");
        reveal_strlit("c");
        reveal_strlit("d");
        reveal_strlit("e");
        reveal_strlit("f");
    }
    if d == 10 {
        "a"
    } else if d == 11 {
        "b"
    } else if d == 12 {
        "c"
    } else if d == 13 {
        "d"
    } else if d == 14 {
        "e"
    } else {
        "f"
    }
}

/// Append `0x` and the eight hexadecimal digits of `n`.
pub fn push_hex32(out: &mut String, n: u32)
    ensures
        final(out)@ == old(out)@ + hex32(n),
{
    proof {
        reveal_strlit("0x");
    }
    out.append("0x");
    let mut i: u32 = 0;
    let mut div: u32 = 0x1000_0000;
    proof {
        reveal_with_fuel(pow16, 8);
        assert(pow16(7) == 0x1000_0000);
        assert(out@ =~= old(out)@ + seq!['0', 'x'] + Seq::new(0, |j: int| hex_char(((n as nat) / pow16((7 - j) as nat)) % 16)));
    }
    while i < 8
        invariant
            i <= 8,
            div as nat == pow16((7 - i) as nat) || (i == 8 && div == 0),
            out@ == old(out)@ + seq!['0', 'x'] + Seq::new(i as nat, |j: int| hex_char(((n as nat) / pow16((7 - j) as nat)) % 16)),
        decreases 8 - i,
    {
        proof {
            reveal_with_fuel(pow16, 8);
        }
        let d = (n / div) % 16;
        out.append(hex_str(d));
        proof {
            assert(out@ =~= old(out)@ + seq!['0', 'x'] + Seq::new((i + 1) as nat, |j: int| hex_char(((n as nat) / pow16((7 - j) as nat)) % 16)));
        }
        div = div / 16;
        i = i + 1;
        proof {
            reveal_with_fuel(pow16, 8);
            if i < 8 {
                assert(div as nat == pow16((7 - i) as nat));
            }
        }
    }
    proof {
        assert(old(out)@ + hex32(n) =~= old(out)@ + seq!['0', 'x'] + Seq::new(8, |j: int| hex_char(((n as nat) / pow16((7 - j) as nat)) % 16)));
    }
}

/// The text `v<r> = <op> v<a>, v<b>` of a binary operation.
pub open spec fn binop_text(r: Value, op: Seq<char>, a: Value, b: Value) -> Seq<char> {
    value_name(r.0 as nat) + " = "@ + op + " "@ + value_name(a.0 as nat) + ", "@ + value_name(b.0 as nat)
}

/// Append the text `v<r> = <op> v<a>, v<b>` of a binary operation.
pub fn push_binop(out: &mut String, r: Value, op: &str, a: Value, b: Value)
    ensures
        final(out)@ == old(out)@ + binop_text(r, op@, a, b),
{
    push_value_name(out, r.0);
    out.append(" = ");
    out.append(op);
    out.append(" ");
    push_value_name(out, a.0);
    out.append(", ");
    push_value_name(out, b.0);
    proof {
        assert(out@ =~= old(out)@ + binop_text(r, op@, a, b));
    }
}

/// The name `v<n>` of a value.
pub open spec fn vname(v: Value) -> Seq<char> {
    value_name(v.0 as nat)
}

/// The name `block<n>` of the block with index `t`.
pub open spec fn bname(t: u32) -> Seq<char> {
    block_name(t as nat)
}

/// The decimal text of a 64-bit integer.
pub open spec fn dec_i64(v: i64) -> Seq<char> {
    dec_int(v as int)
}

/// The decimal text of a 32-bit integer.
pub open spec fn dec_i32(v: i32) -> Seq<char> {
    dec_int(v as int)
}

/// Append the decimal text of a 32-bit integer.
pub fn push_i32(out: &mut String, n: i32)
    ensures
        final(out)@ == old(out)@ + dec_i32(n),
{
    push_i64(out, n as i64);
}

} // verus!
