//! Character-level scanning: blanks, comments, literals, numbers and names.

use vstd::prelude::*;

use crate::{
    text::{block_name, dec, dec_int, digit_char, type_text, value_name},
    types::Type,
    value::Value,
};

verus! {

/// Whitespace: space, tab, newline or carriage return.
pub open spec fn is_space(c: char) -> bool {
    c == ' ' || c == '\t' || c == '\n' || c == '\r'
}

/// An ASCII decimal digit.
pub open spec fn is_digit(c: char) -> bool {
    '0' <= c <= '9'
}

/// A character of a name: an ASCII letter or digit, or `_`.
pub open spec fn is_name_char(c: char) -> bool {
    ('a' <= c <= 'z') || ('A' <= c <= 'Z') || ('0' <= c <= '9') || c == '_'
}

/// The numeric value of a run of decimal digits.
pub open spec fn digits_value(d: Seq<char>) -> nat
    decreases d.len(),
{
    if d.len() == 0 {
        0
    } else {
        (digits_value(d.drop_last()) * 10 + ((d.last() as int) - ('0' as int))) as nat
    }
}

/// Whether `s` holds the characters of `w` from position `pos` on.
pub open spec fn has_at(s: Seq<char>, pos: int, w: Seq<char>) -> bool {
    0 <= pos && pos + w.len() <= s.len() && s.subrange(pos, pos + w.len()) == w
}

/// The input's characters.
pub fn chars_of(input: &str) -> (r: Vec<char>)
    ensures
        r@ == input@,
{
    let n = input.unicode_len();
    let mut out: Vec<char> = Vec::new();
    let mut i: usize = 0;
    while i < n
        invariant
            n == input@.len(),
            i <= n,
            out@ == input@.subrange(0, i as int),
        decreases n - i,
    {
        out.push(input.get_char(i));
        proof {
            assert(out@ =~= input@.subrange(0, i + 1));
        }
        i = i + 1;
    }
    proof {
        assert(input@.subrange(0, n as int) =~= input@);
    }
    out
}

/// The characters of a literal.
pub fn lit_chars(w: &str) -> (r: Vec<char>)
    ensures
        r@ == w@,
{
    chars_of(w)
}

/// The end of the line that starts at `p`: the first `\n` or `\r` at or
/// after `p`, or the end of the input.
pub open spec fn line_end(s: Seq<char>, p: int) -> int
    decreases s.len() - p,
{
    if 0 <= p < s.len() && s[p] != '\n' && s[p] != '\r' {
        line_end(s, p + 1)
    } else {
        p
    }
}

/// `line_end` does not go back.
pub proof fn lemma_line_end_ge(s: Seq<char>, p: int)
    ensures
        line_end(s, p) >= p,
        0 <= p <= s.len() ==> line_end(s, p) <= s.len(),
    decreases s.len() - p,
{
    if 0 <= p < s.len() && s[p] != '\n' && s[p] != '\r' {
        lemma_line_end_ge(s, p + 1);
    }
}

/// The end of the blanks that start at `p`: whitespace, `;` comments up to
/// the end of their line, and `\` line continuations.
pub open spec fn blank_end(s: Seq<char>, p: int) -> int
    decreases s.len() - p,
{
    if p < 0 || p >= s.len() {
        p
    } else if is_space(s[p]) {
        blank_end(s, p + 1)
    } else if s[p] == ';' {
        proof {
            lemma_line_end_ge(s, p + 1);
        }
        blank_end(s, line_end(s, p + 1))
    } else if s[p] == '\\' && p + 1 < s.len() && s[p + 1] == '\n' {
        blank_end(s, p + 2)
    } else {
        p
    }
}

/// `blank_end` stays within the input and does not go back.
pub proof fn lemma_blank_end_bounds(s: Seq<char>, p: int)
    requires
        0 <= p <= s.len(),
    ensures
        p <= blank_end(s, p) <= s.len(),
    decreases s.len() - p,
{
    if p < s.len() {
        if is_space(s[p]) {
            lemma_blank_end_bounds(s, p + 1);
        } else if s[p] == ';' {
            lemma_line_end_ge(s, p + 1);
            lemma_blank_end_bounds(s, line_end(s, p + 1));
        } else if s[p] == '\\' && p + 1 < s.len() && s[p + 1] == '\n' {
            lemma_blank_end_bounds(s, p + 2);
        }
    }
}

/// A `;` comment at `pos`: the position of the end of its line, which the
/// comment's text runs up to; none when there is no `;` at `pos`.
pub fn comment(s: &Vec<char>, pos: usize) -> (r: Option<usize>)
    requires
        pos <= s@.len(),
    ensures
        r == (if pos < s@.len() && s@[pos as int] == ';' {
            Some(line_end(s@, pos + 1) as usize)
        } else {
            None::<usize>
        }),
{
    if !(pos < s.len() && s[pos] == ';') {
        return None;
    }
    let mut p = pos + 1;
    while p < s.len() && s[p] != '\n' && s[p] != '\r'
        invariant
            pos < p <= s@.len(),
            line_end(s@, p as int) == line_end(s@, pos + 1),
        decreases s@.len() - p,
    {
        p = p + 1;
    }
    Some(p)
}

/// Skip blanks: whitespace, `;` comments up to the end of the line, and
/// `\` line continuations.
pub fn skip_blank(s: &Vec<char>, pos: usize) -> (r: usize)
    requires
        pos <= s@.len(),
    ensures
        r == blank_end(s@, pos as int),
        pos <= r <= s@.len(),
        r < s@.len() ==> !is_space(s@[r as int]) && s@[r as int] != ';' && !(s@[r as int] == '\\'
            && r + 1 < s@.len() && s@[r + 1] == '\n'),
{
    let mut p = pos;
    while p < s.len()
        invariant
            pos <= p <= s@.len(),
            blank_end(s@, p as int) == blank_end(s@, pos as int),
        decreases s@.len() - p,
    {
        let c = s[p];
        if c == ' ' || c == '\t' || c == '\n' || c == '\r' {
            p = p + 1;
        } else if c == ';' {
            match comment(s, p) {
                Some(q) => {
                    proof {
                        lemma_line_end_ge(s@, p + 1);
                    }
                    p = q;
                },
                None => {
                    return p;
                },
            }
        } else if c == '\\' && p + 1 < s.len() && s[p + 1] == '\n' {
            p = p + 2;
        } else {
            return p;
        }
    }
    p
}

/// Match the characters of `w` at `pos`.
pub fn match_lit(s: &Vec<char>, pos: usize, w: &Vec<char>) -> (r: Option<usize>)
    requires
        pos <= s@.len(),
    ensures
        r is Some <==> has_at(s@, pos as int, w@),
        r matches Some(p) ==> p == pos + w@.len(),
{
    if w.len() > s.len() - pos {
        return None;
    }
    let mut i: usize = 0;
    let wl = w.len();
    let sl = s.len();
    while i < wl
        invariant
            wl == w@.len(),
            sl == s@.len(),
            pos + w@.len() <= s@.len(),
            i <= w@.len(),
            forall|j: int| 0 <= j < i ==> s@[pos + j] == w@[j],
        decreases w@.len() - i,
    {
        let k = pos + i;
        if s[k] != w[i] {
            proof {
                assert(s@.subrange(pos as int, pos + w@.len())[i as int] != w@[i as int]);
            }
            return None;
        }
        i = i + 1;
    }
    proof {
        assert(s@.subrange(pos as int, pos + w@.len()) =~= w@);
    }
    Some(pos + w.len())
}

/// Match the literal `w` at `pos`, then skip blanks.
pub fn tok(s: &Vec<char>, pos: usize, w: &str) -> (r: Option<usize>)
    requires
        pos <= s@.len(),
    ensures
        r == (if has_at(s@, pos as int, w@) {
            Some(blank_end(s@, pos + w@.len()) as usize)
        } else {
            None::<usize>
        }),
        r is Some ==> has_at(s@, pos as int, w@),
        r matches Some(p) ==> pos + w@.len() <= p <= s@.len(),
{
    let wc = lit_chars(w);
    match match_lit(s, pos, &wc) {
        Some(p) => Some(skip_blank(s, p)),
        None => None,
    }
}

/// Match the single character `c` at `pos`, then skip blanks.
pub fn tok_char(s: &Vec<char>, pos: usize, c: char) -> (r: Option<usize>)
    requires
        pos <= s@.len(),
    ensures
        r == (if pos < s@.len() && s@[pos as int] == c {
            Some(blank_end(s@, pos + 1) as usize)
        } else {
            None::<usize>
        }),
        r is Some <==> (pos < s@.len() && s@[pos as int] == c),
        r matches Some(p) ==> pos < p <= s@.len(),
{
    if pos < s.len() && s[pos] == c {
        Some(skip_blank(s, pos + 1))
    } else {
        None
    }
}

/// The end of the run of decimal digits that starts at `p`.
pub open spec fn digits_end(s: Seq<char>, p: int) -> int
    decreases s.len() - p,
{
    if 0 <= p < s.len() && is_digit(s[p]) {
        digits_end(s, p + 1)
    } else {
        p
    }
}

/// The value of the run of decimal digits that starts at `p`.
pub open spec fn digits_at(s: Seq<char>, p: int) -> nat {
    digits_value(s.subrange(p, digits_end(s, p)))
}

/// The run of digits at `p` ends within the input, and all of it is digits.
pub proof fn lemma_digits_end(s: Seq<char>, p: int)
    requires
        0 <= p <= s.len(),
    ensures
        p <= digits_end(s, p) <= s.len(),
        forall|k: int| p <= k < digits_end(s, p) ==> is_digit(#[trigger] s[k]),
        digits_end(s, p) < s.len() ==> !is_digit(s[digits_end(s, p)]),
    decreases s.len() - p,
{
    if p < s.len() && is_digit(s[p]) {
        lemma_digits_end(s, p + 1);
    }
}

/// A longer run of digits has a value at least as large.
pub proof fn lemma_digits_value_mono(d: Seq<char>, n: int)
    requires
        0 <= n <= d.len(),
        forall|k: int| 0 <= k < d.len() ==> is_digit(#[trigger] d[k]),
    ensures
        digits_value(d.subrange(0, n)) <= digits_value(d),
    decreases d.len(),
{
    if n < d.len() {
        let e = d.drop_last();
        assert(e.subrange(0, n) =~= d.subrange(0, n));
        assert forall|k: int| 0 <= k < e.len() implies is_digit(#[trigger] e[k]) by {
            assert(e[k] == d[k]);
        }
        lemma_digits_value_mono(e, n);
    } else {
        assert(d.subrange(0, n) =~= d);
    }
}

/// Read a run of decimal digits at `pos` as an unsigned number that fits
/// in `max`; none when there is no digit or the number is larger.
pub fn read_digits(s: &Vec<char>, pos: usize, max: u64) -> (r: Option<(u64, usize)>)
    requires
        pos <= s@.len(),
    ensures
        r == (if digits_end(s@, pos as int) > pos && digits_at(s@, pos as int) <= max {
            Some((digits_at(s@, pos as int) as u64, digits_end(s@, pos as int) as usize))
        } else {
            None::<(u64, usize)>
        }),
        r matches Some((v, p)) ==> pos < p <= s@.len() && v <= max,
{
    proof {
        lemma_digits_end(s@, pos as int);
    }
    let mut p = pos;
    let mut v: u64 = 0;
    while p < s.len() && is_digit_char(s[p])
        invariant
            pos <= p <= s@.len(),
            v == digits_value(s@.subrange(pos as int, p as int)),
            v <= max,
            forall|k: int| pos <= k < p ==> is_digit(#[trigger] s@[k]),
            digits_end(s@, p as int) == digits_end(s@, pos as int),
            pos <= digits_end(s@, pos as int) <= s@.len(),
            forall|k: int| pos <= k < digits_end(s@, pos as int) ==> is_digit(#[trigger] s@[k]),
        decreases s@.len() - p,
    {
        let d = digit_of(s[p]);
        proof {
            assert(s@.subrange(pos as int, p + 1).drop_last() =~= s@.subrange(pos as int, p as int));
        }
        let nv: u128 = (v as u128) * 10 + (d as u128);
        if nv > max as u128 {
            proof {
                let e = digits_end(s@, pos as int);
                lemma_digits_end(s@, p + 1);
                assert(digits_end(s@, p as int) == digits_end(s@, p + 1));
                assert(digits_value(s@.subrange(pos as int, p + 1)) == v * 10 + d);
                let full = s@.subrange(pos as int, e);
                assert(full.subrange(0, p + 1 - pos) =~= s@.subrange(pos as int, p + 1));
                assert forall|k: int| 0 <= k < full.len() implies is_digit(#[trigger] full[k]) by {
                    assert(full[k] == s@[pos + k]);
                }
                lemma_digits_value_mono(full, p + 1 - pos);
            }
            return None;
        }
        v = nv as u64;
        p = p + 1;
    }
    if p == pos {
        return None;
    }
    Some((v, p))
}

/// Whether a character is a decimal digit.
pub fn is_digit_char(c: char) -> (r: bool)
    ensures
        r == is_digit(c),
{
    '0' <= c && c <= '9'
}

/// The value of a decimal digit.
pub fn digit_of(c: char) -> (r: u64)
    requires
        is_digit(c),
    ensures
        r == (c as int) - ('0' as int),
        r <= 9,
{
    let x: u32 = c as u32;
    (x - 48) as u64
}

/// The value `v<n>` at `pos`, and where the blanks after it end; none when
/// there is no such value whose number fits in a `u32`.
pub open spec fn value_at(s: Seq<char>, pos: int) -> Option<(Value, usize)> {
    if 0 <= pos < s.len() && s[pos] == 'v' && digits_end(s, pos + 1) > pos + 1 && digits_at(s, pos + 1)
        <= u32::MAX {
        Some((Value(digits_at(s, pos + 1) as u32), blank_end(s, digits_end(s, pos + 1)) as usize))
    } else {
        None
    }
}

/// A value `v<n>`, then blanks.
pub fn parse_value(s: &Vec<char>, pos: usize) -> (r: Option<(Value, usize)>)
    requires
        pos <= s@.len(),
    ensures
        r == value_at(s@, pos as int),
        r matches Some((v, p)) ==> pos < p <= s@.len() && s@[pos as int] == 'v',
{
    if pos < s.len() && s[pos] == 'v' {
        proof {
            lemma_digits_end(s@, pos + 1);
        }
        match read_digits(s, pos + 1, 0xffff_ffff) {
            Some((n, p)) => Some((Value(n as u32), skip_blank(s, p))),
            None => None,
        }
    } else {
        None
    }
}

/// The block number at `pos` after the word `block`, and where the blanks
/// after it end; none when there is no such number that fits in a `u32`.
pub open spec fn block_index_at(s: Seq<char>, pos: int) -> Option<(u32, usize)> {
    let d = pos + "block"@.len();
    if has_at(s, pos, "block"@) && digits_end(s, d) > d && digits_at(s, d) <= u32::MAX {
        Some((digits_at(s, d) as u32, blank_end(s, digits_end(s, d)) as usize))
    } else {
        None
    }
}

/// A block reference `block<n>`, then blanks.
pub fn parse_block_index(s: &Vec<char>, pos: usize) -> (r: Option<(u32, usize)>)
    requires
        pos <= s@.len(),
    ensures
        r == block_index_at(s@, pos as int),
        r matches Some((_, p)) ==> pos < p <= s@.len(),
{
    let wc = lit_chars("block");
    let p = match match_lit(s, pos, &wc) {
        Some(p) => p,
        None => {
            return None;
        },
    };
    proof {
        lemma_digits_end(s@, p as int);
        lemma_blank_end_bounds(s@, digits_end(s@, p as int));
        assert(s@.len() == s.len());
    }
    match read_digits(s, p, 0xffff_ffff) {
        Some((n, q)) => Some((n as u32, skip_blank(s, q))),
        None => None,
    }
}

/// Whether an integer at `pos` starts with `-`.
pub open spec fn int_neg(s: Seq<char>, pos: int) -> bool {
    pos < s.len() && s[pos] == '-'
}

/// Where the digits of an integer at `pos` start.
pub open spec fn int_start(s: Seq<char>, pos: int) -> int {
    if int_neg(s, pos) {
        pos + 1
    } else {
        pos
    }
}

/// The largest magnitude an integer at `pos` may have to fit in an `i64`.
pub open spec fn int_max(s: Seq<char>, pos: int) -> nat {
    if int_neg(s, pos) {
        0x8000_0000_0000_0000
    } else {
        0x7fff_ffff_ffff_ffff
    }
}

/// The value of the integer at `pos`, its sign applied.
pub open spec fn int_value(s: Seq<char>, pos: int) -> int {
    if int_neg(s, pos) {
        -(digits_at(s, int_start(s, pos)) as int)
    } else {
        digits_at(s, int_start(s, pos)) as int
    }
}

/// The integer at `pos`, and where the blanks after it end; none when there
/// is no such integer that fits in an `i64`.
pub open spec fn integer_at(s: Seq<char>, pos: int) -> Option<(i64, usize)> {
    let start = int_start(s, pos);
    if digits_end(s, start) > start && digits_at(s, start) <= int_max(s, pos) {
        Some((int_value(s, pos) as i64, blank_end(s, digits_end(s, start)) as usize))
    } else {
        None
    }
}

/// A signed integer: an optional `-` and decimal digits, then blanks; none
/// when it does not fit in an `i64`.
pub fn parse_integer(s: &Vec<char>, pos: usize) -> (r: Option<(i64, usize)>)
    requires
        pos <= s@.len(),
    ensures
        r == integer_at(s@, pos as int),
        r matches Some((_, p)) ==> pos < p <= s@.len(),
{
    let neg = pos < s.len() && s[pos] == '-';
    let start = if neg {
        pos + 1
    } else {
        pos
    };
    let max: u64 = if neg {
        0x8000_0000_0000_0000
    } else {
        0x7fff_ffff_ffff_ffff
    };
    proof {
        lemma_digits_end(s@, start as int);
    }
    match read_digits(s, start, max) {
        Some((v, p)) => {
            let value: i64 = if neg {
                if v == 0x8000_0000_0000_0000 {
                    i64::MIN
                } else {
                    -(v as i64)
                }
            } else {
                v as i64
            };
            Some((value, skip_blank(s, p)))
        },
        None => None,
    }
}

/// The type whose name is this letter followed by `32`.
pub open spec fn type_of_letter(c: char) -> Type {
    if c == 'i' {
        Type::I32
    } else if c == 'u' {
        Type::U32
    } else {
        Type::F32
    }
}

/// The type name at `pos`, and where the blanks after it end; none when
/// there is no type name there.
pub open spec fn type_at(s: Seq<char>, pos: int) -> Option<(Type, usize)> {
    if 0 <= pos < s.len() && (s[pos] == 'i' || s[pos] == 'u' || s[pos] == 'f') && has_at(s, pos + 1, "32"@) {
        Some((type_of_letter(s[pos]), blank_end(s, pos + 1 + "32"@.len()) as usize))
    } else {
        None
    }
}

/// A type name (`i32`, `u32` or the float type), then blanks.
pub fn parse_type(s: &Vec<char>, pos: usize) -> (r: Option<(Type, usize)>)
    requires
        pos <= s@.len(),
    ensures
        r == type_at(s@, pos as int),
        r matches Some((_, p)) ==> pos < p <= s@.len(),
{
    if pos < s.len() && (s[pos] == 'i' || s[pos] == 'u' || s[pos] == 'f') {
        if let Some(p) = tok(s, pos + 1, "32") {
            let t = if s[pos] == 'i' {
                Type::I32
            } else if s[pos] == 'u' {
                Type::U32
            } else {
                Type::F32
            };
            return Some((t, p));
        }
    }
    None
}

/// The end of the run of name characters that starts at `p`.
pub open spec fn name_end(s: Seq<char>, p: int) -> int
    decreases s.len() - p,
{
    if 0 <= p < s.len() && is_name_char(s[p]) {
        name_end(s, p + 1)
    } else {
        p
    }
}

/// A function name `%name` (letters, digits, `_`), then blanks.
pub fn parse_function_name(s: &Vec<char>, pos: usize) -> (r: Option<(String, usize)>)
    requires
        pos <= s@.len(),
    ensures
        r is Some <==> pos < s@.len() && s@[pos as int] == '%' && name_end(s@, pos + 1) > pos + 1,
        r matches Some((n, p)) ==> n@ == s@.subrange(pos + 1, name_end(s@, pos + 1)) && p
            == blank_end(s@, name_end(s@, pos + 1)),
        r matches Some((_, p)) ==> pos < p <= s@.len(),
{
    if !(pos < s.len() && s[pos] == '%') {
        return None;
    }
    let mut p = pos + 1;
    let mut name = String::new();
    while p < s.len() && is_name(s[p])
        invariant
            pos < p <= s@.len(),
            name@ == s@.subrange(pos + 1, p as int),
            name_end(s@, p as int) == name_end(s@, pos + 1),
        decreases s@.len() - p,
    {
        push_char(&mut name, s[p]);
        proof {
            assert(name@ =~= s@.subrange(pos + 1, p + 1));
        }
        p = p + 1;
    }
    if p == pos + 1 {
        return None;
    }
    Some((name, skip_blank(s, p)))
}

/// A decimal digit's character is a digit, of that value.
proof fn lemma_digit_char(d: nat)
    requires
        d < 10,
    ensures
        is_digit(digit_char(d)),
        (digit_char(d) as int) - ('0' as int) == d,
{
}

/// The decimal text of a number is a non-empty run of digits of that value.
pub proof fn lemma_dec_digits(n: nat)
    ensures
        dec(n).len() >= 1,
        forall|k: int| 0 <= k < dec(n).len() ==> is_digit(#[trigger] dec(n)[k]),
        digits_value(dec(n)) == n,
    decreases n,
{
    if n >= 10 {
        lemma_dec_digits(n / 10);
        lemma_digit_char(n % 10);
        let d = dec(n / 10);
        assert(dec(n).drop_last() =~= d);
        assert(dec(n).last() == digit_char(n % 10));
        assert(digits_value(dec(n)) == digits_value(d) * 10 + (n % 10));
        assert(n == (n / 10) * 10 + n % 10);
        assert forall|k: int| 0 <= k < dec(n).len() implies is_digit(#[trigger] dec(n)[k]) by {
            if k < d.len() {
                assert(dec(n)[k] == d[k]);
            }
        }
    } else {
        lemma_digit_char(n);
        assert(seq![digit_char(n)].drop_last() =~= Seq::<char>::empty());
        reveal_with_fuel(digits_value, 2);
    }
}

/// A run of digits `d` at `p`, not followed by another digit, is the whole
/// run of digits there.
pub proof fn lemma_digits_run(s: Seq<char>, p: int, d: Seq<char>)
    requires
        0 <= p,
        p + d.len() <= s.len(),
        s.subrange(p, p + d.len()) == d,
        forall|k: int| 0 <= k < d.len() ==> is_digit(#[trigger] d[k]),
        p + d.len() == s.len() || !is_digit(s[p + d.len()]),
    ensures
        digits_end(s, p) == p + d.len(),
        digits_at(s, p) == digits_value(d),
    decreases d.len(),
{
    if d.len() > 0 {
        assert(s[p] == d[0]);
        let e = d.subrange(1, d.len() as int);
        assert(s.subrange(p + 1, p + 1 + e.len()) =~= e);
        assert forall|k: int| 0 <= k < e.len() implies is_digit(#[trigger] e[k]) by {
            assert(e[k] == d[k + 1]);
        }
        lemma_digits_run(s, p + 1, e);
    }
    assert(s.subrange(p, digits_end(s, p)) =~= d);
}

/// The parser reads back the name the printer writes for a value: `v` and
/// the decimal number, followed by anything that does not go on with a
/// digit.
pub proof fn lemma_value_name_read_back(n: u32, rest: Seq<char>)
    requires
        rest.len() == 0 || !is_digit(rest[0]),
    ensures
        value_at(value_name(n as nat) + rest, 0) == Some(
            (
                Value(n),
                blank_end(value_name(n as nat) + rest, value_name(n as nat).len() as int) as usize,
            ),
        ),
{
    let s = value_name(n as nat) + rest;
    let d = dec(n as nat);
    lemma_dec_digits(n as nat);
    assert(s.subrange(1, 1 + d.len() as int) =~= d);
    lemma_digits_run(s, 1, d);
    lemma_blank_end_bounds(s, 1 + d.len() as int);
}

/// The parser reads back the name the printer writes for a block: `block`
/// and the decimal number, followed by anything that does not go on with a
/// digit.
pub proof fn lemma_block_name_read_back(n: u32, rest: Seq<char>)
    requires
        rest.len() == 0 || !is_digit(rest[0]),
    ensures
        block_index_at(block_name(n as nat) + rest, 0) == Some(
            (n, blank_end(block_name(n as nat) + rest, block_name(n as nat).len() as int) as usize),
        ),
{
    reveal_strlit("block");
    let s = block_name(n as nat) + rest;
    let d = dec(n as nat);
    lemma_dec_digits(n as nat);
    assert(s.subrange(0, 5) =~= "block"@);
    assert(s.subrange(5, 5 + d.len() as int) =~= d);
    lemma_digits_run(s, 5, d);
    lemma_blank_end_bounds(s, 5 + d.len() as int);
}

/// `10^k`.
pub open spec fn pow10_nat(k: nat) -> nat
    decreases k,
{
    if k == 0 {
        1
    } else {
        10 * pow10_nat((k - 1) as nat)
    }
}

/// A number below `10^k` has at most `k` decimal digits.
pub proof fn lemma_dec_len(n: nat, k: nat)
    requires
        k >= 1,
        n < pow10_nat(k),
    ensures
        dec(n).len() <= k,
    decreases n,
{
    if n >= 10 {
        assert(k >= 2) by {
            if k == 1 {
                assert(pow10_nat(1) == 10) by {
                    reveal_with_fuel(pow10_nat, 2);
                }
            }
        }
        let p = pow10_nat((k - 1) as nat);
        assert(n / 10 < p) by (nonlinear_arith)
            requires
                n < 10 * p,
        ;
        lemma_dec_len(n / 10, (k - 1) as nat);
    }
}

/// The decimal text of a 32-bit number has at most ten digits.
pub proof fn lemma_dec_len_u32(n: u32)
    ensures
        dec(n as nat).len() <= 10,
{
    reveal_with_fuel(pow10_nat, 11);
    assert(pow10_nat(10) == 10_000_000_000);
    lemma_dec_len(n as nat, 10);
}

/// The name the printer writes for a value, found at `p` and not followed
/// by a digit, reads back as that value.
pub proof fn lemma_value_name_at(s: Seq<char>, p: int, n: u32)
    requires
        0 <= p,
        p + value_name(n as nat).len() <= s.len(),
        s.subrange(p, p + value_name(n as nat).len()) == value_name(n as nat),
        p + value_name(n as nat).len() == s.len() || !is_digit(s[p + value_name(n as nat).len()]),
    ensures
        value_at(s, p) == Some((Value(n), blank_end(s, p + value_name(n as nat).len()) as usize)),
{
    let d = dec(n as nat);
    lemma_dec_digits(n as nat);
    assert(s[p] == s.subrange(p, p + value_name(n as nat).len())[0]);
    assert(s.subrange(p + 1, p + 1 + d.len() as int) =~= d) by {
        assert forall|k: int| 0 <= k < d.len() implies s.subrange(p + 1, p + 1 + d.len() as int)[k] == d[k] by {
            assert(s.subrange(p, p + value_name(n as nat).len())[k + 1] == value_name(n as nat)[k + 1]);
        }
    }
    lemma_digits_run(s, p + 1, d);
    lemma_blank_end_bounds(s, p + 1 + d.len() as int);
}

/// The name the printer writes for a block, found at `p` and not followed
/// by a digit, reads back as that block.
pub proof fn lemma_block_name_at(s: Seq<char>, p: int, n: u32)
    requires
        0 <= p,
        p + block_name(n as nat).len() <= s.len(),
        s.subrange(p, p + block_name(n as nat).len()) == block_name(n as nat),
        p + block_name(n as nat).len() == s.len() || !is_digit(s[p + block_name(n as nat).len()]),
    ensures
        block_index_at(s, p) == Some((n, blank_end(s, p + block_name(n as nat).len()) as usize)),
{
    reveal_strlit("block");
    let d = dec(n as nat);
    lemma_dec_digits(n as nat);
    let w = block_name(n as nat);
    assert(s.subrange(p, p + 5) =~= "block"@) by {
        assert forall|k: int| 0 <= k < 5 implies s.subrange(p, p + 5)[k] == "block"@[k] by {
            assert(s.subrange(p, p + w.len())[k] == w[k]);
        }
    }
    assert(s.subrange(p + 5, p + 5 + d.len() as int) =~= d) by {
        assert forall|k: int| 0 <= k < d.len() implies s.subrange(p + 5, p + 5 + d.len() as int)[k] == d[k] by {
            assert(s.subrange(p, p + w.len())[k + 5] == w[k + 5]);
        }
    }
    lemma_digits_run(s, p + 5, d);
    lemma_blank_end_bounds(s, p + 5 + d.len() as int);
}

/// The parser reads back the name the printer writes for a type.
pub proof fn lemma_type_text_read_back(t: Type, rest: Seq<char>)
    ensures
        type_at(type_text(t) + rest, 0) == Some((t, blank_end(type_text(t) + rest, 3) as usize)),
{
    reveal_strlit("32");
    let s = type_text(t) + rest;
    assert(s.subrange(1, 3) =~= "32"@);
    lemma_blank_end_bounds(s, 3);
}

/// The parser reads back the decimal text the printer writes for an
/// integer, followed by anything that does not go on with a digit.
pub proof fn lemma_integer_text_read_back(x: i64, rest: Seq<char>)
    requires
        rest.len() == 0 || !is_digit(rest[0]),
    ensures
        integer_at(dec_int(x as int) + rest, 0) == Some(
            (x, blank_end(dec_int(x as int) + rest, dec_int(x as int).len() as int) as usize),
        ),
{
    let s = dec_int(x as int) + rest;
    if x < 0 {
        let m = (-(x as int)) as nat;
        let d = dec(m);
        lemma_dec_digits(m);
        assert(s[0] == '-');
        assert(s.subrange(1, 1 + d.len() as int) =~= d);
        lemma_digits_run(s, 1, d);
        lemma_blank_end_bounds(s, 1 + d.len() as int);
    } else {
        let d = dec(x as nat);
        lemma_dec_digits(x as nat);
        assert(is_digit(s[0]));
        assert(s.subrange(0, d.len() as int) =~= d);
        lemma_digits_run(s, 0, d);
        lemma_blank_end_bounds(s, d.len() as int);
    }
}

/// Whether a character may stand in a name.
pub fn is_name(c: char) -> (r: bool)
    ensures
        r == is_name_char(c),
{
    ('a' <= c && c <= 'z') || ('A' <= c && c <= 'Z') || ('0' <= c && c <= '9') || c == '_'
}

/// Append a character.
#[verifier::external_body]
pub(crate) fn push_char(out: &mut String, c: char)
    ensures
        final(out)@ == old(out)@.push(c),
{
    out.push(c);
}

} // verus!
