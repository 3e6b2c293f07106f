//! Parser for IR text format (Cranelift CLIF-style).

pub mod lexer;
pub mod float;
pub mod instructions;
pub mod validation;
pub mod function;
pub mod module;
pub mod inst_converter;

use vstd::prelude::*;

use crate::{
    entity::Block,
    function::Function,
    module::Module,
    parser::{
        function::{function_read, simple_float_constants, read_function, within_limits},
        lexer::{blank_end, chars_of, is_space, push_char},
        module::{functions_read, module_entry, module_open, module_read, read_module},
        validation::{
            args_msg, bad_args, bad_end, bad_return, bad_target, data_at, earlier, empty_msg, entry_msg,
            index_msg, param_count, return_msg, scoping_msg, ssa_ok, targets_of, unterminated_msg, uses_ok,
            validate_block_indices, validate_block_parameters, validate_entry_block,
            validate_return_values, validate_terminating_instructions, validate_value_scoping,
        },
    },
    text::push_str,
};

verus! {

/// A parse error: what went wrong, and where, as a position in the trimmed
/// input (0 for a failed check of the parsed function).
#[derive(Debug, Clone)]
pub struct ParseError {
    /// What went wrong
    pub message: String,
    /// Position in the trimmed input
    pub position: usize,
}

/// What the checks of a parsed function require of it: jumps and branches
/// to blocks of the layout, with as many arguments as their blocks have
/// parameters; returns with as many values as the signature; every block
/// ending with a terminator; an entry block with the signature's
/// parameters; no value defined twice in a block; and every use in a
/// reachable block in the scope of its definition.
pub open spec fn function_valid(f: &Function) -> bool {
    &&& !exists|k: int, q: int, j: int| bad_target(f, k, q, j)
    &&& !exists|k: int, q: int, j: int| bad_args(f, k, q, j)
    &&& !exists|k: int, q: int| bad_return(f, k, q)
    &&& !exists|k: int| bad_end(f, k)
    &&& (f.layout@.order.len() > 0 ==> param_count(f, Block(f.layout@.order[0] as u32))
        == f.signature.params@.len())
    &&& ssa_ok(f)
    &&& uses_ok(f)
}

/// `start` is where the text `s` starts once its leading whitespace is
/// skipped.
pub open spec fn text_start(s: Seq<char>, start: int) -> bool {
    &&& 0 <= start <= s.len()
    &&& forall|i: int| 0 <= i < start ==> is_space(#[trigger] s[i])
    &&& start < s.len() ==> !is_space(s[start])
}

/// Where the text starts once its leading whitespace is skipped is one place.
proof fn lemma_text_start_unique(s: Seq<char>, a: int, b: int)
    requires
        text_start(s, a),
        text_start(s, b),
    ensures
        a == b,
{
    if a < b {
        assert(is_space(s[a]));
    } else if b < a {
        assert(is_space(s[b]));
    }
}

/// The start of the message for input left over.
pub open spec fn remaining_prefix() -> Seq<char> {
    "Unexpected input remaining: "@
}

/// `m` is the message of the first check that `f` fails, the checks taken
/// in turn: block indices, block parameters, return values, terminators,
/// the entry block, value scoping. Each check reports the first fault it
/// finds in layout order.
pub open spec fn check_failure(f: &Function, m: Seq<char>) -> bool {
    if exists|k: int, q: int, j: int| bad_target(f, k, q, j) {
        exists|k: int, q: int, j: int|
            bad_target(f, k, q, j) && m == index_msg(
                targets_of(data_at(f, k, q))[j].0.0 as nat,
                f.layout@.order.len(),
            ) && forall|k2: int, q2: int, j2: int| #[trigger] earlier(k2, q2, j2, k, q, j) ==> !bad_target(f, k2, q2, j2)
    } else if exists|k: int, q: int, j: int| bad_args(f, k, q, j) {
        exists|k: int, q: int, j: int|
            bad_args(f, k, q, j) && m == args_msg(
                targets_of(data_at(f, k, q))[j].0.0 as nat,
                param_count(f, targets_of(data_at(f, k, q))[j].0),
                targets_of(data_at(f, k, q))[j].1.len(),
            ) && forall|k2: int, q2: int, j2: int| #[trigger] earlier(k2, q2, j2, k, q, j) ==> !bad_args(f, k2, q2, j2)
    } else if exists|k: int, q: int| bad_return(f, k, q) {
        exists|k: int, q: int|
            bad_return(f, k, q) && m == return_msg(
                f.block_at(k) as nat,
                data_at(f, k, q).args.len(),
                f.signature.returns@.len(),
            ) && forall|k2: int, q2: int| #[trigger] earlier(k2, q2, 0, k, q, 0) ==> !bad_return(f, k2, q2)
    } else if exists|k: int| bad_end(f, k) {
        exists|k: int|
            bad_end(f, k) && m == (if f.len_at(k) == 0 {
                empty_msg(f.block_at(k) as nat)
            } else {
                unterminated_msg(f.block_at(k) as nat)
            }) && forall|k2: int| 0 <= k2 < k ==> !#[trigger] bad_end(f, k2)
    } else if f.layout@.order.len() > 0 && param_count(f, Block(f.layout@.order[0] as u32))
        != f.signature.params@.len() {
        m == entry_msg(param_count(f, Block(f.layout@.order[0] as u32)), f.signature.params@.len())
    } else {
        scoping_msg(f, m)
    }
}

/// A function that fails a check is not valid.
pub proof fn lemma_check_failure_invalid(f: &Function, m: Seq<char>)
    requires
        check_failure(f, m),
    ensures
        !function_valid(f),
{
}

/// The position of the first character that is not whitespace, at or after `pos`.
fn skip_space(s: &Vec<char>, pos: usize) -> (r: usize)
    requires
        pos <= s@.len(),
    ensures
        pos <= r <= s@.len(),
        forall|i: int| pos <= i < r ==> is_space(#[trigger] s@[i]),
        r < s@.len() ==> !is_space(s@[r as int]),
{
    let mut p = pos;
    while p < s.len() && (s[p] == ' ' || s[p] == '\t' || s[p] == '\n' || s[p] == '\r')
        invariant
            pos <= p <= s@.len(),
            forall|i: int| pos <= i < p ==> is_space(#[trigger] s@[i]),
        decreases s@.len() - p,
    {
        p = p + 1;
    }
    p
}

/// The end of the input without its trailing whitespace.
fn trimmed_end(s: &Vec<char>) -> (r: usize)
    ensures
        r <= s@.len(),
        forall|i: int| r <= i < s@.len() ==> is_space(#[trigger] s@[i]),
        r > 0 ==> !is_space(s@[r - 1]),
{
    let mut e = s.len();
    while e > 0 && (s[e - 1] == ' ' || s[e - 1] == '\t' || s[e - 1] == '\n' || s[e - 1] == '\r')
        invariant
            e <= s@.len(),
            forall|i: int| e <= i < s@.len() ==> is_space(#[trigger] s@[i]),
        decreases e,
    {
        e = e - 1;
    }
    e
}

/// The error for input left over after a complete function or module: the
/// leftover text, up to the end of the trimmed input.
fn remaining_error(s: &Vec<char>, start: usize, p: usize) -> (r: ParseError)
    requires
        start <= p <= s@.len(),
    ensures
        r.position == p - start,
        r.message@.len() >= remaining_prefix().len(),
        r.message@.subrange(0, remaining_prefix().len() as int) == remaining_prefix(),
{
    let end = trimmed_end(s);
    let mut message = String::new();
    push_str(&mut message, "Unexpected input remaining: ");
    let mut i = p;
    while i < end
        invariant
            p <= i,
            end <= s@.len(),
            message@.len() >= remaining_prefix().len(),
            message@.subrange(0, remaining_prefix().len() as int) == remaining_prefix(),
        decreases end - i,
    {
        let ghost before = message@;
        push_char(&mut message, s[i]);
        proof {
            assert(message@.subrange(0, remaining_prefix().len() as int) =~= before.subrange(
                0,
                remaining_prefix().len() as int,
            ));
        }
        i = i + 1;
    }
    ParseError { message, position: p - start }
}

/// The error for input that is not a function or module at all.
fn syntax_error(what: &str) -> (r: ParseError)
    ensures
        r.message@ == "Parse error: expected "@ + what@,
        r.position == 0,
{
    let mut message = String::new();
    push_str(&mut message, "Parse error: expected ");
    push_str(&mut message, what);
    ParseError { message, position: 0 }
}

/// The error for a check of the parsed function that failed.
fn check_error(message: String) -> (r: ParseError)
    ensures
        r.message == message,
        r.position == 0,
{
    ParseError { message, position: 0 }
}

/// Parse a function from IR text and check it.
///
/// Surrounding whitespace is ignored, and so are blanks and comments after
/// the function; the function returned is the one read from the text after
/// the leading whitespace up to its end. The parsed function is checked in
/// turn for its block indices, block parameters, return values,
/// terminators, entry block and value scoping; the first check that fails
/// gives the error, at position 0. Text that reads as a function up to its
/// end is never refused as a syntax error or for leftover input, where the
/// reading of each of its float constants is fixed (`float_determined`: all
/// but decimals whose mantissa, fraction or exponent exceed what
/// `decimal_in_range` allows) and it stays within the parser's limits on
/// blocks and instructions.
#[verifier::rlimit(30)]
pub fn parse_function(input: &str) -> (r: Result<Function, ParseError>)
    ensures
        r matches Ok(f) ==> f.wf() && function_valid(&f),
        r matches Ok(f) ==> exists|start: usize|
            text_start(input@, start as int) && #[trigger] function_read(input@, start, 0, f, input@.len() as usize),
        r matches Err(e) ==> {
            ||| (e.position == 0 && e.message@ == "Parse error: expected a function"@)
            ||| exists|start: usize, f: Function, p: usize|
                text_start(input@, start as int) && #[trigger] function_read(input@, start, 0, f, p) && p < input@.len()
                    && e.position == p - start && e.message@.len() >= remaining_prefix().len()
                    && e.message@.subrange(0, remaining_prefix().len() as int) == remaining_prefix()
            ||| exists|start: usize, f: Function|
                text_start(input@, start as int) && #[trigger] function_read(input@, start, 0, f, input@.len() as usize)
                    && f.wf() && e.position == 0 && check_failure(&f, e.message@)
        },
        (exists|start: usize, f: Function|
            text_start(input@, start as int) && #[trigger] function_read(input@, start, 0, f, input@.len() as usize)
                && within_limits(f)) && simple_float_constants(input@) ==> (r is Ok || (r matches Err(e) && e.position
            == 0 && exists|start: usize, g: Function|
            text_start(input@, start as int) && #[trigger] function_read(input@, start, 0, g, input@.len() as usize)
                && check_failure(&g, e.message@) && !function_valid(&g))),
{
    proof {
        reveal_strlit("Parse error: expected ");
        reveal_strlit("a function");
        reveal_strlit("Parse error: expected a function");
    }
    let s = chars_of(input);
    let start = skip_space(&s, 0);
    proof {
        assert(text_start(input@, start as int));
    }
    proof {
        if exists|st: usize, f: Function|
            text_start(input@, st as int) && #[trigger] function_read(input@, st, 0, f, input@.len() as usize)
                && within_limits(f) {
            let (st, f) = choose|st: usize, f: Function|
                text_start(input@, st as int) && #[trigger] function_read(input@, st, 0, f, input@.len() as usize)
                    && within_limits(f);
            lemma_text_start_unique(input@, st as int, start as int);
            assert(s@ == input@);
            assert(function_read(s@, start, 0, f, s@.len() as usize) && within_limits(f));
        }
    }
    match read_function(&s, start, 0, Ghost(s@.len() as usize)) {
        None => {
            let e = syntax_error("a function");
            proof {
                assert(e.message@ =~= "Parse error: expected a function"@);
            }
            Err(e)
        },
        Some((func, p)) => {
            if p < s.len() {
                let e = remaining_error(&s, start, p);
                proof {
                    assert(function_read(input@, start, 0, func, p));
                }
                return Err(e);
            }
            proof {
                assert(function_read(input@, start, 0, func, input@.len() as usize));
            }
            if let Err(m) = validate_block_indices(&func) {
                let e = check_error(m);
                proof {
                    if check_failure(&func, e.message@) {
                        lemma_check_failure_invalid(&func, e.message@);
                    }
                }
                return Err(e);
            }
            if let Err(m) = validate_block_parameters(&func) {
                let e = check_error(m);
                proof {
                    if check_failure(&func, e.message@) {
                        lemma_check_failure_invalid(&func, e.message@);
                    }
                }
                return Err(e);
            }
            if let Err(m) = validate_return_values(&func) {
                let e = check_error(m);
                proof {
                    if check_failure(&func, e.message@) {
                        lemma_check_failure_invalid(&func, e.message@);
                    }
                }
                return Err(e);
            }
            if let Err(m) = validate_terminating_instructions(&func) {
                let e = check_error(m);
                proof {
                    if check_failure(&func, e.message@) {
                        lemma_check_failure_invalid(&func, e.message@);
                    }
                }
                return Err(e);
            }
            if let Err(m) = validate_entry_block(&func) {
                let e = check_error(m);
                proof {
                    if check_failure(&func, e.message@) {
                        lemma_check_failure_invalid(&func, e.message@);
                    }
                }
                return Err(e);
            }
            if let Err(m) = validate_value_scoping(&func) {
                let e = check_error(m);
                proof {
                    if check_failure(&func, e.message@) {
                        lemma_check_failure_invalid(&func, e.message@);
                    }
                }
                return Err(e);
            }
            Ok(func)
        },
    }
}

/// Parse a complete module from IR text.
///
/// Surrounding whitespace is ignored, and so are blanks and comments after
/// the module. The module returned has the entry named in the text, and
/// functions read from it, each under its own name. Text that reads as a
/// module up to its end (`module_read`, with float constants in the forms
/// `float_determined` fixes) is parsed. The functions of a module are
/// not checked.
pub fn parse_module(input: &str) -> (r: Result<Module, ParseError>)
    ensures
        r matches Ok(m) ==> m.wf(),
        r matches Ok(m) ==> exists|start: int|
            text_start(input@, start) && module_open(input@, start) is Some && m.entry_name() == module_entry(
                input@,
                module_open(input@, start).unwrap() as int,
            ) && functions_read(input@, start, m) && module_closed(input@, module_open(input@, start).unwrap() as int),
        r matches Err(e) ==> {
            ||| (e.position == 0 && e.message@ == "Parse error: expected a module"@)
            ||| (e.message@.len() >= remaining_prefix().len() && e.message@.subrange(
                0,
                remaining_prefix().len() as int,
            ) == remaining_prefix())
        },
        (exists|start: usize, w: (Seq<usize>, Seq<usize>, Seq<Function>, int)|
            text_start(input@, start as int) && #[trigger] module_read(input@, start as int, w.0, w.1, w.2, w.3)
                && blank_end(input@, w.3 + 1) == input@.len()) && simple_float_constants(input@) ==> r is Ok,
{
    proof {
        reveal_strlit("Parse error: expected ");
        reveal_strlit("a module");
        reveal_strlit("Parse error: expected a module");
    }
    let s = chars_of(input);
    let start = skip_space(&s, 0);
    let ghost sw = choose|sw: (usize, (Seq<usize>, Seq<usize>, Seq<Function>, int))|
        text_start(input@, sw.0 as int) && #[trigger] module_read(input@, sw.0 as int, sw.1.0, sw.1.1, sw.1.2, sw.1.3)
            && blank_end(input@, sw.1.3 + 1) == input@.len();
    proof {
        assert(text_start(input@, start as int));
        if exists|st: usize, w: (Seq<usize>, Seq<usize>, Seq<Function>, int)|
            text_start(input@, st as int) && #[trigger] module_read(input@, st as int, w.0, w.1, w.2, w.3)
                && blank_end(input@, w.3 + 1) == input@.len() {
            let (st, w) = choose|st: usize, w: (Seq<usize>, Seq<usize>, Seq<Function>, int)|
                text_start(input@, st as int) && #[trigger] module_read(input@, st as int, w.0, w.1, w.2, w.3)
                    && blank_end(input@, w.3 + 1) == input@.len();
            let sw2 = (st, w);
            assert(text_start(input@, sw2.0 as int) && module_read(input@, sw2.0 as int, sw2.1.0, sw2.1.1, sw2.1.2, sw2.1.3)
                && blank_end(input@, sw2.1.3 + 1) == input@.len());
            lemma_text_start_unique(input@, sw.0 as int, start as int);
            assert(s@ == input@);
        }
    }
    match read_module(&s, start, Ghost(sw.1)) {
        None => {
            let e = syntax_error("a module");
            proof {
                assert(e.message@ =~= "Parse error: expected a module"@);
            }
            Err(e)
        },
        Some((module, p)) => {
            if p < s.len() {
                return Err(remaining_error(&s, start, p));
            }
            proof {
                assert(s@ == input@);
                assert(functions_read(input@, start as int, module));
                assert(module_open(input@, start as int) is Some);
                assert(module.entry_name() == module_entry(input@, module_open(input@, start as int).unwrap() as int));
                assert(text_start(input@, start as int));
                let c = choose|c: int|
                    module_open(s@, start as int).unwrap() <= c < s@.len() && s@[c] == '}' && p == blank_end(s@, c + 1);
                assert(module_closed(input@, module_open(input@, start as int).unwrap() as int));
            }
            Ok(module)
        },
    }
}

/// A `}` closes the module after `open`, followed only by blanks.
pub open spec fn module_closed(s: Seq<char>, open: int) -> bool {
    exists|c: int| open <= c < s.len() && s[c] == '}' && blank_end(s, c + 1) == s.len()
}

} // verus!
