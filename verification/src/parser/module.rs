//! Module parser.

use vstd::prelude::*;

use crate::{
    function::Function,
    module::Module,
    parser::{
        function::{function_read, read_function, simple_float_constants, within_limits},
        instructions::{char_at, name_at, tok_at, Parsed},
        lexer::{blank_end, has_at, lemma_blank_end_bounds, parse_function_name, skip_blank, tok, tok_char},
    },
};

verus! {

/// Where the body of a module at `pos` starts: after `module` and `{`.
pub open spec fn module_open(s: Seq<char>, pos: int) -> Option<usize> {
    match tok_at(s, pos, "module"@) {
        Some(p) => char_at(s, p as int, '{'),
        None => None,
    }
}

/// The entry function's name given by `entry: %name` at `p`, if it is there.
pub open spec fn module_entry(s: Seq<char>, p: int) -> Option<Seq<char>> {
    match tok_at(s, p, "entry"@) {
        Some(p1) => match char_at(s, p1 as int, ':') {
            Some(p2) => match name_at(s, p2 as int) {
                Some((n, _)) => Some(n),
                None => None,
            },
            None => None,
        },
        None => None,
    }
}

/// Where the functions of a module whose body starts at `open` start:
/// after `entry: %name` where `entry` is there (none when it is there but
/// incomplete), else at `open`.
pub open spec fn module_body(s: Seq<char>, open: int) -> Option<usize> {
    match tok_at(s, open, "entry"@) {
        Some(p1) => match char_at(s, p1 as int, ':') {
            Some(p2) => match name_at(s, p2 as int) {
                Some((_, p3)) => Some(p3),
                None => None,
            },
            None => None,
        },
        None => Some(open as usize),
    }
}

/// Whether the text at `pos` reads as a module: `module {`, an optional
/// entry, then functions `fns` starting at `fs` and ending at `fes`, each
/// named by its position where it has no name and within the parser's
/// limits, and `}` at `close`.
pub open spec fn module_read(
    s: Seq<char>,
    pos: int,
    fs: Seq<usize>,
    fes: Seq<usize>,
    fns: Seq<Function>,
    close: int,
) -> bool {
    &&& module_open(s, pos) is Some
    &&& module_body(s, module_open(s, pos).unwrap() as int) is Some
    &&& fs.len() == fns.len() && fes.len() == fns.len()
    &&& forall|i: int|
        0 <= i < fs.len() ==> #[trigger] fs[i] == blank_end(
            s,
            if i == 0 {
                module_body(s, module_open(s, pos).unwrap() as int).unwrap() as int
            } else {
                fes[i - 1] as int
            },
        )
    &&& forall|i: int|
        0 <= i < fs.len() ==> #[trigger] function_read(s, fs[i], i as usize, fns[i], fes[i]) && within_limits(fns[i])
    &&& close == blank_end(
        s,
        if fs.len() == 0 {
            module_body(s, module_open(s, pos).unwrap() as int).unwrap() as int
        } else {
            fes[fs.len() - 1] as int
        },
    )
    &&& 0 <= close < s.len() && s[close] == '}'
}

/// Whether each function of `m` was read from the text `s`, after `pos`,
/// and is held under its own name.
pub open spec fn functions_read(s: Seq<char>, pos: int, m: Module) -> bool {
    forall|i: int|
        0 <= i < m.funcs().len() ==> m.names()[i] == (#[trigger] m.funcs()[i]).name@ && exists|
            a: usize,
            b: usize,
            anon: usize,
        | pos < a && function_read(s, a, anon, m.funcs()[i], b)
}

/// Parse a module: `module {`, optionally `entry: %name`, then functions,
/// and `}`. A function without a name is named `anon_<k>`, where `k` is
/// its position among the functions of the module. A function with the name
/// of an earlier one replaces it.
pub fn parse_module_internal(s: &Vec<char>, pos: usize) -> (r: Parsed<Module>)
    requires
        pos <= s@.len(),
    ensures
        r matches Some((m, p)) ==> pos < p <= s@.len() && m.wf(),
        r matches Some((m, _)) ==> module_open(s@, pos as int) is Some && m.entry_name() == module_entry(
            s@,
            module_open(s@, pos as int).unwrap() as int,
        ) && functions_read(s@, pos as int, m),
        r matches Some((_, p)) ==> exists|c: int|
            module_open(s@, pos as int).unwrap() <= c < s@.len() && s@[c] == '}' && p == blank_end(s@, c + 1),
        (exists|w: (Seq<usize>, Seq<usize>, Seq<Function>, int)| #[trigger] module_read(s@, pos as int, w.0, w.1, w.2, w.3))
            && simple_float_constants(s@) ==> r is Some,
{
    let ghost w = choose|w: (Seq<usize>, Seq<usize>, Seq<Function>, int)| #[trigger] module_read(s@, pos as int, w.0, w.1, w.2, w.3);
    read_module(s, pos, Ghost(w))
}

/// Read a module as `parse_module_internal` does; where the text reads as
/// the module `w` describes, it ends after its closing brace and blanks.
pub(crate) fn read_module(s: &Vec<char>, pos: usize, Ghost(w): Ghost<(Seq<usize>, Seq<usize>, Seq<Function>, int)>) -> (r: Parsed<Module>)
    requires
        pos <= s@.len(),
    ensures
        module_read(s@, pos as int, w.0, w.1, w.2, w.3) && simple_float_constants(s@) ==> (r matches Some((_, p))
            && p == blank_end(s@, w.3 + 1)),
        r matches Some((m, p)) ==> pos < p <= s@.len() && m.wf(),
        r matches Some((m, _)) ==> module_open(s@, pos as int) is Some && m.entry_name() == module_entry(
            s@,
            module_open(s@, pos as int).unwrap() as int,
        ) && functions_read(s@, pos as int, m),
        r matches Some((_, p)) ==> exists|c: int|
            module_open(s@, pos as int).unwrap() <= c < s@.len() && s@[c] == '}' && p == blank_end(s@, c + 1),
{
    let ghost has_w = module_read(s@, pos as int, w.0, w.1, w.2, w.3) && simple_float_constants(s@);
    let ghost wfs = w.0;
    let ghost wfes = w.1;
    let ghost close = w.3;
    let p = tok(s, pos, "module")?;
    let mut p = tok_char(s, p, '{')?;
    let ghost open = p;
    proof {
        reveal_strlit("module");
        reveal_strlit("entry");
        reveal_strlit("function");
    }
    let mut entry: Option<String> = None;
    if let Some(p1) = tok(s, p, "entry") {
        let p2 = tok_char(s, p1, ':')?;
        let (name, p3) = parse_function_name(s, p2)?;
        entry = Some(name);
        p = p3;
        proof {
            lemma_blank_end_bounds(s@, open + 5);
            lemma_blank_end_bounds(s@, p1 + 1);
        }
    }
    assert(match entry {
        Some(n) => module_entry(s@, open as int) == Some(n@),
        None => module_entry(s@, open as int) is None,
    });
    assert(has_w ==> p == module_body(s@, open as int).unwrap());
    let mut module = Module::new();
    let mut anon: usize = 0;
    loop
        invariant_except_break
            has_w ==> p == (if anon == 0 {
                module_body(s@, open as int).unwrap()
            } else {
                wfes[anon - 1]
            }),
        invariant
            pos < p <= s@.len(),
            open <= p,
            module.wf(),
            anon <= p,
            module.entry_name() is None,
            functions_read(s@, pos as int, module),
            has_w == (module_read(s@, pos as int, w.0, w.1, w.2, w.3) && simple_float_constants(s@)),
            wfs == w.0 && wfes == w.1 && close == w.3,
            has_w ==> open == module_open(s@, pos as int).unwrap(),
            has_w ==> anon <= wfs.len(),
        ensures
            pos < p <= s@.len(),
            open <= p,
            module.wf(),
            module.entry_name() is None,
            functions_read(s@, pos as int, module),
            p < s@.len() && s@[p as int] == '}',
            has_w ==> p == close,
        decreases s@.len() - p,
    {
        let prev = p;
        p = skip_blank(s, p);
        proof {
            if has_w {
                if anon < wfs.len() {
                    let i = anon as int;
                    assert(module_read(s@, pos as int, w.0, w.1, w.2, w.3));
                    assert(w.0[i] == blank_end(
                        s@,
                        if i == 0 {
                            module_body(s@, module_open(s@, pos as int).unwrap() as int).unwrap() as int
                        } else {
                            w.1[i - 1] as int
                        },
                    ));
                    assert(function_read(s@, w.0[i], i as usize, w.2[i], w.1[i]));
                    assert(i as usize == anon);
                    assert(has_at(s@, p as int, "function"@));
                    reveal_strlit("function");
                    assert(s@[p as int] == s@.subrange(p as int, p + 8)[0]);
                } else {
                    assert(p == close);
                }
            }
        }
        if p < s.len() && s[p] == '}' {
            break ;
        }
        let (func, p2) = read_function(s, p, anon, Ghost(if has_w { wfes[anon as int] } else { 0 }))?;
        proof {
            if has_w {
                assert(anon < wfs.len());
                assert(p2 == wfes[anon as int]);
            }
        }
        let name = func.name.clone();
        let ghost before = module;
        module.add_function(name, func);
        proof {
            before.lemma_names_funcs();
            module.lemma_names_funcs();
            assert(name@ == func.name@);
            assert forall|i: int| 0 <= i < module.funcs().len() implies module.names()[i] == (
            #[trigger] module.funcs()[i]).name@ && exists|a: usize, b: usize, k: usize|
                pos < a && function_read(s@, a, k, module.funcs()[i], b) by {
                let fresh = if before.names().contains(name@) {
                    i == before.names().index_of(name@)
                } else {
                    i == before.funcs().len()
                };
                if fresh {
                    if before.names().contains(name@) {
                        assert(before.names()[i] == name@);
                    }
                    assert(module.funcs()[i] == func);
                    assert(function_read(s@, p, anon, func, p2));
                } else {
                    assert(before.funcs()[i] == module.funcs()[i]);
                    assert(before.names()[i] == module.names()[i]);
                }
            }
        }
        anon = anon + 1;
        p = p2;
    }
    let ghost closing = p;
    let after = tok_char(s, p, '}');
    let p = match after {
        Some(q) => q,
        None => {
            return None;
        },
    };
    proof {
        assert(open <= closing);
        assert(s@[closing as int] == '}');
        lemma_blank_end_bounds(s@, closing + 1);
        assert(s@.len() == s.len());
        assert(module_open(s@, pos as int).unwrap() == open);
        assert(p == blank_end(s@, closing + 1));
    }
    if let Some(name) = entry {
        module.set_entry(name);
    }
    Some((module, p))
}

} // verus!
