//! The text of verifier errors, as they are reported.
//!
//! An error reads `VerifierError { message: "..", location: Some("..") }`
//! (or `location: None`), and a list of errors reads `[e1, e2, ..]`.
//! Inside the quotes, quotes, backslashes, line feeds, carriage returns and
//! tabs are written with a backslash.

use vstd::prelude::*;

use crate::{
    ir_verifier::{err_view, errs_view, ErrView, VerifierError},
    parser::lexer::push_char,
    text::push_str,
};

verus! {

/// How a character stands between quotes.
pub open spec fn escaped_char(c: char) -> Seq<char> {
    if c == '"' {
        seq!['\\', '"']
    } else if c == '\\' {
        seq!['\\', '\\']
    } else if c == '\n' {
        seq!['\\', 'n']
    } else if c == '\r' {
        seq!['\\', 'r']
    } else if c == '\t' {
        seq!['\\', 't']
    } else {
        seq![c]
    }
}

/// The characters of `s`, each as it stands between quotes.
pub open spec fn escaped(s: Seq<char>) -> Seq<char>
    decreases s.len(),
{
    if s.len() == 0 {
        seq![]
    } else {
        escaped(s.drop_last()) + escaped_char(s.last())
    }
}

/// `s` between quotes.
pub open spec fn quoted(s: Seq<char>) -> Seq<char> {
    seq!['"'] + escaped(s) + seq!['"']
}

/// The text of one error.
pub open spec fn error_text(e: ErrView) -> Seq<char> {
    "VerifierError { message: "@ + quoted(e.0) + ", location: "@ + match e.1 {
        Some(l) => "Some("@ + quoted(l) + ")"@,
        None => "None"@,
    } + " }"@
}

/// The texts of the errors, separated by `, `.
pub open spec fn error_list_body(es: Seq<ErrView>) -> Seq<char>
    decreases es.len(),
{
    if es.len() == 0 {
        seq![]
    } else if es.len() == 1 {
        error_text(es[0])
    } else {
        error_list_body(es.drop_last()) + ", "@ + error_text(es.last())
    }
}

/// The text of a list of errors, in square brackets.
pub open spec fn error_list_text(es: Seq<ErrView>) -> Seq<char> {
    "["@ + error_list_body(es) + "]"@
}

/// Append `s` between quotes.
fn push_quoted(out: &mut String, s: &str)
    ensures
        final(out)@ == old(out)@ + quoted(s@),
{
    let ghost start = out@;
    push_char(out, '"');
    let n = s.unicode_len();
    let mut i: usize = 0;
    while i < n
        invariant
            n == s@.len(),
            i <= n,
            out@ == start + seq!['"'] + escaped(s@.subrange(0, i as int)),
        decreases n - i,
    {
        let c = s.get_char(i);
        let ghost before = out@;
        if c == '"' {
            push_char(out, '\\');
            push_char(out, '"');
        } else if c == '\\' {
            push_char(out, '\\');
            push_char(out, '\\');
        } else if c == '\n' {
            push_char(out, '\\');
            push_char(out, 'n');
        } else if c == '\r' {
            push_char(out, '\\');
            push_char(out, 'r');
        } else if c == '\t' {
            push_char(out, '\\');
            push_char(out, 't');
        } else {
            push_char(out, c);
        }
        proof {
            assert(out@ =~= before + escaped_char(c));
            let t = s@.subrange(0, i + 1);
            assert(t.drop_last() =~= s@.subrange(0, i as int));
            assert(t.last() == c);
        }
        i = i + 1;
    }
    push_char(out, '"');
    proof {
        assert(s@.subrange(0, n as int) =~= s@);
        assert(out@ =~= start + quoted(s@));
    }
}

impl VerifierError {
    /// The text of this error.
    pub fn to_text(&self) -> (r: String)
        ensures
            r@ == error_text(err_view(*self)),
    {
        let mut out = String::new();
        self.push_text(&mut out);
        proof {
            assert(out@ =~= error_text(err_view(*self)));
        }
        out
    }

    /// Append the text of this error.
    fn push_text(&self, out: &mut String)
        ensures
            final(out)@ == old(out)@ + error_text(err_view(*self)),
    {
        let ghost start = out@;
        push_str(out, "VerifierError { message: ");
        push_quoted(out, self.message.as_str());
        push_str(out, ", location: ");
        match &self.location {
            Some(l) => {
                push_str(out, "Some(");
                push_quoted(out, l.as_str());
                push_str(out, ")");
            },
            None => {
                push_str(out, "None");
            },
        }
        push_str(out, " }");
        proof {
            assert(out@ =~= start + error_text(err_view(*self)));
        }
    }
}

/// The text of a list of errors.
pub fn errors_text(errors: &Vec<VerifierError>) -> (r: String)
    ensures
        r@ == error_list_text(errs_view(errors@)),
{
    let mut out = String::new();
    push_str(&mut out, "[");
    let ghost start = out@;
    let mut i: usize = 0;
    while i < errors.len()
        invariant
            i <= errors@.len(),
            out@ == start + error_list_body(errs_view(errors@.subrange(0, i as int))),
        decreases errors@.len() - i,
    {
        let ghost before = out@;
        if i > 0 {
            push_str(&mut out, ", ");
        }
        errors[i].push_text(&mut out);
        proof {
            let es = errs_view(errors@.subrange(0, i + 1));
            assert(es.drop_last() =~= errs_view(errors@.subrange(0, i as int)));
            assert(es.last() == err_view(errors@[i as int]));
            if i == 0 {
                assert(es.len() == 1);
                assert(es[0] == err_view(errors@[0]));
            }
        }
        i = i + 1;
    }
    push_str(&mut out, "]");
    proof {
        assert(errors@.subrange(0, errors@.len() as int) =~= errors@);
        assert(out@ =~= error_list_text(errs_view(errors@)));
    }
    out
}

} // verus!
