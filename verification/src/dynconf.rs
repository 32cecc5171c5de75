//! dynconf: configuration values computed by expressions written in
//! `${...}`, inside format strings.

pub mod grammar;
pub mod parser;
pub mod value;
pub mod state;
pub mod eval;
pub mod util;

use vstd::prelude::*;
use crate::dynconf::grammar::{sp_fragments, sp_lexpression, ParseErr, SExpr, SFragment};
use crate::dynconf::parser::{
    expr_view, fragments_view, lexpression, lformat_string, LExpression, LFormatString,
};
use crate::dynconf::eval::{
    eval_expression, eval_format, eval_format_string, eval_spec, result_matches, same_shape, EvalError, YamlFiles,
};
use crate::dynconf::state::{State, StateView};
use crate::dynconf::value::Value;

verus! {

/// Why a text is not an expression or a format string.
#[derive(Debug, Clone, PartialEq, Eq)]
pub enum InputError {
    /// The text does not start with what is expected.
    Failed(ParseErr),
    /// Something stands after what was read (the rest of the text).
    Trailing(String),
}

/// Reads a whole text as one expression in `${...}`.
pub fn parse_expr<'a>(input: &'a str) -> (r: Result<LExpression<'a>, InputError>)
    requires
        input@.len() < usize::MAX,
    ensures
        match sp_lexpression(input@, 0) {
            Ok((g, q)) => if q == input@.len() {
                r matches Ok(e) && expr_view(e) == g
            } else {
                r matches Err(InputError::Trailing(rest)) && rest@ == input@.subrange(q, input@.len() as int)
            },
            Err(x) => r == Err::<LExpression, InputError>(InputError::Failed(x)),
        },
{
    match lexpression(input) {
        Err(err) => Err(InputError::Failed(err)),
        Ok((rest, res)) => {
            if rest.unicode_len() == 0 {
                Ok(res)
            } else {
                Err(InputError::Trailing(crate::text::str_to_string(rest)))
            }
        },
    }
}

/// Reads a whole text as a format string.
pub fn parse_string<'a>(input: &'a str) -> (r: Result<LFormatString<'a>, InputError>)
    requires
        input@.len() < usize::MAX,
    ensures
        match sp_fragments(input@, 0, Seq::empty()) {
            Ok((g, q)) => if q == input@.len() {
                r matches Ok(f) && fragments_view(f.0@) == g
            } else {
                r matches Err(InputError::Trailing(rest)) && rest@ == input@.subrange(q, input@.len() as int)
            },
            Err(x) => r matches Err(InputError::Failed(y)) && x == y,
        },
{
    match lformat_string(input) {
        Err(err) => Err(InputError::Failed(err)),
        Ok((rest, res)) => {
            if rest.unicode_len() == 0 {
                Ok(res)
            } else {
                Err(InputError::Trailing(crate::text::str_to_string(rest)))
            }
        },
    }
}


/// Why a text could not be evaluated.
#[derive(Debug, Clone, PartialEq, Eq)]
pub enum DynError {
    /// The text does not parse.
    Input(InputError),
    /// Evaluating it failed.
    Eval(EvalError),
}

/// Parses a whole text as an expression in `${...}` and evaluates it
/// (see `parse_expr` and `eval_spec`).
pub fn eval_expr<Y: YamlFiles>(state: &mut State, input: &str, files: &mut Y) -> (r: Result<Value, DynError>)
    requires
        input@.len() < usize::MAX,
    ensures
        same_shape(old(state)@, final(state)@),
        match sp_lexpression(input@, 0) {
            Ok((g, q)) => if q == input@.len() {
                eval_spec(g, old(state)@) matches Some(res) ==> final(state)@ == old(state)@ && match res {
                    Ok(t) => (r matches Ok(v) && v@ == t),
                    Err(f) => (r matches Err(DynError::Eval(e)) && e@ == f),
                }
            } else {
                final(state)@ == old(state)@ && (r matches Err(DynError::Input(InputError::Trailing(_))))
            },
            Err(x) => final(state)@ == old(state)@ && r == Err::<Value, DynError>(DynError::Input(InputError::Failed(x))),
        },
{
    let expr = match parse_expr(input) {
        Ok(e) => e,
        Err(e) => { return Err(DynError::Input(e)); },
    };
    match eval_expression(&expr, state, files) {
        Ok(v) => Ok(v),
        Err(e) => Err(DynError::Eval(e)),
    }
}

/// What evaluating `input` as a whole format string in state `st` gives,
/// where it reads no file: the error of reading it, or its text, or the
/// error of evaluating it.
pub open spec fn format_outcome(input: Seq<char>, st: StateView, r: Result<String, DynError>) -> bool {
    match sp_fragments(input, 0, Seq::empty()) {
        Ok((g, q)) => if q == input.len() {
            eval_format(g, st, g.len() as int) matches Some(res) ==> match res {
                Ok(t) => (r matches Ok(s) && s@ == t),
                Err(f) => (r matches Err(DynError::Eval(e)) && e@ == f),
            }
        } else {
            r matches Err(DynError::Input(InputError::Trailing(_)))
        },
        Err(x) => (r matches Err(DynError::Input(InputError::Failed(y))) && x == y),
    }
}

/// Whether evaluating `input` as a whole format string in state `st` reads
/// no file.
pub open spec fn format_reads_no_file(input: Seq<char>, st: StateView) -> bool {
    match sp_fragments(input, 0, Seq::empty()) {
        Ok((g, q)) => q != input.len() || eval_format(g, st, g.len() as int) is Some,
        Err(_) => true,
    }
}

/// Parses a whole text as a format string and evaluates it to a text
/// (see `parse_string` and `eval_format`).
pub fn eval_string<Y: YamlFiles>(state: &mut State, input: &str, files: &mut Y) -> (r: Result<String, DynError>)
    requires
        input@.len() < usize::MAX,
    ensures
        same_shape(old(state)@, final(state)@),
        format_outcome(input@, old(state)@, r),
        format_reads_no_file(input@, old(state)@) ==> final(state)@ == old(state)@,
{
    let f = match parse_string(input) {
        Ok(f) => f,
        Err(e) => { return Err(DynError::Input(e)); },
    };
    proof {
        assert(fragments_view(f.0@).len() == f.0@.len());
    }
    match eval_format_string(&f, state, files) {
        Ok(Value::String(s)) => Ok(s),
        Ok(_) => vstd::pervasive::unreached(),
        Err(e) => Err(DynError::Eval(e)),
    }
}

} // verus!
