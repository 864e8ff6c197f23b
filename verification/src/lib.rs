//! A small interpreter for a Lisp: it reads one form from a text, evaluates
//! it in an environment of nested scopes and writes the result back as text.

use crate::env::{Env, Scopes};
use crate::error::{message_text, outcome_view, Failure, LispError};
use crate::eval::{eval, eval_term};
use crate::printer::{print_str, print_term};
use crate::reader::{read_str, read_text};
use crate::types::{LispTerm, Term};
use vstd::prelude::*;

pub mod env;
pub mod error;
pub mod eval;
pub mod number;
pub mod printer;
pub mod reader;
pub mod text;
pub mod theorems;
pub mod tokenizer;
pub mod types;
pub mod writing;

verus! {

/// The text that stands for an outcome: that of the term, or the message of
/// the failure. The two share one channel.
pub open spec fn outcome_text(outcome: Result<Term, Failure>) -> Seq<char> {
    match outcome {
        Ok(term) => print_term(term),
        Err(failure) => message_text(failure),
    }
}

/// What one line gives: the text to show and the scopes after it. A line
/// that cannot be read leaves the scopes as they were; a line that fails in
/// evaluation keeps the bindings it made before it failed.
pub open spec fn rep_text(input: Seq<char>, scopes: Scopes) -> (Seq<char>, Scopes) {
    match read_text(input) {
        Ok(term) => {
            let evaluated = eval_term(term, scopes);
            (outcome_text(evaluated.0), evaluated.1)
        },
        Err(failure) => (message_text(failure), scopes),
    }
}

/// Reads the first form of a line.
pub fn read(input: String) -> (res: Result<LispTerm, LispError>)
    ensures
        outcome_view(res) == read_text(input@),
{
    read_str(input.as_str())
}

/// Writes an outcome: the text of the term, or the message of the failure.
pub fn print(input: Result<LispTerm, LispError>) -> (res: String)
    ensures
        res@ == outcome_text(outcome_view(input)),
{
    match input {
        Ok(data) => print_str(&data),
        Err(error) => error.message(),
    }
}

/// Reads one line, evaluates its first form in the environment and writes
/// the result. A failure at any stage gives its message in place of a term.
/// The environment must hold its root frame.
pub fn rep(input: String, env: &mut Env) -> (res: String)
    requires
        old(env)@.len() > 0,
    ensures
        (res@, final(env)@) == rep_text(input@, old(env)@),
        final(env)@.len() == old(env)@.len(),
{
    match read(input) {
        Ok(data) => print(eval(&data, env)),
        Err(error) => print(Err(error)),
    }
}

} // verus!
