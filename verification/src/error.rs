use crate::types::{LispTerm, Term};
use vstd::prelude::*;

verus! {

/// Why reading or evaluating a form failed.
#[derive(Debug, PartialEq, Eq)]
pub enum LispError {
    /// The tokenizer's pattern was rejected by the pattern compiler.
    Tokenizer,
    /// A form was expected and no token was left.
    MissingForm,
    /// An atom was expected and no token was left.
    MissingAtom,
    /// A sequence was opened and its closing token never came.
    UnbalancedSequence,
    /// A string literal lacks its closing, unescaped double quote.
    UnbalancedString,
    /// A token without characters.
    EmptyToken,
    /// A keyword token without its leading colon.
    NotKeyword,
    /// A map literal with an odd number of elements.
    OddMap,
    /// A map key that is neither a string nor a keyword.
    BadMapKey,
    /// A symbol that no scope binds; it carries the symbol's name.
    SymbolNotFound(String),
    /// A `def!` form whose first argument is not a symbol.
    MalformedDef,
    /// A `let*` form whose first argument is neither a list nor a vector.
    MissingBindings,
    /// A `let*` form with an odd number of elements in its bindings.
    OddBindings,
    /// A `let*` binding whose name is not a symbol.
    MalformedLet,
    /// A call whose head did not evaluate to a function.
    NotCallable,
    /// A built-in applied to anything but two numbers.
    TypeError,
    /// A division whose divisor is zero.
    DivisionByZero,
    /// An arithmetic result outside the range of the machine's signed word.
    Overflow,
}

/// The mathematical value of a [`LispError`].
pub enum Failure {
    Tokenizer,
    MissingForm,
    MissingAtom,
    UnbalancedSequence,
    UnbalancedString,
    EmptyToken,
    NotKeyword,
    OddMap,
    BadMapKey,
    SymbolNotFound(Seq<char>),
    MalformedDef,
    MissingBindings,
    OddBindings,
    MalformedLet,
    NotCallable,
    TypeError,
    DivisionByZero,
    Overflow,
}

impl View for LispError {
    type V = Failure;

    open spec fn view(&self) -> Failure {
        match self {
            LispError::Tokenizer => Failure::Tokenizer,
            LispError::MissingForm => Failure::MissingForm,
            LispError::MissingAtom => Failure::MissingAtom,
            LispError::UnbalancedSequence => Failure::UnbalancedSequence,
            LispError::UnbalancedString => Failure::UnbalancedString,
            LispError::EmptyToken => Failure::EmptyToken,
            LispError::NotKeyword => Failure::NotKeyword,
            LispError::OddMap => Failure::OddMap,
            LispError::BadMapKey => Failure::BadMapKey,
            LispError::SymbolNotFound(name) => Failure::SymbolNotFound(name@),
            LispError::MalformedDef => Failure::MalformedDef,
            LispError::MissingBindings => Failure::MissingBindings,
            LispError::OddBindings => Failure::OddBindings,
            LispError::MalformedLet => Failure::MalformedLet,
            LispError::NotCallable => Failure::NotCallable,
            LispError::TypeError => Failure::TypeError,
            LispError::DivisionByZero => Failure::DivisionByZero,
            LispError::Overflow => Failure::Overflow,
        }
    }
}

/// The message that stands for a failure in the interpreter's output.
pub open spec fn message_text(failure: Failure) -> Seq<char> {
    match failure {
        Failure::Tokenizer => "Failed to compile the token pattern"@,
        Failure::MissingForm => "Failed to parse form"@,
        Failure::MissingAtom => "Failed to parse atom"@,
        Failure::UnbalancedSequence => "Failed to parse unbalanced list"@,
        Failure::UnbalancedString => "Failed to parse unbalanced string"@,
        Failure::EmptyToken => "Failed to parse empty token"@,
        Failure::NotKeyword => "Token did not start with :"@,
        Failure::OddMap => "Odd number of elements in map"@,
        Failure::BadMapKey => "Non string used as key in map"@,
        Failure::SymbolNotFound(name) => "Symbol "@ + name + " not found in env"@,
        Failure::MalformedDef => "Failed to evaluate def! term"@,
        Failure::MissingBindings => "Bindings list missing in let? term"@,
        Failure::OddBindings => "Odd number of elements in bindings list"@,
        Failure::MalformedLet => "Failed to evaluate let* term"@,
        Failure::NotCallable => "Illegal function call"@,
        Failure::TypeError => "Type error"@,
        Failure::DivisionByZero => "Division by zero"@,
        Failure::Overflow => "Integer overflow"@,
    }
}

impl LispError {
    /// The message that stands for this failure in the interpreter's output.
    pub fn message(&self) -> (res: String)
        ensures
            res@ == message_text(self@),
    {
        match self {
            LispError::Tokenizer => String::from_str("Failed to compile the token pattern"),
            LispError::MissingForm => String::from_str("Failed to parse form"),
            LispError::MissingAtom => String::from_str("Failed to parse atom"),
            LispError::UnbalancedSequence => String::from_str("Failed to parse unbalanced list"),
            LispError::UnbalancedString => String::from_str("Failed to parse unbalanced string"),
            LispError::EmptyToken => String::from_str("Failed to parse empty token"),
            LispError::NotKeyword => String::from_str("Token did not start with :"),
            LispError::OddMap => String::from_str("Odd number of elements in map"),
            LispError::BadMapKey => String::from_str("Non string used as key in map"),
            LispError::SymbolNotFound(name) => {
                let mut out = String::from_str("Symbol ");
                out.append(name.as_str());
                out.append(" not found in env");
                out
            },
            LispError::MalformedDef => String::from_str("Failed to evaluate def! term"),
            LispError::MissingBindings => String::from_str("Bindings list missing in let? term"),
            LispError::OddBindings => String::from_str("Odd number of elements in bindings list"),
            LispError::MalformedLet => String::from_str("Failed to evaluate let* term"),
            LispError::NotCallable => String::from_str("Illegal function call"),
            LispError::TypeError => String::from_str("Type error"),
            LispError::DivisionByZero => String::from_str("Division by zero"),
            LispError::Overflow => String::from_str("Integer overflow"),
        }
    }
}

/// The value of a result: the value of the term it holds, or of its failure.
pub open spec fn outcome_view(res: Result<LispTerm, LispError>) -> Result<Term, Failure> {
    match res {
        Ok(term) => Ok(term@),
        Err(error) => Err(error@),
    }
}

} // verus!
