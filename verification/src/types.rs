use vstd::prelude::*;

verus! {

/// A built-in operation. A function value names one of these; it holds no
/// state and captures no environment.
#[derive(Clone, Copy, Debug, PartialEq, Eq, Structural)]
pub enum NativeFn {
    Add,
    Sub,
    Mul,
    Div,
}

/// A value of the language, which is also its syntax tree.
///
/// A map keeps its entries in the order in which their keys were first
/// inserted. A keyword key is stored with its leading `:`, a string key
/// without its quotes.
#[derive(Debug, PartialEq, Eq)]
pub enum LispTerm {
    List(Vec<LispTerm>),
    Vector(Vec<LispTerm>),
    Dict(Vec<(String, LispTerm)>),
    Number(isize),
    Boolean(bool),
    Symbol(String),
    Str(String),
    Keyword(String),
    Quote(Box<LispTerm>),
    QuasiQuote(Box<LispTerm>),
    Unquote(Box<LispTerm>),
    SpliceUnquote(Box<LispTerm>),
    Func(NativeFn),
    Nil,
}

/// The mathematical value of a [`LispTerm`]: sequences for vectors, character
/// sequences for strings, unbounded integers for numbers.
pub enum Term {
    List(Seq<Term>),
    Vector(Seq<Term>),
    Dict(Seq<(Seq<char>, Term)>),
    Number(int),
    Boolean(bool),
    Symbol(Seq<char>),
    Str(Seq<char>),
    Keyword(Seq<char>),
    Quote(Box<Term>),
    QuasiQuote(Box<Term>),
    Unquote(Box<Term>),
    SpliceUnquote(Box<Term>),
    Func(NativeFn),
    Nil,
}

/// The mathematical value of a term, by recursion over its structure.
pub open spec fn term_of(term: LispTerm) -> Term
    decreases term,
{
    match term {
        LispTerm::List(items) => Term::List(
            Seq::new(
                items.len() as nat,
                |i: int|
                    if 0 <= i < items.len() {
                        term_of(items[i])
                    } else {
                        Term::Nil
                    },
            ),
        ),
        LispTerm::Vector(items) => Term::Vector(
            Seq::new(
                items.len() as nat,
                |i: int|
                    if 0 <= i < items.len() {
                        term_of(items[i])
                    } else {
                        Term::Nil
                    },
            ),
        ),
        LispTerm::Dict(entries) => Term::Dict(
            Seq::new(
                entries.len() as nat,
                |i: int|
                    if 0 <= i < entries.len() {
                        (entries[i].0@, term_of(entries[i].1))
                    } else {
                        (Seq::empty(), Term::Nil)
                    },
            ),
        ),
        LispTerm::Number(n) => Term::Number(n as int),
        LispTerm::Boolean(b) => Term::Boolean(b),
        LispTerm::Symbol(s) => Term::Symbol(s@),
        LispTerm::Str(s) => Term::Str(s@),
        LispTerm::Keyword(s) => Term::Keyword(s@),
        LispTerm::Quote(inner) => Term::Quote(Box::new(term_of(*inner))),
        LispTerm::QuasiQuote(inner) => Term::QuasiQuote(Box::new(term_of(*inner))),
        LispTerm::Unquote(inner) => Term::Unquote(Box::new(term_of(*inner))),
        LispTerm::SpliceUnquote(inner) => Term::SpliceUnquote(Box::new(term_of(*inner))),
        LispTerm::Func(f) => Term::Func(f),
        LispTerm::Nil => Term::Nil,
    }
}

impl View for LispTerm {
    type V = Term;

    open spec fn view(&self) -> Term {
        term_of(*self)
    }
}

/// The values of a sequence of terms, in order.
pub open spec fn term_views(items: Seq<LispTerm>) -> Seq<Term> {
    Seq::new(items.len(), |i: int| items[i]@)
}

/// The values of a sequence of map entries, in order.
pub open spec fn entry_views(entries: Seq<(String, LispTerm)>) -> Seq<(Seq<char>, Term)> {
    Seq::new(entries.len(), |i: int| (entries[i].0@, entries[i].1@))
}

/// What the value of a term is, variant by variant, over the values of its
/// parts.
pub proof fn lemma_view_of_parts(term: LispTerm)
    ensures
        term matches LispTerm::List(items) ==> term@ == Term::List(term_views(items@)),
        term matches LispTerm::Vector(items) ==> term@ == Term::Vector(term_views(items@)),
        term matches LispTerm::Dict(entries) ==> term@ == Term::Dict(entry_views(entries@)),
        term matches LispTerm::Quote(inner) ==> term@ == Term::Quote(Box::new(inner@)),
        term matches LispTerm::QuasiQuote(inner) ==> term@ == Term::QuasiQuote(Box::new(inner@)),
        term matches LispTerm::Unquote(inner) ==> term@ == Term::Unquote(Box::new(inner@)),
        term matches LispTerm::SpliceUnquote(inner) ==> term@ == Term::SpliceUnquote(
            Box::new(inner@),
        ),
{
    match term {
        LispTerm::List(items) => {
            assert(term@->List_0 =~= term_views(items@));
        },
        LispTerm::Vector(items) => {
            assert(term@->Vector_0 =~= term_views(items@));
        },
        LispTerm::Dict(entries) => {
            assert(term@->Dict_0 =~= entry_views(entries@));
        },
        _ => {},
    }
}

impl Clone for LispTerm {
    fn clone(&self) -> (res: LispTerm)
        ensures
            res@ == self@,
        decreases self,
    {
        let res = match self {
            LispTerm::List(items) => LispTerm::List(clone_terms(items)),
            LispTerm::Vector(items) => LispTerm::Vector(clone_terms(items)),
            LispTerm::Dict(entries) => LispTerm::Dict(clone_entries(entries)),
            LispTerm::Number(n) => LispTerm::Number(*n),
            LispTerm::Boolean(b) => LispTerm::Boolean(*b),
            LispTerm::Symbol(s) => LispTerm::Symbol(s.clone()),
            LispTerm::Str(s) => LispTerm::Str(s.clone()),
            LispTerm::Keyword(s) => LispTerm::Keyword(s.clone()),
            LispTerm::Quote(inner) => LispTerm::Quote(Box::new((&**inner).clone())),
            LispTerm::QuasiQuote(inner) => LispTerm::QuasiQuote(Box::new((&**inner).clone())),
            LispTerm::Unquote(inner) => LispTerm::Unquote(Box::new((&**inner).clone())),
            LispTerm::SpliceUnquote(inner) => LispTerm::SpliceUnquote(
                Box::new((&**inner).clone()),
            ),
            LispTerm::Func(f) => LispTerm::Func(*f),
            LispTerm::Nil => LispTerm::Nil,
        };
        proof {
            lemma_view_of_parts(*self);
            lemma_view_of_parts(res);
        }
        res
    }
}

/// Copies a vector of terms, element by element.
pub fn clone_terms(items: &Vec<LispTerm>) -> (res: Vec<LispTerm>)
    ensures
        term_views(res@) == term_views(items@),
    decreases items,
{
    let mut out: Vec<LispTerm> = Vec::new();
    let mut i: usize = 0;
    while i < items.len()
        invariant
            i <= items.len(),
            out.len() == i,
            forall|j: int| 0 <= j < i ==> out@[j]@ == items@[j]@,
        decreases items.len() - i,
    {
        out.push(items[i].clone());
        i += 1;
    }
    assert(term_views(out@) =~= term_views(items@));
    out
}

/// Copies the entries of a map, element by element.
pub fn clone_entries(entries: &Vec<(String, LispTerm)>) -> (res: Vec<(String, LispTerm)>)
    ensures
        entry_views(res@) == entry_views(entries@),
    decreases entries,
{
    let mut out: Vec<(String, LispTerm)> = Vec::new();
    let mut i: usize = 0;
    while i < entries.len()
        invariant
            i <= entries.len(),
            out.len() == i,
            forall|j: int|
                0 <= j < i ==> out@[j].0@ == entries@[j].0@ && out@[j].1@ == entries@[j].1@,
        decreases entries.len() - i,
    {
        let value = entries[i].1.clone();
        out.push((entries[i].0.clone(), value));
        i += 1;
    }
    assert(entry_views(out@) =~= entry_views(entries@));
    out
}

} // verus!
