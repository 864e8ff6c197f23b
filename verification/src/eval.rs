use crate::env::{bind, lookup, Env, Scopes};
use crate::error::{outcome_view, Failure, LispError};
use crate::text::text_equals;
use crate::types::{entry_views, lemma_view_of_parts, term_views, LispTerm, NativeFn, Term};
use vstd::prelude::*;
use vstd::slice::slice_subrange;

verus! {

/// What an evaluation leaves: its result and the scopes after it. An
/// evaluation that fails keeps the bindings that it made before it failed.
pub type Evaluated = (Result<Term, Failure>, Scopes);

/// What the evaluation of a run of terms leaves.
pub type EvaluatedItems = (Result<Seq<Term>, Failure>, Scopes);

/// What the evaluation of the values of a map leaves.
pub type EvaluatedEntries = (Result<Seq<(Seq<char>, Term)>, Failure>, Scopes);

/// The quotient of two integers, rounded towards zero.
pub open spec fn truncated_quotient(x: int, y: int) -> int
    recommends
        y != 0,
{
    if x >= 0 && y > 0 {
        x / y
    } else if x < 0 && y < 0 {
        (-x) / (-y)
    } else if x < 0 {
        -((-x) / y)
    } else {
        -(x / (-y))
    }
}

/// An arithmetic result as a term, where it fits the machine's signed word.
pub open spec fn in_word(n: int) -> Result<Term, Failure> {
    if isize::MIN <= n <= isize::MAX {
        Ok(Term::Number(n))
    } else {
        Err(Failure::Overflow)
    }
}

/// What a built-in gives for its arguments. Each of them takes exactly two
/// numbers; anything else is a type error. A quotient is rounded towards
/// zero, and a zero divisor is an error of its own.
pub open spec fn native_result(f: NativeFn, args: Seq<Term>) -> Result<Term, Failure> {
    if args.len() == 2 && args[0] is Number && args[1] is Number {
        let x = args[0]->Number_0;
        let y = args[1]->Number_0;
        match f {
            NativeFn::Add => in_word(x + y),
            NativeFn::Sub => in_word(x - y),
            NativeFn::Mul => in_word(x * y),
            NativeFn::Div => if y == 0 {
                Err(Failure::DivisionByZero)
            } else {
                in_word(truncated_quotient(x, y))
            },
        }
    } else {
        Err(Failure::TypeError)
    }
}

/// Whether the forms are a `def!` form: three of them, the first the symbol
/// `def!`.
pub open spec fn is_def_form(items: Seq<Term>) -> bool {
    items.len() == 3 && items[0] == Term::Symbol("def!"@)
}

/// Whether the forms are a `let*` form: three of them, the first the symbol
/// `let*`.
pub open spec fn is_let_form(items: Seq<Term>) -> bool {
    items.len() == 3 && items[0] == Term::Symbol("let*"@)
}

/// The call of an evaluated list: its head, a function, applied to the
/// terms after it.
pub open spec fn apply_head(values: Seq<Term>) -> Result<Term, Failure> {
    if values.len() > 0 && values[0] is Func {
        native_result(values[0]->Func_0, values.subrange(1, values.len() as int))
    } else {
        Err(Failure::NotCallable)
    }
}

/// The terms evaluated so far, put before those that follow.
pub open spec fn extend_items(front: Seq<Term>, rest: EvaluatedItems) -> EvaluatedItems {
    match rest.0 {
        Ok(values) => (Ok(front + values), rest.1),
        Err(failure) => (Err(failure), rest.1),
    }
}

/// The entries evaluated so far, put before those that follow.
pub open spec fn extend_entries(
    front: Seq<(Seq<char>, Term)>,
    rest: EvaluatedEntries,
) -> EvaluatedEntries {
    match rest.0 {
        Ok(entries) => (Ok(front + entries), rest.1),
        Err(failure) => (Err(failure), rest.1),
    }
}

/// The evaluation of a term in the given scopes.
///
/// The empty list is itself. A `def!` form evaluates its third element and
/// binds the result to the symbol that is its second, in the innermost
/// frame. A `let*` form is evaluated in a frame of its own. Any other list
/// is a call: all its elements are evaluated from left to right, and the
/// first, a function, is applied to the others. Any other term is evaluated
/// part by part.
pub open spec fn eval_term(term: Term, scopes: Scopes) -> Evaluated
    decreases term, 1nat,
{
    match term {
        Term::List(items) => {
            if items.len() == 0 {
                (Ok(term), scopes)
            } else if is_def_form(items) {
                match items[1] {
                    Term::Symbol(name) => {
                        let value = eval_term(items[2], scopes);
                        match value.0 {
                            Ok(bound) => (Ok(bound), bind(value.1, name, bound)),
                            Err(failure) => (Err(failure), value.1),
                        }
                    },
                    _ => (Err(Failure::MalformedDef), scopes),
                }
            } else if is_let_form(items) {
                eval_let_form(items, scopes)
            } else {
                let parts = eval_parts(term, scopes);
                match parts.0 {
                    Ok(Term::List(values)) => (apply_head(values), parts.1),
                    Ok(_) => (Err(Failure::NotCallable), parts.1),
                    Err(failure) => (Err(failure), parts.1),
                }
            }
        },
        _ => eval_parts(term, scopes),
    }
}

/// The evaluation of a term part by part: a symbol is the term bound to it;
/// a list, a vector or a map is made of its evaluated elements, taken from
/// left to right up to the first that fails; any other term is itself.
pub open spec fn eval_parts(term: Term, scopes: Scopes) -> Evaluated
    decreases term, 0nat,
{
    match term {
        Term::Symbol(name) => match lookup(scopes, name) {
            Some(bound) => (Ok(bound), scopes),
            None => (Err(Failure::SymbolNotFound(name)), scopes),
        },
        Term::List(items) => {
            let values = eval_items(items, 0, scopes);
            match values.0 {
                Ok(done) => (Ok(Term::List(done)), values.1),
                Err(failure) => (Err(failure), values.1),
            }
        },
        Term::Vector(items) => {
            let values = eval_items(items, 0, scopes);
            match values.0 {
                Ok(done) => (Ok(Term::Vector(done)), values.1),
                Err(failure) => (Err(failure), values.1),
            }
        },
        Term::Dict(entries) => {
            let values = eval_entries(entries, 0, scopes);
            match values.0 {
                Ok(done) => (Ok(Term::Dict(done)), values.1),
                Err(failure) => (Err(failure), values.1),
            }
        },
        _ => (Ok(term), scopes),
    }
}

/// The evaluation of the terms from index `from` on, from left to right,
/// each in the scopes that the one before it left.
pub open spec fn eval_items(items: Seq<Term>, from: int, scopes: Scopes) -> EvaluatedItems
    decreases items, items.len() - from,
{
    if from < 0 || from >= items.len() {
        (Ok(Seq::empty()), scopes)
    } else {
        let first = eval_term(items[from], scopes);
        match first.0 {
            Ok(value) => extend_items(seq![value], eval_items(items, from + 1, first.1)),
            Err(failure) => (Err(failure), first.1),
        }
    }
}

/// The evaluation of the values of the map entries from index `from` on,
/// from left to right; each entry keeps its key.
pub open spec fn eval_entries(
    entries: Seq<(Seq<char>, Term)>,
    from: int,
    scopes: Scopes,
) -> EvaluatedEntries
    decreases entries, entries.len() - from,
{
    if from < 0 || from >= entries.len() {
        (Ok(Seq::empty()), scopes)
    } else {
        let first = eval_term(entries[from].1, scopes);
        match first.0 {
            Ok(value) => extend_entries(
                seq![(entries[from].0, value)],
                eval_entries(entries, from + 1, first.1),
            ),
            Err(failure) => (Err(failure), first.1),
        }
    }
}

/// The scopes after the bindings from index `from` on are made, pair by
/// pair: the value of each is evaluated in the scopes that the pairs before
/// it left and bound to its name in the innermost frame. It comes with the
/// failure that stopped it, if any.
pub open spec fn eval_bindings(bindings: Seq<Term>, from: int, scopes: Scopes) -> (
    Option<Failure>,
    Scopes,
)
    decreases bindings, bindings.len() - from,
{
    if from < 0 || from + 1 >= bindings.len() {
        (None, scopes)
    } else {
        match bindings[from] {
            Term::Symbol(name) => {
                let value = eval_term(bindings[from + 1], scopes);
                match value.0 {
                    Ok(bound) => eval_bindings(bindings, from + 2, bind(value.1, name, bound)),
                    Err(failure) => (Some(failure), value.1),
                }
            },
            _ => (Some(Failure::MalformedLet), scopes),
        }
    }
}

/// The evaluation of a `let*` form. Its second element holds the bindings,
/// an even number of forms in a list or a vector. They are made in a new
/// innermost frame, in which the third element is then evaluated. The frame
/// is dropped whether or not that succeeds.
pub open spec fn eval_let_form(items: Seq<Term>, scopes: Scopes) -> Evaluated
    decreases items, 0nat,
{
    if items.len() != 3 {
        (Err(Failure::MalformedLet), scopes)
    } else {
        let found = match items[1] {
            Term::List(forms) => Some(forms),
            Term::Vector(forms) => Some(forms),
            _ => None,
        };
        match found {
            None => (Err(Failure::MissingBindings), scopes),
            Some(bindings) => if bindings.len() % 2 != 0 {
                (Err(Failure::OddBindings), scopes)
            } else {
                let bound = eval_bindings(bindings, 0, scopes.push(Map::empty()));
                match bound.0 {
                    Some(failure) => (Err(failure), bound.1.drop_last()),
                    None => {
                        let body = eval_term(items[2], bound.1);
                        (body.0, body.1.drop_last())
                    },
                }
            },
        }
    }
}

/// Applies a built-in to its evaluated arguments.
pub fn apply_native(f: NativeFn, args: &[LispTerm]) -> (res: Result<LispTerm, LispError>)
    ensures
        outcome_view(res) == native_result(f, term_views(args@)),
{
    if args.len() != 2 {
        return Err(LispError::TypeError);
    }
    assert(term_views(args@)[0] == args@[0]@);
    assert(term_views(args@)[1] == args@[1]@);
    match (&args[0], &args[1]) {
        (LispTerm::Number(x), LispTerm::Number(y)) => {
            let result = match f {
                NativeFn::Add => x.checked_add(*y),
                NativeFn::Sub => x.checked_sub(*y),
                NativeFn::Mul => x.checked_mul(*y),
                NativeFn::Div => {
                    if *y == 0 {
                        return Err(LispError::DivisionByZero);
                    }
                    x.checked_div(*y)
                },
            };
            match result {
                Some(n) => Ok(LispTerm::Number(n)),
                None => Err(LispError::Overflow),
            }
        },
        _ => Err(LispError::TypeError),
    }
}

/// Whether a list is a `def!` form.
pub fn is_def(list: &Vec<LispTerm>) -> (res: bool)
    ensures
        res == is_def_form(term_views(list@)),
{
    if list.len() != 3 {
        return false;
    }
    assert(term_views(list@)[0] == list@[0]@);
    match &list[0] {
        LispTerm::Symbol(sym) => text_equals(sym.as_str(), "def!"),
        _ => false,
    }
}

/// Whether a list is a `let*` form.
pub fn is_let(list: &Vec<LispTerm>) -> (res: bool)
    ensures
        res == is_let_form(term_views(list@)),
{
    if list.len() != 3 {
        return false;
    }
    assert(term_views(list@)[0] == list@[0]@);
    match &list[0] {
        LispTerm::Symbol(sym) => text_equals(sym.as_str(), "let*"),
        _ => false,
    }
}

/// Evaluates a term in an environment.
///
/// The result and the environment after the call are those of
/// [`eval_term`]. The environment must hold a frame; it keeps its depth,
/// also where the evaluation fails.
pub fn eval(ast: &LispTerm, env: &mut Env) -> (res: Result<LispTerm, LispError>)
    requires
        old(env)@.len() > 0,
    ensures
        (outcome_view(res), final(env)@) == eval_term(ast@, old(env)@),
        final(env)@.len() == old(env)@.len(),
    decreases ast, 1nat,
{
    proof {
        lemma_view_of_parts(*ast);
    }
    match ast {
        LispTerm::List(list) => {
            let ghost items = term_views(list@);
            if list.len() == 0 {
                Ok(ast.clone())
            } else if is_def(list) {
                assert(items[1] == list@[1]@);
                assert(items[2] == list@[2]@);
                match &list[1] {
                    LispTerm::Symbol(name) => {
                        match eval(&list[2], env) {
                            Ok(value) => {
                                env.set(name.as_str(), &value);
                                Ok(value)
                            },
                            Err(error) => Err(error),
                        }
                    },
                    _ => Err(LispError::MalformedDef),
                }
            } else if is_let(list) {
                eval_let(list, env)
            } else {
                match eval_ast(ast, env) {
                    Ok(LispTerm::List(values)) => {
                        proof {
                            lemma_view_of_parts(LispTerm::List(values));
                        }
                        if values.len() == 0 {
                            return Err(LispError::NotCallable);
                        }
                        assert(term_views(values@)[0] == values@[0]@);
                        match &values[0] {
                            LispTerm::Func(f) => {
                                let args = slice_subrange(values.as_slice(), 1, values.len());
                                assert(term_views(args@) =~= term_views(values@).subrange(
                                    1,
                                    values.len() as int,
                                ));
                                apply_native(*f, args)
                            },
                            _ => Err(LispError::NotCallable),
                        }
                    },
                    Ok(other) => {
                        proof {
                            lemma_view_of_parts(other);
                        }
                        Err(LispError::NotCallable)
                    },
                    Err(error) => Err(error),
                }
            }
        },
        _ => eval_ast(ast, env),
    }
}

/// Evaluates a term part by part.
pub fn eval_ast(ast: &LispTerm, env: &mut Env) -> (res: Result<LispTerm, LispError>)
    requires
        old(env)@.len() > 0,
    ensures
        (outcome_view(res), final(env)@) == eval_parts(ast@, old(env)@),
        final(env)@.len() == old(env)@.len(),
    decreases ast, 0nat,
{
    proof {
        lemma_view_of_parts(*ast);
    }
    match ast {
        LispTerm::Symbol(sym) => match env.get(sym.as_str()) {
            Some(term) => Ok(term.clone()),
            None => Err(LispError::SymbolNotFound(sym.clone())),
        },
        LispTerm::List(list) => match eval_all(list, env) {
            Ok(values) => {
                let term = LispTerm::List(values);
                proof {
                    lemma_view_of_parts(term);
                }
                Ok(term)
            },
            Err(error) => Err(error),
        },
        LispTerm::Vector(list) => match eval_all(list, env) {
            Ok(values) => {
                let term = LispTerm::Vector(values);
                proof {
                    lemma_view_of_parts(term);
                }
                Ok(term)
            },
            Err(error) => Err(error),
        },
        LispTerm::Dict(entries) => match eval_values(entries, env) {
            Ok(values) => {
                let term = LispTerm::Dict(values);
                proof {
                    lemma_view_of_parts(term);
                }
                Ok(term)
            },
            Err(error) => Err(error),
        },
        _ => Ok(ast.clone()),
    }
}

/// Evaluates the terms of a sequence from left to right and stops at the
/// first that fails.
pub fn eval_all(items: &Vec<LispTerm>, env: &mut Env) -> (res: Result<Vec<LispTerm>, LispError>)
    requires
        old(env)@.len() > 0,
    ensures
        (
            match res {
                Ok(values) => Ok::<Seq<Term>, Failure>(term_views(values@)),
                Err(error) => Err::<Seq<Term>, Failure>(error@),
            },
            final(env)@,
        ) == eval_items(term_views(items@), 0, old(env)@),
        final(env)@.len() == old(env)@.len(),
    decreases items, 0nat,
{
    let ghost views = term_views(items@);
    let ghost whole = eval_items(views, 0, env@);
    let mut values: Vec<LispTerm> = Vec::new();
    let mut i: usize = 0;
    proof {
        assert(term_views(values@) =~= Seq::<Term>::empty());
        match whole.0 {
            Ok(done) => {
                assert(Seq::<Term>::empty() + done =~= done);
            },
            Err(_) => {},
        }
    }
    while i < items.len()
        invariant
            i <= items.len(),
            views == term_views(items@),
            env@.len() == old(env)@.len(),
            env@.len() > 0,
            whole == eval_items(views, 0, old(env)@),
            whole == extend_items(term_views(values@), eval_items(views, i as int, env@)),
        decreases items.len() - i,
    {
        let ghost before = term_views(values@);
        let ghost scopes = env@;
        assert(views[i as int] == items@[i as int]@);
        match eval(&items[i], env) {
            Ok(value) => {
                values.push(value);
                proof {
                    assert(term_views(values@) =~= before + seq![value@]);
                    let rest = eval_items(views, i + 1, env@);
                    match rest.0 {
                        Ok(done) => {
                            assert(before + (seq![value@] + done) =~= (before + seq![value@])
                                + done);
                        },
                        Err(_) => {},
                    }
                }
            },
            Err(error) => {
                return Err(error);
            },
        }
        i += 1;
    }
    proof {
        assert(term_views(values@) + Seq::<Term>::empty() =~= term_views(values@));
    }
    Ok(values)
}

/// Evaluates the values of the entries of a map from first to last and
/// stops at the first that fails. Each entry keeps its key.
pub fn eval_values(entries: &Vec<(String, LispTerm)>, env: &mut Env) -> (res: Result<
    Vec<(String, LispTerm)>,
    LispError,
>)
    requires
        old(env)@.len() > 0,
    ensures
        (
            match res {
                Ok(values) => Ok::<Seq<(Seq<char>, Term)>, Failure>(entry_views(values@)),
                Err(error) => Err::<Seq<(Seq<char>, Term)>, Failure>(error@),
            },
            final(env)@,
        ) == eval_entries(entry_views(entries@), 0, old(env)@),
        final(env)@.len() == old(env)@.len(),
    decreases entries, 0nat,
{
    let ghost views = entry_views(entries@);
    let ghost whole = eval_entries(views, 0, env@);
    let mut values: Vec<(String, LispTerm)> = Vec::new();
    let mut i: usize = 0;
    proof {
        assert(entry_views(values@) =~= Seq::<(Seq<char>, Term)>::empty());
        match whole.0 {
            Ok(done) => {
                assert(Seq::<(Seq<char>, Term)>::empty() + done =~= done);
            },
            Err(_) => {},
        }
    }
    while i < entries.len()
        invariant
            i <= entries.len(),
            views == entry_views(entries@),
            env@.len() == old(env)@.len(),
            env@.len() > 0,
            whole == eval_entries(views, 0, old(env)@),
            whole == extend_entries(entry_views(values@), eval_entries(views, i as int, env@)),
        decreases entries.len() - i,
    {
        let ghost before = entry_views(values@);
        assert(views[i as int] == (entries@[i as int].0@, entries@[i as int].1@));
        match eval(&entries[i].1, env) {
            Ok(value) => {
                let key = entries[i].0.clone();
                values.push((key, value));
                proof {
                    let entry = (entries@[i as int].0@, value@);
                    assert(entry_views(values@) =~= before + seq![entry]);
                    let rest = eval_entries(views, i + 1, env@);
                    match rest.0 {
                        Ok(done) => {
                            assert(before + (seq![entry] + done) =~= (before + seq![entry]) + done);
                        },
                        Err(_) => {},
                    }
                }
            },
            Err(error) => {
                return Err(error);
            },
        }
        i += 1;
    }
    proof {
        assert(entry_views(values@) + Seq::<(Seq<char>, Term)>::empty() =~= entry_views(
            values@,
        ));
    }
    Ok(values)
}

/// Evaluates a `let*` form, given as the list of its three elements.
pub fn eval_let(let_list: &Vec<LispTerm>, env: &mut Env) -> (res: Result<LispTerm, LispError>)
    requires
        is_let_form(term_views(let_list@)),
        old(env)@.len() > 0,
    ensures
        (outcome_view(res), final(env)@) == eval_let_form(term_views(let_list@), old(env)@),
        final(env)@.len() == old(env)@.len(),
    decreases let_list, 0nat,
{
    let ghost items = term_views(let_list@);
    assert(items[1] == let_list@[1]@);
    assert(items[2] == let_list@[2]@);
    proof {
        lemma_view_of_parts(let_list@[1]);
    }
    let body = &let_list[2];
    let bindings = match &let_list[1] {
        LispTerm::List(forms) => forms,
        LispTerm::Vector(forms) => forms,
        _ => {
            return Err(LispError::MissingBindings);
        },
    };
    if bindings.len() % 2 != 0 {
        return Err(LispError::OddBindings);
    }
    let ghost views = term_views(bindings@);
    let ghost outer = env@;
    env.push_frame();
    let ghost whole = eval_bindings(views, 0, env@);
    let ghost expected = eval_let_form(items, outer);
    let mut i: usize = 0;
    while i < bindings.len()
        invariant
            i <= bindings.len(),
            i % 2 == 0,
            bindings.len() % 2 == 0,
            views == term_views(bindings@),
            items == term_views(let_list@),
            decreases_to!(let_list => bindings),
            outer == old(env)@,
            env@.len() == outer.len() + 1,
            expected == eval_let_form(items, outer),
            expected == match whole.0 {
                Some(failure) => (Err::<Term, Failure>(failure), whole.1.drop_last()),
                None => {
                    let body = eval_term(items[2], whole.1);
                    (body.0, body.1.drop_last())
                },
            },
            whole == eval_bindings(views, i as int, env@),
        decreases bindings.len() - i,
    {
        assert(views[i as int] == bindings@[i as int]@);
        assert(views[i + 1] == bindings@[i + 1]@);
        match &bindings[i] {
            LispTerm::Symbol(name) => {
                match eval(&bindings[i + 1], env) {
                    Ok(value) => {
                        env.set(name.as_str(), &value);
                    },
                    Err(error) => {
                        env.pop_frame();
                        return Err(error);
                    },
                }
            },
            _ => {
                env.pop_frame();
                return Err(LispError::MalformedLet);
            },
        }
        i += 2;
    }
    let res = eval(body, env);
    env.pop_frame();
    res
}

} // verus!
