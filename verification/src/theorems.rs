use crate::env::{bind, lookup, Scopes};
use crate::error::Failure;
use crate::eval::{
    eval_bindings, eval_entries, eval_items, eval_let_form, eval_parts, eval_term, is_def_form,
    is_let_form,
};
use crate::reader::{
    collect_entries, entries_insert, lemma_insert_absent, lemma_insert_found, map_key,
    parse_form, parse_items,
};
use crate::types::Term;
use vstd::prelude::*;

verus! {

/// Whether two stacks of scopes have the same depth and the same outer
/// frames, and the innermost frame of the second binds every name that the
/// innermost frame of the first binds.
pub open spec fn same_outer(before: Scopes, after: Scopes) -> bool {
    &&& after.len() == before.len()
    &&& after.drop_last() == before.drop_last()
    &&& forall|name: Seq<char>| #[trigger]
        before.last().contains_key(name) ==> after.last().contains_key(name)
}

/// A name that was just bound in the innermost frame stands for the term
/// it was bound to, and the outer frames are as they were.
pub proof fn lemma_bind_then_lookup(scopes: Scopes, name: Seq<char>, value: Term)
    requires
        scopes.len() > 0,
    ensures
        lookup(bind(scopes, name, value), name) == Some(value),
        same_outer(scopes, bind(scopes, name, value)),
{
    let after = bind(scopes, name, value);
    assert(after.last().contains_key(name));
    assert(after.drop_last() =~= scopes.drop_last());
}

/// Evaluating a term changes at most the innermost frame: the depth and
/// every outer frame stay as they were, whether or not the evaluation
/// succeeds.
pub proof fn lemma_eval_keeps_outer_frames(term: Term, scopes: Scopes)
    requires
        scopes.len() > 0,
    ensures
        same_outer(scopes, eval_term(term, scopes).1),
    decreases term, 1nat,
{
    match term {
        Term::List(items) => {
            if items.len() == 0 {
            } else if is_def_form(items) {
                match items[1] {
                    Term::Symbol(name) => {
                        lemma_eval_keeps_outer_frames(items[2], scopes);
                        let value = eval_term(items[2], scopes);
                        match value.0 {
                            Ok(bound) => {
                                lemma_bind_then_lookup(value.1, name, bound);
                            },
                            Err(_) => {},
                        }
                    },
                    _ => {},
                }
            } else if is_let_form(items) {
                lemma_let_form_restores_scopes(items, scopes);
            } else {
                lemma_parts_keep_outer_frames(term, scopes);
            }
        },
        _ => {
            lemma_parts_keep_outer_frames(term, scopes);
        },
    }
}

/// Evaluating a term part by part changes at most the innermost frame.
pub proof fn lemma_parts_keep_outer_frames(term: Term, scopes: Scopes)
    requires
        scopes.len() > 0,
    ensures
        same_outer(scopes, eval_parts(term, scopes).1),
    decreases term, 0nat,
{
    match term {
        Term::List(items) => {
            lemma_items_keep_outer_frames(items, 0, scopes);
        },
        Term::Vector(items) => {
            lemma_items_keep_outer_frames(items, 0, scopes);
        },
        Term::Dict(entries) => {
            lemma_entries_keep_outer_frames(entries, 0, scopes);
        },
        _ => {},
    }
}

/// Evaluating a run of terms changes at most the innermost frame.
pub proof fn lemma_items_keep_outer_frames(items: Seq<Term>, from: int, scopes: Scopes)
    requires
        scopes.len() > 0,
    ensures
        same_outer(scopes, eval_items(items, from, scopes).1),
    decreases items, items.len() - from,
{
    if 0 <= from < items.len() {
        lemma_eval_keeps_outer_frames(items[from], scopes);
        let first = eval_term(items[from], scopes);
        match first.0 {
            Ok(_) => {
                lemma_items_keep_outer_frames(items, from + 1, first.1);
            },
            Err(_) => {},
        }
    }
}

/// Evaluating the values of a map changes at most the innermost frame.
pub proof fn lemma_entries_keep_outer_frames(
    entries: Seq<(Seq<char>, Term)>,
    from: int,
    scopes: Scopes,
)
    requires
        scopes.len() > 0,
    ensures
        same_outer(scopes, eval_entries(entries, from, scopes).1),
    decreases entries, entries.len() - from,
{
    if 0 <= from < entries.len() {
        lemma_eval_keeps_outer_frames(entries[from].1, scopes);
        let first = eval_term(entries[from].1, scopes);
        match first.0 {
            Ok(_) => {
                lemma_entries_keep_outer_frames(entries, from + 1, first.1);
            },
            Err(_) => {},
        }
    }
}

/// Making the bindings of a `let*` form changes at most the innermost
/// frame.
pub proof fn lemma_bindings_keep_outer_frames(bindings: Seq<Term>, from: int, scopes: Scopes)
    requires
        scopes.len() > 0,
    ensures
        same_outer(scopes, eval_bindings(bindings, from, scopes).1),
    decreases bindings, bindings.len() - from,
{
    if 0 <= from && from + 1 < bindings.len() {
        match bindings[from] {
            Term::Symbol(name) => {
                lemma_eval_keeps_outer_frames(bindings[from + 1], scopes);
                let value = eval_term(bindings[from + 1], scopes);
                match value.0 {
                    Ok(bound) => {
                        lemma_bind_then_lookup(value.1, name, bound);
                        lemma_bindings_keep_outer_frames(
                            bindings,
                            from + 2,
                            bind(value.1, name, bound),
                        );
                    },
                    Err(_) => {},
                }
            },
            _ => {},
        }
    }
}

/// A `let*` form leaves the scopes exactly as it found them, whether it
/// succeeds or fails: what it binds lives in a frame of its own, which is
/// dropped before it returns.
pub proof fn lemma_let_form_restores_scopes(items: Seq<Term>, scopes: Scopes)
    requires
        scopes.len() > 0,
    ensures
        eval_let_form(items, scopes).1 == scopes,
    decreases items, 0nat,
{
    if items.len() == 3 {
        let found = match items[1] {
            Term::List(forms) => Some(forms),
            Term::Vector(forms) => Some(forms),
            _ => None,
        };
        match found {
            None => {},
            Some(bindings) => {
                if bindings.len() % 2 == 0 {
                    let inner = scopes.push(Map::empty());
                    assert(inner.drop_last() =~= scopes);
                    lemma_bindings_keep_outer_frames(bindings, 0, inner);
                    let bound = eval_bindings(bindings, 0, inner);
                    match bound.0 {
                        Some(_) => {},
                        None => {
                            lemma_eval_keeps_outer_frames(items[2], bound.1);
                        },
                    }
                }
            },
        }
    }
}

/// Bindings survive: a name that stands for a term before an evaluation
/// stands for one after it, whether or not the evaluation succeeds.
pub proof fn lemma_bound_names_stay_bound(term: Term, scopes: Scopes, name: Seq<char>)
    requires
        scopes.len() > 0,
        lookup(scopes, name) is Some,
    ensures
        lookup(eval_term(term, scopes).1, name) is Some,
{
    lemma_eval_keeps_outer_frames(term, scopes);
    let after = eval_term(term, scopes).1;
    if scopes.last().contains_key(name) {
        assert(after.last().contains_key(name));
    }
}

/// The scoping of `let*` is isolated: evaluating a `let*` form, with
/// whatever bindings and body, leaves every scope as it was, so none of its
/// names is bound afterwards unless it was before.
pub proof fn lemma_let_is_isolated(items: Seq<Term>, scopes: Scopes, name: Seq<char>)
    requires
        is_let_form(items),
        scopes.len() > 0,
    ensures
        eval_term(Term::List(items), scopes).1 == scopes,
        lookup(eval_term(Term::List(items), scopes).1, name) == lookup(scopes, name),
{
    reveal_strlit("def!");
    reveal_strlit("let*");
    assert("def!"@ != "let*"@) by {
        assert("def!"@[0] == 'd');
        assert("let*"@[0] == 'l');
    }
    assert(!is_def_form(items));
    lemma_let_form_restores_scopes(items, scopes);
}

/// `def!` persists its binding: where the value of `(def! name form)`
/// evaluates to a term, that term is the result, the name stands for it in
/// the scopes that the form leaves, and evaluating the name there gives it
/// again.
pub proof fn lemma_def_persists(name: Seq<char>, form: Term, scopes: Scopes)
    requires
        scopes.len() > 0,
        eval_term(form, scopes).0 is Ok,
    ensures
        ({
            let def = Term::List(seq![Term::Symbol("def!"@), Term::Symbol(name), form]);
            let defined = eval_term(def, scopes);
            &&& defined.0 == eval_term(form, scopes).0
            &&& lookup(defined.1, name) == Some(defined.0->Ok_0)
            &&& eval_term(Term::Symbol(name), defined.1) == (
                Ok::<Term, Failure>(defined.0->Ok_0),
                defined.1,
            )
        }),
{
    let items = seq![Term::Symbol("def!"@), Term::Symbol(name), form];
    assert(is_def_form(items));
    assert(items[1] == Term::Symbol(name));
    assert(items[2] == form);
    let value = eval_term(form, scopes);
    lemma_eval_keeps_outer_frames(form, scopes);
    lemma_bind_then_lookup(value.1, name, value.0->Ok_0);
    let after = bind(value.1, name, value.0->Ok_0);
    assert(eval_term(Term::List(items), scopes) == (value.0, after));
    assert(eval_term(Term::Symbol(name), after) == eval_parts(Term::Symbol(name), after));
}

/// The empty list evaluates to itself and changes nothing: it is no call.
pub proof fn lemma_empty_list_is_itself(scopes: Scopes)
    ensures
        eval_term(Term::List(Seq::empty()), scopes) == (
            Ok::<Term, Failure>(Term::List(Seq::empty())),
            scopes,
        ),
{
}

/// A symbol that no scope binds fails to evaluate, with the failure that
/// names it, and changes nothing.
pub proof fn lemma_unbound_symbol_fails(name: Seq<char>, scopes: Scopes)
    requires
        lookup(scopes, name) is None,
    ensures
        eval_term(Term::Symbol(name), scopes) == (
            Err::<Term, Failure>(Failure::SymbolNotFound(name)),
            scopes,
        ),
{
    assert(eval_term(Term::Symbol(name), scopes) == eval_parts(Term::Symbol(name), scopes));
}

/// A form that was read ends beyond the position it started at, and within
/// the tokens.
pub proof fn lemma_parse_form_advances(tokens: Seq<Seq<char>>, pos: nat)
    ensures
        parse_form(tokens, pos) matches Ok((_, next)) ==> pos < next <= tokens.len(),
    decreases tokens.len() - pos, 0nat,
{
    if pos < tokens.len() {
        let token = tokens[pos as int];
        if token == seq!['('] || token == seq!['['] || token == seq!['{'] {
            lemma_parse_items_advances(tokens, pos + 1, ')');
            lemma_parse_items_advances(tokens, pos + 1, ']');
            lemma_parse_items_advances(tokens, pos + 1, '}');
        } else if token == seq!['\''] || token == seq!['`'] || token == seq!['~'] || token
            == seq!['~', '@'] {
            lemma_parse_form_advances(tokens, pos + 1);
        }
    }
}

/// The forms of a sequence that was read end beyond the position they
/// started at, and within the tokens.
pub proof fn lemma_parse_items_advances(tokens: Seq<Seq<char>>, pos: nat, closer: char)
    ensures
        parse_items(tokens, pos, closer) matches Ok((_, next)) ==> pos < next <= tokens.len(),
    decreases tokens.len() - pos, 1nat,
{
    if pos < tokens.len() && tokens[pos as int] != seq![closer] {
        lemma_parse_form_advances(tokens, pos);
        match parse_form(tokens, pos) {
            Ok((_, next)) => {
                lemma_parse_items_advances(tokens, next, closer);
            },
            Err(_) => {},
        }
    }
}

/// A sequence whose closing token never comes cannot be read: where none
/// of the tokens from a position on is the closing token, reading the
/// sequence's forms from there fails.
pub proof fn lemma_unclosed_sequence_fails(tokens: Seq<Seq<char>>, pos: nat, closer: char)
    requires
        forall|i: int| pos <= i < tokens.len() ==> tokens[i] != seq![closer],
    ensures
        parse_items(tokens, pos, closer) is Err,
    decreases tokens.len() - pos,
{
    if pos < tokens.len() {
        lemma_parse_form_advances(tokens, pos);
        match parse_form(tokens, pos) {
            Ok((_, next)) => {
                lemma_unclosed_sequence_fails(tokens, next, closer);
            },
            Err(_) => {},
        }
    }
}

/// Whether no function occurs in a term.
pub open spec fn holds_no_function(term: Term) -> bool
    decreases term,
{
    match term {
        Term::List(items) => forall|i: int|
            0 <= i < items.len() ==> holds_no_function(#[trigger] items[i]),
        Term::Vector(items) => forall|i: int|
            0 <= i < items.len() ==> holds_no_function(#[trigger] items[i]),
        Term::Dict(entries) => forall|i: int|
            0 <= i < entries.len() ==> holds_no_function((#[trigger] entries[i]).1),
        Term::Quote(inner) => holds_no_function(*inner),
        Term::QuasiQuote(inner) => holds_no_function(*inner),
        Term::Unquote(inner) => holds_no_function(*inner),
        Term::SpliceUnquote(inner) => holds_no_function(*inner),
        Term::Func(_) => false,
        _ => true,
    }
}

/// Whether the keys of the entries differ from each other.
pub open spec fn has_distinct_keys(entries: Seq<(Seq<char>, Term)>) -> bool {
    forall|i: int, j: int|
        0 <= i < j < entries.len() ==> (#[trigger] entries[i]).0 != (#[trigger] entries[j]).0
}

/// Whether a map is well formed throughout a term: in every map of it, the
/// keys differ from each other.
pub open spec fn has_proper_maps(term: Term) -> bool
    decreases term,
{
    match term {
        Term::List(items) => forall|i: int|
            0 <= i < items.len() ==> has_proper_maps(#[trigger] items[i]),
        Term::Vector(items) => forall|i: int|
            0 <= i < items.len() ==> has_proper_maps(#[trigger] items[i]),
        Term::Dict(entries) => has_distinct_keys(entries) && forall|i: int|
            0 <= i < entries.len() ==> has_proper_maps((#[trigger] entries[i]).1),
        Term::Quote(inner) => has_proper_maps(*inner),
        Term::QuasiQuote(inner) => has_proper_maps(*inner),
        Term::Unquote(inner) => has_proper_maps(*inner),
        Term::SpliceUnquote(inner) => has_proper_maps(*inner),
        _ => true,
    }
}

/// Whether a term is one that reading can give: no function occurs in it,
/// and the keys of each of its maps differ from each other.
pub open spec fn is_well_read(term: Term) -> bool {
    holds_no_function(term) && has_proper_maps(term)
}

/// The first entry, if any, that holds a key.
proof fn first_entry_with_key(entries: Seq<(Seq<char>, Term)>, key: Seq<char>) -> (at: int)
    ensures
        0 <= at <= entries.len(),
        forall|i: int| 0 <= i < at ==> (#[trigger] entries[i]).0 != key,
        at < entries.len() ==> entries[at].0 == key,
    decreases entries.len(),
{
    if entries.len() == 0 || entries[0].0 == key {
        0
    } else {
        let rest = entries.drop_first();
        let found = first_entry_with_key(rest, key);
        assert forall|i: int| 0 <= i < found + 1 implies (#[trigger] entries[i]).0 != key by {
            if i > 0 {
                assert(rest[i - 1] == entries[i]);
            }
        }
        if found < rest.len() {
            assert(rest[found] == entries[found + 1]);
        }
        found + 1
    }
}

/// Giving a key a value keeps the keys of a map distinct, and keeps the
/// values well read where the new value is.
pub proof fn lemma_insert_keeps_map_proper(
    entries: Seq<(Seq<char>, Term)>,
    key: Seq<char>,
    value: Term,
)
    requires
        has_distinct_keys(entries),
        forall|i: int| 0 <= i < entries.len() ==> is_well_read((#[trigger] entries[i]).1),
        is_well_read(value),
    ensures
        has_distinct_keys(entries_insert(entries, key, value)),
        forall|i: int|
            0 <= i < entries_insert(entries, key, value).len() ==> is_well_read(
                (#[trigger] entries_insert(entries, key, value)[i]).1,
            ),
{
    let after = entries_insert(entries, key, value);
    let at = first_entry_with_key(entries, key);
    if at < entries.len() {
        lemma_insert_found(entries, key, value, at);
        assert forall|i: int, j: int| 0 <= i < j < after.len() implies (#[trigger] after[i]).0 != (
        #[trigger] after[j]).0 by {
            assert(after[i].0 == entries[i].0);
            assert(after[j].0 == entries[j].0);
        }
        assert forall|i: int| 0 <= i < after.len() implies is_well_read((#[trigger] after[i]).1) by {
            if i != at {
                assert(after[i] == entries[i]);
            }
        }
    } else {
        lemma_insert_absent(entries, key, value);
        assert forall|i: int, j: int| 0 <= i < j < after.len() implies (#[trigger] after[i]).0 != (
        #[trigger] after[j]).0 by {
            assert(after[i] == entries[i]);
            if j < entries.len() {
                assert(after[j] == entries[j]);
            }
        }
        assert forall|i: int| 0 <= i < after.len() implies is_well_read((#[trigger] after[i]).1) by {
            if i < entries.len() {
                assert(after[i] == entries[i]);
            }
        }
    }
}

/// The entries that well-read forms add to a proper map make a proper map.
pub proof fn lemma_collected_map_is_proper(
    forms: Seq<Term>,
    from: nat,
    entries: Seq<(Seq<char>, Term)>,
)
    requires
        forall|i: int| 0 <= i < forms.len() ==> is_well_read(#[trigger] forms[i]),
        has_distinct_keys(entries),
        forall|i: int| 0 <= i < entries.len() ==> is_well_read((#[trigger] entries[i]).1),
    ensures
        collect_entries(forms, from, entries) matches Ok(built) ==> is_well_read(
            Term::Dict(built),
        ),
    decreases forms.len() - from,
{
    if from + 1 < forms.len() {
        match map_key(forms[from as int]) {
            Some(key) => {
                assert(is_well_read(forms[from as int + 1]));
                lemma_insert_keeps_map_proper(entries, key, forms[from as int + 1]);
                lemma_collected_map_is_proper(
                    forms,
                    from + 2,
                    entries_insert(entries, key, forms[from as int + 1]),
                );
            },
            None => {},
        }
    }
}

/// What reading gives is well read: no function occurs in it, and the keys
/// of each of its maps differ from each other.
pub proof fn lemma_read_form_is_well_read(tokens: Seq<Seq<char>>, pos: nat)
    ensures
        parse_form(tokens, pos) matches Ok((term, _)) ==> is_well_read(term),
    decreases tokens.len() - pos, 0nat,
{
    if pos < tokens.len() {
        let token = tokens[pos as int];
        if token == seq!['('] || token == seq!['['] || token == seq!['{'] {
            lemma_read_items_are_well_read(tokens, pos + 1, ')');
            lemma_read_items_are_well_read(tokens, pos + 1, ']');
            lemma_read_items_are_well_read(tokens, pos + 1, '}');
            if token == seq!['{'] && token != seq!['('] && token != seq!['['] {
                match parse_items(tokens, pos + 1, '}') {
                    Ok((forms, _)) => {
                        if forms.len() % 2 == 0 {
                            lemma_collected_map_is_proper(forms, 0, Seq::empty());
                        }
                    },
                    Err(_) => {},
                }
            }
        } else if token == seq!['\''] || token == seq!['`'] || token == seq!['~'] || token
            == seq!['~', '@'] {
            lemma_read_form_is_well_read(tokens, pos + 1);
        }
    }
}

/// The forms of a sequence that was read are well read.
pub proof fn lemma_read_items_are_well_read(tokens: Seq<Seq<char>>, pos: nat, closer: char)
    ensures
        parse_items(tokens, pos, closer) matches Ok((forms, _)) ==> forall|i: int|
            0 <= i < forms.len() ==> is_well_read(#[trigger] forms[i]),
    decreases tokens.len() - pos, 1nat,
{
    if pos < tokens.len() && tokens[pos as int] != seq![closer] {
        lemma_read_form_is_well_read(tokens, pos);
        match parse_form(tokens, pos) {
            Ok((form, next)) => {
                if pos < next <= tokens.len() {
                    lemma_read_items_are_well_read(tokens, next, closer);
                    match parse_items(tokens, next, closer) {
                        Ok((rest, _)) => {
                            let forms = seq![form] + rest;
                            assert forall|i: int| 0 <= i < forms.len() implies is_well_read(
                                #[trigger] forms[i],
                            ) by {
                                if i > 0 {
                                    assert(forms[i] == rest[i - 1]);
                                }
                            }
                        },
                        Err(_) => {},
                    }
                }
            },
            Err(_) => {},
        }
    }
}

} // verus!
