use crate::number::{int_text, push_int_text};
use crate::types::{entry_views, lemma_view_of_parts, term_views, LispTerm, Term};
use vstd::prelude::*;

verus! {

/// A map key as it is written: a keyword key, which starts with `:`, as it
/// is; any other key between double quotes.
pub open spec fn map_key_text(key: Seq<char>) -> Seq<char> {
    if key.len() > 0 && key[0] == ':' {
        key
    } else {
        seq!['"'] + key + seq!['"']
    }
}

/// The text of a term.
///
/// A list is written `(a b c)`, a vector `[a b c]` and a map `{k v ...}`,
/// the parts one space apart. A string stands between double quotes with
/// its characters as they are, a keyword after a colon, a quoted form as
/// `(quote x)` and the like, a function as `#<function>`.
pub open spec fn print_term(term: Term) -> Seq<char>
    decreases term, 0nat,
{
    match term {
        Term::Symbol(name) => name,
        Term::Number(n) => int_text(n),
        Term::List(items) => seq!['('] + print_items(items, 0) + seq![')'],
        Term::Vector(items) => seq!['['] + print_items(items, 0) + seq![']'],
        Term::Dict(entries) => seq!['{'] + print_entries(entries, 0) + seq!['}'],
        Term::Str(text) => seq!['"'] + text + seq!['"'],
        Term::Keyword(name) => seq![':'] + name,
        Term::Boolean(value) => if value {
            "true"@
        } else {
            "false"@
        },
        Term::Quote(inner) => "(quote "@ + print_term(*inner) + seq![')'],
        Term::QuasiQuote(inner) => "(quasiquote "@ + print_term(*inner) + seq![')'],
        Term::Unquote(inner) => "(unquote "@ + print_term(*inner) + seq![')'],
        Term::SpliceUnquote(inner) => "(splice-unquote "@ + print_term(*inner) + seq![')'],
        Term::Func(_) => "#<function>"@,
        Term::Nil => "nil"@,
    }
}

/// The texts of the terms from index `from` on, one space between
/// neighbours.
pub open spec fn print_items(items: Seq<Term>, from: int) -> Seq<char>
    decreases items, items.len() - from,
{
    if from < 0 || from >= items.len() {
        Seq::empty()
    } else if from + 1 == items.len() {
        print_term(items[from])
    } else {
        print_term(items[from]) + seq![' '] + print_items(items, from + 1)
    }
}

/// The text of one map entry: its key, a space, its value.
pub open spec fn print_entry(entries: Seq<(Seq<char>, Term)>, at: int) -> Seq<char>
    recommends
        0 <= at < entries.len(),
    decreases entries, 0nat,
{
    if 0 <= at < entries.len() {
        map_key_text(entries[at].0) + seq![' '] + print_term(entries[at].1)
    } else {
        Seq::empty()
    }
}

/// The texts of the map entries from index `from` on, one space between
/// neighbours.
pub open spec fn print_entries(entries: Seq<(Seq<char>, Term)>, from: int) -> Seq<char>
    decreases entries, entries.len() - from + 1,
{
    if from < 0 || from >= entries.len() {
        Seq::empty()
    } else if from + 1 == entries.len() {
        print_entry(entries, from)
    } else {
        print_entry(entries, from) + seq![' '] + print_entries(entries, from + 1)
    }
}

/// The canonical text of a term.
pub fn print_str(data: &LispTerm) -> (res: String)
    ensures
        res@ == print_term(data@),
{
    let mut out = String::new();
    print_into(data, &mut out);
    assert(out@ =~= print_term(data@));
    out
}

/// Writes a map key: a keyword key as it is, any other between double
/// quotes.
pub fn print_map_key(key: &str) -> (res: String)
    ensures
        res@ == map_key_text(key@),
{
    let mut out = String::new();
    push_map_key(key, &mut out);
    assert(out@ =~= map_key_text(key@));
    out
}

fn push_map_key(key: &str, out: &mut String)
    ensures
        final(out)@ == old(out)@ + map_key_text(key@),
{
    let mut first = key.chars();
    let keyword = match first.next() {
        Some(c) => c == ':',
        None => false,
    };
    if keyword {
        out.append(key);
    } else {
        out.push('"');
        out.append(key);
        out.push('"');
        assert(final(out)@ =~= old(out)@ + map_key_text(key@));
    }
}

/// Appends the text of a term to a string.
pub fn print_into(data: &LispTerm, out: &mut String)
    ensures
        final(out)@ == old(out)@ + print_term(data@),
    decreases data,
{
    proof {
        lemma_view_of_parts(*data);
    }
    match data {
        LispTerm::Symbol(name) => {
            out.append(name.as_str());
        },
        LispTerm::Number(n) => {
            push_int_text(out, *n);
        },
        LispTerm::List(items) => {
            out.push('(');
            print_items_into(items, out);
            out.push(')');
        },
        LispTerm::Vector(items) => {
            out.push('[');
            print_items_into(items, out);
            out.push(']');
        },
        LispTerm::Dict(entries) => {
            out.push('{');
            print_entries_into(entries, out);
            out.push('}');
        },
        LispTerm::Str(text) => {
            out.push('"');
            out.append(text.as_str());
            out.push('"');
        },
        LispTerm::Keyword(name) => {
            out.push(':');
            out.append(name.as_str());
        },
        LispTerm::Boolean(value) => {
            if *value {
                out.append("true");
            } else {
                out.append("false");
            }
        },
        LispTerm::Quote(inner) => {
            out.append("(quote ");
            print_into(&**inner, out);
            out.push(')');
        },
        LispTerm::QuasiQuote(inner) => {
            out.append("(quasiquote ");
            print_into(&**inner, out);
            out.push(')');
        },
        LispTerm::Unquote(inner) => {
            out.append("(unquote ");
            print_into(&**inner, out);
            out.push(')');
        },
        LispTerm::SpliceUnquote(inner) => {
            out.append("(splice-unquote ");
            print_into(&**inner, out);
            out.push(')');
        },
        LispTerm::Func(_) => {
            out.append("#<function>");
        },
        LispTerm::Nil => {
            out.append("nil");
        },
    }
    assert(final(out)@ =~= old(out)@ + print_term(data@));
}

fn print_items_into(items: &Vec<LispTerm>, out: &mut String)
    ensures
        final(out)@ == old(out)@ + print_items(term_views(items@), 0),
    decreases items,
{
    let ghost views = term_views(items@);
    let mut i: usize = 0;
    while i < items.len()
        invariant
            i <= items.len(),
            views == term_views(items@),
            old(out)@ + print_items(views, 0) == out@ + print_items(views, i as int),
        decreases items.len() - i,
    {
        let ghost before = out@;
        print_into(&items[i], out);
        if i + 1 < items.len() {
            out.push(' ');
        }
        proof {
            assert(views[i as int] == items@[i as int]@);
            assert(before + print_items(views, i as int) =~= out@ + print_items(views, i + 1));
        }
        i += 1;
    }
    assert(out@ + print_items(views, i as int) =~= out@);
}

fn print_entries_into(entries: &Vec<(String, LispTerm)>, out: &mut String)
    ensures
        final(out)@ == old(out)@ + print_entries(entry_views(entries@), 0),
    decreases entries,
{
    let ghost views = entry_views(entries@);
    let mut i: usize = 0;
    while i < entries.len()
        invariant
            i <= entries.len(),
            views == entry_views(entries@),
            old(out)@ + print_entries(views, 0) == out@ + print_entries(views, i as int),
        decreases entries.len() - i,
    {
        let ghost before = out@;
        push_map_key(entries[i].0.as_str(), out);
        out.push(' ');
        print_into(&entries[i].1, out);
        if i + 1 < entries.len() {
            out.push(' ');
        }
        proof {
            assert(views[i as int] == (entries@[i as int].0@, entries@[i as int].1@));
            let entry = map_key_text(views[i as int].0) + seq![' '] + print_term(
                views[i as int].1,
            );
            assert(print_entry(views, i as int) == entry);
            if i + 1 < entries.len() {
                assert(print_entries(views, i as int) == entry + seq![' '] + print_entries(
                    views,
                    i + 1,
                ));
                assert(out@ =~= before + entry + seq![' ']);
            } else {
                assert(print_entries(views, i as int) == entry);
                assert(print_entries(views, i + 1) =~= Seq::<char>::empty());
                assert(out@ =~= before + entry);
            }
            assert(before + print_entries(views, i as int) =~= out@ + print_entries(
                views,
                i + 1,
            ));
        }
        i += 1;
    }
    assert(out@ + print_entries(views, i as int) =~= out@);
}

} // verus!
