use crate::error::Failure;
use crate::number::{
    all_digits, int_text, is_digit, lemma_int_text_parses, lemma_nat_text_value, parse_integer,
    unsigned_part,
};
use crate::printer::{map_key_text, print_entries, print_entry, print_items, print_term};
use crate::reader::{
    build_map, collect_entries, lemma_insert_absent, map_key, parse_atom, parse_form,
    parse_items, parse_sequence, prepend_items, read_text, read_tokens, string_content,
    trailing_backslashes, SequenceType,
};
use crate::tokenizer::tokens_of;
use crate::types::Term;
use vstd::prelude::*;

verus! {

/// A string's text between its double quotes.
pub open spec fn quoted(text: Seq<char>) -> Seq<char> {
    seq!['"'] + text + seq!['"']
}

/// Whether a token has a meaning of its own in the grammar: a bracket or a
/// quote marker.
pub open spec fn is_marker(token: Seq<char>) -> bool {
    ||| token == seq!['(']
    ||| token == seq![')']
    ||| token == seq!['[']
    ||| token == seq![']']
    ||| token == seq!['{']
    ||| token == seq!['}']
    ||| token == seq!['\'']
    ||| token == seq!['`']
    ||| token == seq!['~']
    ||| token == seq!['~', '@']
}

/// The form that writes a map key: a keyword for a key that starts with a
/// colon, a string for any other.
pub open spec fn key_form(key: Seq<char>) -> Term {
    if key.len() > 0 && key[0] == ':' {
        Term::Keyword(key.subrange(1, key.len() as int))
    } else {
        Term::Str(key)
    }
}

/// The forms that write the entries of a map: for each entry the form of
/// its key, then its value.
pub open spec fn entry_forms(entries: Seq<(Seq<char>, Term)>) -> Seq<Term> {
    Seq::new(
        2 * entries.len(),
        |i: int|
            if i % 2 == 0 {
                key_form(entries[i / 2].0)
            } else {
                entries[i / 2].1
            },
    )
}

/// Whether a term is an atom that a single token writes.
pub open spec fn is_atom(term: Term) -> bool {
    term is Symbol || term is Number || term is Str || term is Keyword || term is Boolean
        || term is Nil
}

/// The token that writes an atom.
pub open spec fn atom_token(term: Term) -> Seq<char> {
    match term {
        Term::Symbol(name) => name,
        Term::Number(n) => int_text(n),
        Term::Str(text) => quoted(text),
        Term::Keyword(name) => seq![':'] + name,
        Term::Boolean(value) => if value {
            "true"@
        } else {
            "false"@
        },
        _ => "nil"@,
    }
}

/// Whether an atom is read back from the token that writes it.
pub open spec fn writable_atom(term: Term) -> bool {
    match term {
        Term::Symbol(name) => parse_atom(name) == Ok::<Term, Failure>(term) && !is_marker(name),
        Term::Number(n) => isize::MIN <= n <= isize::MAX,
        Term::Str(text) => trailing_backslashes(text) % 2 == 0,
        Term::Keyword(_) => true,
        Term::Boolean(_) => true,
        Term::Nil => true,
        _ => false,
    }
}

/// Whether a term can be written so that reading gives it back.
///
/// A symbol must be a token that reads as that symbol; a number must fit
/// the machine's signed word; a string must end with an even number of
/// backslashes, so that its closing quote is not escaped; the keys of a map
/// must differ from each other; and all of that must hold of the parts of a
/// list, a vector or a map. A quoted form
/// and a function are not written in a way that reads back as themselves.
pub open spec fn writable(term: Term) -> bool
    decreases term,
{
    match term {
        Term::List(items) => forall|i: int| 0 <= i < items.len() ==> writable(#[trigger] items[i]),
        Term::Vector(items) => forall|i: int|
            0 <= i < items.len() ==> writable(#[trigger] items[i]),
        Term::Dict(entries) => {
            &&& forall|i: int, j: int|
                0 <= i < j < entries.len() ==> (#[trigger] entries[i]).0 != (
                #[trigger] entries[j]).0
            &&& forall|i: int|
                0 <= i < entries.len() ==> writable_atom(key_form((#[trigger] entries[i]).0))
                    && writable(entries[i].1)
        },
        Term::Quote(_) => false,
        Term::QuasiQuote(_) => false,
        Term::Unquote(_) => false,
        Term::SpliceUnquote(_) => false,
        Term::Func(_) => false,
        _ => writable_atom(term),
    }
}

/// The tokens that write a term, as the printer orders them: an atom is one
/// token; a sequence is its opening bracket, the tokens of its parts and
/// its closing bracket.
pub open spec fn term_tokens(term: Term) -> Seq<Seq<char>>
    decreases term, 0nat,
{
    match term {
        Term::List(items) => seq![seq!['(']] + items_tokens(items, 0) + seq![seq![')']],
        Term::Vector(items) => seq![seq!['[']] + items_tokens(items, 0) + seq![seq![']']],
        Term::Dict(entries) => seq![seq!['{']] + entries_tokens(entries, 0) + seq![seq!['}']],
        Term::Quote(inner) => seq![seq!['('], "quote"@] + term_tokens(*inner) + seq![seq![')']],
        Term::QuasiQuote(inner) => seq![seq!['('], "quasiquote"@] + term_tokens(*inner)
            + seq![seq![')']],
        Term::Unquote(inner) => seq![seq!['('], "unquote"@] + term_tokens(*inner) + seq![
            seq![')'],
        ],
        Term::SpliceUnquote(inner) => seq![seq!['('], "splice-unquote"@] + term_tokens(*inner)
            + seq![seq![')']],
        Term::Func(_) => seq!["#<function>"@],
        _ => seq![atom_token(term)],
    }
}

/// The tokens that write the terms from index `from` on.
pub open spec fn items_tokens(items: Seq<Term>, from: int) -> Seq<Seq<char>>
    decreases items, items.len() - from,
{
    if from < 0 || from >= items.len() {
        Seq::empty()
    } else {
        term_tokens(items[from]) + items_tokens(items, from + 1)
    }
}

/// The tokens that write the map entries from index `from` on: for each
/// its key as one token, then the tokens of its value.
pub open spec fn entries_tokens(entries: Seq<(Seq<char>, Term)>, from: int) -> Seq<Seq<char>>
    decreases entries, entries.len() - from,
{
    if from < 0 || from >= entries.len() {
        Seq::empty()
    } else {
        seq![map_key_text(entries[from].0)] + term_tokens(entries[from].1) + entries_tokens(
            entries,
            from + 1,
        )
    }
}

/// Whether a part of the tokens stands at a position of them.
pub open spec fn stands_at(tokens: Seq<Seq<char>>, pos: int, part: Seq<Seq<char>>) -> bool {
    &&& 0 <= pos
    &&& pos + part.len() <= tokens.len()
    &&& forall|j: int| 0 <= j < part.len() ==> tokens[pos + j] == #[trigger] part[j]
}

/// A text that starts with a character that is neither a sign nor a digit
/// is no integer literal.
proof fn lemma_not_integer(token: Seq<char>)
    requires
        token.len() > 0,
        token[0] != '-',
        token[0] != '+',
        !is_digit(token[0]),
    ensures
        parse_integer(token) is None,
{
    assert(unsigned_part(token) == token);
    assert(!all_digits(token));
}

/// The token of a writable atom is no bracket and no quote marker, and
/// reads as that atom.
pub proof fn lemma_written_atom(term: Term)
    requires
        is_atom(term),
        writable_atom(term),
    ensures
        atom_token(term).len() > 0,
        !is_marker(atom_token(term)),
        parse_atom(atom_token(term)) == Ok::<Term, Failure>(term),
{
    let token = atom_token(term);
    match term {
        Term::Symbol(name) => {},
        Term::Number(n) => {
            lemma_int_text_parses(n);
            if n < 0 {
                assert(token[0] == '-');
            } else {
                lemma_nat_text_value(n as nat);
                assert(is_digit(token[0]));
            }
            lemma_first_char_excludes_markers(token);
        },
        Term::Str(text) => {
            assert(token[0] == '"');
            lemma_not_integer(token);
            lemma_first_char_excludes_markers(token);
            lemma_quoted_text_reads_back(text);
        },
        Term::Keyword(name) => {
            assert(token[0] == ':');
            lemma_not_integer(token);
            lemma_first_char_excludes_markers(token);
            assert(token.subrange(1, token.len() as int) =~= name);
        },
        Term::Boolean(value) => {
            reveal_strlit("true");
            reveal_strlit("false");
            reveal_strlit("nil");
            assert(token[0] == 't' || token[0] == 'f');
            assert("nil"@[0] == 'n');
            assert("true"@[0] == 't');
            assert("false"@[0] == 'f');
            lemma_not_integer(token);
            lemma_first_char_excludes_markers(token);
        },
        _ => {
            reveal_strlit("nil");
            assert(token[0] == 'n');
            lemma_not_integer(token);
            lemma_first_char_excludes_markers(token);
        },
    }
}

/// A token is no bracket and no quote marker where its first character is
/// none.
proof fn lemma_first_char_excludes_markers(token: Seq<char>)
    requires
        token.len() > 0,
        token[0] != '(',
        token[0] != ')',
        token[0] != '[',
        token[0] != ']',
        token[0] != '{',
        token[0] != '}',
        token[0] != '\'',
        token[0] != '`',
        token[0] != '~',
    ensures
        !is_marker(token),
{
    assert(seq!['('][0] == '(');
    assert(seq![')'][0] == ')');
    assert(seq!['['][0] == '[');
    assert(seq![']'][0] == ']');
    assert(seq!['{'][0] == '{');
    assert(seq!['}'][0] == '}');
    assert(seq!['\''][0] == '\'');
    assert(seq!['`'][0] == '`');
    assert(seq!['~'][0] == '~');
    assert(seq!['~', '@'][0] == '~');
}

/// The tokens of a writable term are at least one, and the first of them
/// closes no sequence.
pub proof fn lemma_written_term_starts(term: Term)
    requires
        writable(term),
    ensures
        term_tokens(term).len() > 0,
        term_tokens(term)[0] != seq![')'],
        term_tokens(term)[0] != seq![']'],
        term_tokens(term)[0] != seq!['}'],
{
    assert(seq![')'][0] == ')');
    assert(seq![']'][0] == ']');
    assert(seq!['}'][0] == '}');
    match term {
        Term::List(_) => {
            assert(term_tokens(term)[0] == seq!['(']);
            assert(seq!['('][0] == '(');
        },
        Term::Vector(_) => {
            assert(term_tokens(term)[0] == seq!['[']);
            assert(seq!['['][0] == '[');
        },
        Term::Dict(_) => {
            assert(term_tokens(term)[0] == seq!['{']);
            assert(seq!['{'][0] == '{');
        },
        Term::Quote(_) => {},
        Term::QuasiQuote(_) => {},
        Term::Unquote(_) => {},
        Term::SpliceUnquote(_) => {},
        Term::Func(_) => {},
        _ => {
            lemma_written_atom(term);
        },
    }
}

/// Where the token of a writable atom stands at a position, the form read
/// at that position is the atom, and it ends one token later.
pub proof fn lemma_written_atom_reads_at(term: Term, tokens: Seq<Seq<char>>, pos: int)
    requires
        is_atom(term),
        writable_atom(term),
        0 <= pos < tokens.len(),
        tokens[pos] == atom_token(term),
    ensures
        parse_form(tokens, pos as nat) == Ok::<(Term, nat), Failure>((term, (pos + 1) as nat)),
{
    lemma_written_atom(term);
}

/// Where the tokens that write a term stand at a position, the form read
/// at that position is the term, and it ends where they end.
pub proof fn lemma_written_term_reads_at(term: Term, tokens: Seq<Seq<char>>, pos: int)
    requires
        writable(term),
        stands_at(tokens, pos, term_tokens(term)),
    ensures
        parse_form(tokens, pos as nat) == Ok::<(Term, nat), Failure>(
            (term, (pos + term_tokens(term).len()) as nat),
        ),
    decreases term, 1nat,
{
    let part = term_tokens(term);
    lemma_written_term_starts(term);
    assert(tokens[pos + 0] == part[0]);
    match term {
        Term::List(items) => {
            let inner = items_tokens(items, 0);
            assert(part[0] == seq!['(']);
            assert forall|j: int| 0 <= j < inner.len() implies tokens[pos + 1 + j]
                == #[trigger] inner[j] by {
                assert(part[1 + j] == inner[j]);
            }
            assert(tokens[pos + 1 + inner.len()] == seq![')']) by {
                assert(part[1 + inner.len() as int] == seq![')']);
            }
            lemma_written_items_read_at(items, 0, tokens, pos + 1, ')');
            assert(items.subrange(0, items.len() as int) =~= items);
            assert(parse_sequence(tokens, (pos + 1) as nat, SequenceType::List) == Ok::<
                (Term, nat),
                Failure,
            >((term, (pos + part.len()) as nat)));
        },
        Term::Vector(items) => {
            let inner = items_tokens(items, 0);
            assert(part[0] == seq!['[']);
            assert(seq!['['][0] == '[');
            assert(seq!['('][0] == '(');
            assert forall|j: int| 0 <= j < inner.len() implies tokens[pos + 1 + j]
                == #[trigger] inner[j] by {
                assert(part[1 + j] == inner[j]);
            }
            assert(tokens[pos + 1 + inner.len()] == seq![']']) by {
                assert(part[1 + inner.len() as int] == seq![']']);
            }
            lemma_written_items_read_at(items, 0, tokens, pos + 1, ']');
            assert(items.subrange(0, items.len() as int) =~= items);
            assert(parse_sequence(tokens, (pos + 1) as nat, SequenceType::Vector) == Ok::<
                (Term, nat),
                Failure,
            >((term, (pos + part.len()) as nat)));
        },
        Term::Dict(entries) => {
            let inner = entries_tokens(entries, 0);
            assert(part[0] == seq!['{']);
            assert(seq!['{'][0] == '{');
            assert(seq!['['][0] == '[');
            assert(seq!['('][0] == '(');
            assert forall|j: int| 0 <= j < inner.len() implies tokens[pos + 1 + j]
                == #[trigger] inner[j] by {
                assert(part[1 + j] == inner[j]);
            }
            assert(tokens[pos + 1 + inner.len()] == seq!['}']) by {
                assert(part[1 + inner.len() as int] == seq!['}']);
            }
            lemma_written_entries_read_at(entries, 0, tokens, pos + 1);
            assert(entry_forms(entries).subrange(0, 2 * (entries.len() as int)) =~= entry_forms(entries));
            lemma_written_map_is_built(entries, 0);
            assert(entries.take(0) =~= Seq::<(Seq<char>, Term)>::empty());
            assert(parse_sequence(tokens, (pos + 1) as nat, SequenceType::Dict) == Ok::<
                (Term, nat),
                Failure,
            >((term, (pos + part.len()) as nat)));
        },
        Term::Quote(_) => {},
        Term::QuasiQuote(_) => {},
        Term::Unquote(_) => {},
        Term::SpliceUnquote(_) => {},
        Term::Func(_) => {},
        _ => {
            assert(part[0] == atom_token(term));
            lemma_written_atom_reads_at(term, tokens, pos);
        },
    }
}

/// Where the tokens that write the terms from index `from` on stand at a
/// position and the closing token follows them, the forms read from that
/// position up to the closing token are those terms.
pub proof fn lemma_written_items_read_at(
    items: Seq<Term>,
    from: int,
    tokens: Seq<Seq<char>>,
    pos: int,
    closer: char,
)
    requires
        0 <= from <= items.len(),
        forall|i: int| 0 <= i < items.len() ==> writable(#[trigger] items[i]),
        closer == ')' || closer == ']' || closer == '}',
        stands_at(tokens, pos, items_tokens(items, from)),
        pos + items_tokens(items, from).len() < tokens.len(),
        tokens[pos + items_tokens(items, from).len()] == seq![closer],
    ensures
        parse_items(tokens, pos as nat, closer) == Ok::<(Seq<Term>, nat), Failure>(
            (
                items.subrange(from, items.len() as int),
                (pos + items_tokens(items, from).len() + 1) as nat,
            ),
        ),
    decreases items, items.len() - from,
{
    let part = items_tokens(items, from);
    if from == items.len() {
        assert(items.subrange(from, items.len() as int) =~= Seq::<Term>::empty());
    } else {
        let first = items[from];
        let head = term_tokens(first);
        let rest = items_tokens(items, from + 1);
        assert(part == head + rest);
        lemma_written_term_starts(first);
        assert forall|j: int| 0 <= j < head.len() implies tokens[pos + j] == #[trigger] head[j] by {
            assert(part[j] == head[j]);
        }
        assert forall|j: int| 0 <= j < rest.len() implies tokens[pos + head.len() + j]
            == #[trigger] rest[j] by {
            assert(part[head.len() + j] == rest[j]);
        }
        assert(tokens[pos + 0] == head[0]);
        lemma_written_term_reads_at(first, tokens, pos);
        lemma_written_items_read_at(items, from + 1, tokens, pos + head.len(), closer);
        let next = (pos + head.len()) as nat;
        assert(parse_items(tokens, pos as nat, closer) == prepend_items(
            seq![first],
            parse_items(tokens, next, closer),
        ));
        assert(seq![first] + items.subrange(from + 1, items.len() as int) =~= items.subrange(
            from,
            items.len() as int,
        ));
    }
}

/// Where the tokens that write the map entries from index `from` on stand
/// at a position and the closing brace follows them, the forms read from
/// that position up to the brace are the forms of those entries.
pub proof fn lemma_written_entries_read_at(
    entries: Seq<(Seq<char>, Term)>,
    from: int,
    tokens: Seq<Seq<char>>,
    pos: int,
)
    requires
        0 <= from <= entries.len(),
        forall|i: int|
            0 <= i < entries.len() ==> writable_atom(key_form((#[trigger] entries[i]).0))
                && writable(entries[i].1),
        stands_at(tokens, pos, entries_tokens(entries, from)),
        pos + entries_tokens(entries, from).len() < tokens.len(),
        tokens[pos + entries_tokens(entries, from).len()] == seq!['}'],
    ensures
        parse_items(tokens, pos as nat, '}') == Ok::<(Seq<Term>, nat), Failure>(
            (
                entry_forms(entries).subrange(2 * from, 2 * (entries.len() as int)),
                (pos + entries_tokens(entries, from).len() + 1) as nat,
            ),
        ),
    decreases entries, entries.len() - from,
{
    let part = entries_tokens(entries, from);
    let forms = entry_forms(entries);
    if from == entries.len() {
        assert(forms.subrange(2 * from, 2 * (entries.len() as int)) =~= Seq::<Term>::empty());
    } else {
        let key = entries[from].0;
        let value = entries[from].1;
        let key_term = key_form(key);
        let head = term_tokens(value);
        let rest = entries_tokens(entries, from + 1);
        assert(part == seq![map_key_text(key)] + head + rest);
        assert(writable_atom(key_form(entries[from].0)) && writable(entries[from].1));
        lemma_written_atom(key_term);
        assert(atom_token(key_term) =~= map_key_text(key));
        assert(tokens[pos + 0] == part[0]);
        assert(part[0] == map_key_text(key));
        lemma_written_atom_reads_at(key_term, tokens, pos);
        lemma_written_term_starts(value);
        assert forall|j: int| 0 <= j < head.len() implies tokens[pos + 1 + j]
            == #[trigger] head[j] by {
            assert(part[1 + j] == head[j]);
        }
        assert forall|j: int| 0 <= j < rest.len() implies tokens[pos + 1 + head.len() + j]
            == #[trigger] rest[j] by {
            assert(part[1 + head.len() + j] == rest[j]);
        }
        assert(tokens[pos + 1 + 0] == head[0]);
        lemma_written_term_reads_at(value, tokens, pos + 1);
        lemma_written_entries_read_at(entries, from + 1, tokens, pos + 1 + head.len());
        let after_key = (pos + 1) as nat;
        let after_value = (pos + 1 + head.len()) as nat;
        assert(seq!['}'][0] == '}');
        assert(parse_items(tokens, after_key, '}') == prepend_items(
            seq![value],
            parse_items(tokens, after_value, '}'),
        ));
        assert(parse_items(tokens, pos as nat, '}') == prepend_items(
            seq![key_term],
            parse_items(tokens, after_key, '}'),
        ));
        assert(forms[2 * from] == key_term);
        assert(forms[2 * from + 1] == value);
        assert(seq![key_term] + (seq![value] + forms.subrange(2 * from + 2, 2 * (entries.len() as int)))
            =~= forms.subrange(2 * from, 2 * (entries.len() as int)));
    }
}

/// The forms that write the entries of a map with distinct keys build that
/// map again: from the pair of index `done` on, they add the entries that
/// are still missing.
pub proof fn lemma_written_map_is_built(entries: Seq<(Seq<char>, Term)>, done: int)
    requires
        0 <= done <= entries.len(),
        forall|i: int, j: int|
            0 <= i < j < entries.len() ==> (#[trigger] entries[i]).0 != (#[trigger] entries[j]).0,
    ensures
        collect_entries(entry_forms(entries), (2 * done) as nat, entries.take(done)) == Ok::<
            Seq<(Seq<char>, Term)>,
            Failure,
        >(entries),
        done == 0 ==> build_map(entry_forms(entries)) == collect_entries(
            entry_forms(entries),
            0,
            Seq::empty(),
        ),
    decreases entries.len() - done,
{
    let forms = entry_forms(entries);
    if done == entries.len() {
        assert(entries.take(done) =~= entries);
    } else {
        let key = entries[done].0;
        let value = entries[done].1;
        let so_far = entries.take(done);
        assert(forms[2 * done] == key_form(key));
        assert(forms[2 * done + 1] == value);
        assert(map_key(key_form(key)) == Some(key)) by {
            if key.len() > 0 && key[0] == ':' {
                assert(seq![':'] + key.subrange(1, key.len() as int) =~= key);
            }
        }
        assert forall|i: int| 0 <= i < so_far.len() implies so_far[i].0 != key by {
            assert(so_far[i] == entries[i]);
            assert(entries[i].0 != entries[done].0);
        }
        lemma_insert_absent(so_far, key, value);
        assert(so_far.push((key, value)) =~= entries.take(done + 1));
        lemma_written_map_is_built(entries, done + 1);
    }
}

/// Reading gives back what was written: the first form of the tokens that
/// write a writable term is that term.
pub proof fn lemma_written_term_reads_back(term: Term)
    requires
        writable(term),
    ensures
        read_tokens(term_tokens(term)) == Ok::<Term, Failure>(term),
{
    let tokens = term_tokens(term);
    assert(stands_at(tokens, 0, tokens));
    lemma_written_term_reads_at(term, tokens, 0);
}

/// Whether a token opens a sequence.
pub open spec fn is_opener(token: Seq<char>) -> bool {
    token == seq!['('] || token == seq!['['] || token == seq!['{']
}

/// Whether a token closes a sequence.
pub open spec fn is_closer(token: Seq<char>) -> bool {
    token == seq![')'] || token == seq![']'] || token == seq!['}']
}

/// What stands between two neighbouring tokens in a text: nothing after an
/// opening bracket and nothing before a closing one, else one space.
pub open spec fn gap(left: Seq<char>, right: Seq<char>) -> Seq<char> {
    if is_opener(left) || is_closer(right) {
        Seq::empty()
    } else {
        seq![' ']
    }
}

/// The text that spells a run of tokens: the tokens in order, with the gaps
/// between them.
pub open spec fn spell(tokens: Seq<Seq<char>>) -> Seq<char>
    decreases tokens.len(),
{
    if tokens.len() == 0 {
        Seq::empty()
    } else if tokens.len() == 1 {
        tokens[0]
    } else {
        spell(tokens.drop_last()) + gap(tokens[tokens.len() - 2], tokens.last()) + tokens.last()
    }
}

/// The text of two runs of tokens, one after the other, is their texts with
/// the gap between the last token of the first and the first of the second.
pub proof fn lemma_spell_concat(a: Seq<Seq<char>>, b: Seq<Seq<char>>)
    requires
        a.len() > 0,
        b.len() > 0,
    ensures
        spell(a + b) == spell(a) + gap(a.last(), b[0]) + spell(b),
    decreases b.len(),
{
    let whole = a + b;
    if b.len() == 1 {
        assert(whole.drop_last() =~= a);
        assert(whole[whole.len() - 2] == a.last());
        assert(whole.last() == b[0]);
    } else {
        let shorter = b.drop_last();
        assert(whole.drop_last() =~= a + shorter);
        lemma_spell_concat(a, shorter);
        assert(whole[whole.len() - 2] == b[b.len() - 2]);
        assert(whole.last() == b.last());
        assert(shorter[0] == b[0]);
        assert(spell(whole) =~= spell(a) + gap(a.last(), b[0]) + spell(b));
    }
}

/// The brackets differ from each other.
proof fn lemma_brackets_differ()
    ensures
        !is_closer(seq!['(']),
        !is_closer(seq!['[']),
        !is_closer(seq!['{']),
        !is_opener(seq![')']),
        !is_opener(seq![']']),
        !is_opener(seq!['}']),
{
    assert(seq!['('][0] == '(');
    assert(seq![')'][0] == ')');
    assert(seq!['['][0] == '[');
    assert(seq![']'][0] == ']');
    assert(seq!['{'][0] == '{');
    assert(seq!['}'][0] == '}');
}

/// The text of a bracketed run of tokens: the brackets right against what
/// they hold.
proof fn lemma_spell_bracketed(open: Seq<char>, inner: Seq<Seq<char>>, close: Seq<char>)
    requires
        is_opener(open),
        is_closer(close),
    ensures
        spell(seq![open] + inner + seq![close]) == open + spell(inner) + close,
{
    if inner.len() == 0 {
        let both = seq![open] + inner + seq![close];
        assert(both.drop_last() =~= seq![open]);
        assert(both[both.len() - 2] == open);
        assert(both.last() == close);
        assert(spell(seq![open]) == open);
        assert(spell(inner) =~= Seq::<char>::empty());
        assert(gap(open, close) =~= Seq::<char>::empty());
        assert(spell(both) == spell(both.drop_last()) + gap(both[both.len() - 2], both.last())
            + both.last());
        assert(spell(both) =~= open + spell(inner) + close);
    } else {
        lemma_spell_concat(seq![open], inner);
        lemma_spell_concat(seq![open] + inner, seq![close]);
        assert((seq![open] + inner).last() == inner.last());
        assert(spell(seq![open] + inner + seq![close]) =~= open + spell(inner) + close);
    }
}

/// The text of a writable term spells the tokens that write it. They are
/// at least one; the first closes no sequence and the last opens none.
pub proof fn lemma_text_spells_tokens(term: Term)
    requires
        writable(term),
    ensures
        print_term(term) == spell(term_tokens(term)),
        term_tokens(term).len() > 0,
        !is_closer(term_tokens(term)[0]),
        !is_opener(term_tokens(term).last()),
    decreases term, 1nat,
{
    lemma_brackets_differ();
    match term {
        Term::List(items) => {
            lemma_items_text_spells_tokens(items, 0);
            lemma_spell_bracketed(seq!['('], items_tokens(items, 0), seq![')']);
        },
        Term::Vector(items) => {
            lemma_items_text_spells_tokens(items, 0);
            lemma_spell_bracketed(seq!['['], items_tokens(items, 0), seq![']']);
        },
        Term::Dict(entries) => {
            lemma_entries_text_spells_tokens(entries, 0);
            lemma_spell_bracketed(seq!['{'], entries_tokens(entries, 0), seq!['}']);
        },
        Term::Quote(_) => {},
        Term::QuasiQuote(_) => {},
        Term::Unquote(_) => {},
        Term::SpliceUnquote(_) => {},
        Term::Func(_) => {},
        _ => {
            lemma_written_atom(term);
        },
    }
}

/// The text of the terms from index `from` on spells the tokens that write
/// them.
pub proof fn lemma_items_text_spells_tokens(items: Seq<Term>, from: int)
    requires
        0 <= from <= items.len(),
        forall|i: int| 0 <= i < items.len() ==> writable(#[trigger] items[i]),
    ensures
        print_items(items, from) == spell(items_tokens(items, from)),
        from < items.len() ==> items_tokens(items, from).len() > 0 && !is_closer(
            items_tokens(items, from)[0],
        ) && !is_opener(items_tokens(items, from).last()),
    decreases items, items.len() - from,
{
    if from < items.len() {
        let head = term_tokens(items[from]);
        let rest = items_tokens(items, from + 1);
        lemma_text_spells_tokens(items[from]);
        lemma_items_text_spells_tokens(items, from + 1);
        if from + 1 == items.len() {
            assert(head + rest =~= head);
        } else {
            lemma_spell_concat(head, rest);
            assert((head + rest)[0] == head[0]);
            assert((head + rest).last() == rest.last());
        }
    }
}

/// The text of the map entries from index `from` on spells the tokens that
/// write them.
pub proof fn lemma_entries_text_spells_tokens(entries: Seq<(Seq<char>, Term)>, from: int)
    requires
        0 <= from <= entries.len(),
        forall|i: int|
            0 <= i < entries.len() ==> writable_atom(key_form((#[trigger] entries[i]).0))
                && writable(entries[i].1),
    ensures
        print_entries(entries, from) == spell(entries_tokens(entries, from)),
        from < entries.len() ==> entries_tokens(entries, from).len() > 0 && !is_closer(
            entries_tokens(entries, from)[0],
        ) && !is_opener(entries_tokens(entries, from).last()),
    decreases entries, entries.len() - from,
{
    if from < entries.len() {
        let key = entries[from].0;
        let key_token = map_key_text(key);
        let head = term_tokens(entries[from].1);
        let rest = entries_tokens(entries, from + 1);
        assert(writable_atom(key_form(entries[from].0)) && writable(entries[from].1));
        lemma_written_atom(key_form(key));
        assert(atom_token(key_form(key)) =~= key_token);
        lemma_text_spells_tokens(entries[from].1);
        lemma_entries_text_spells_tokens(entries, from + 1);
        let entry = seq![key_token] + head;
        lemma_spell_concat(seq![key_token], head);
        assert(spell(entry) =~= key_token + seq![' '] + print_term(entries[from].1));
        assert(print_entry(entries, from) == spell(entry));
        assert(entry[0] == key_token);
        assert(entry.last() == head.last());
        if from + 1 == entries.len() {
            assert(entry + rest =~= entry);
        } else {
            lemma_spell_concat(entry, rest);
            assert((entry + rest)[0] == key_token);
            assert((entry + rest).last() == rest.last());
            assert(rest[0] == map_key_text(entries[from + 1].0));
        }
    }
}

/// A name is a writable symbol where it starts with a character that is no
/// sign, digit, double quote, colon, bracket or quote marker, and is none
/// of `nil`, `true` and `false`.
pub proof fn lemma_plain_symbol_is_writable(name: Seq<char>)
    requires
        name.len() > 0,
        name[0] != '-' && name[0] != '+' && !is_digit(name[0]),
        name[0] != '"' && name[0] != ':',
        name[0] != '(' && name[0] != ')' && name[0] != '[' && name[0] != ']',
        name[0] != '{' && name[0] != '}' && name[0] != '\'' && name[0] != '`' && name[0] != '~',
        name != "nil"@ && name != "true"@ && name != "false"@,
    ensures
        writable(Term::Symbol(name)),
{
    lemma_not_integer(name);
    lemma_first_char_excludes_markers(name);
}

/// A quote before a text adds no backslash to those it ends with.
proof fn lemma_backslashes_after_quote(text: Seq<char>)
    ensures
        trailing_backslashes(seq!['"'] + text) == trailing_backslashes(text),
    decreases text.len(),
{
    let whole = seq!['"'] + text;
    if text.len() == 0 {
        assert(whole.last() == '"');
    } else {
        assert(whole.last() == text.last());
        if text.last() == '\\' {
            assert(whole.drop_last() =~= seq!['"'] + text.drop_last());
            lemma_backslashes_after_quote(text.drop_last());
        }
    }
}

/// What stands between the quotes of a string is read back as it is, with
/// any quote and backslash inside, where it ends with an even number of
/// backslashes.
pub proof fn lemma_quoted_text_reads_back(text: Seq<char>)
    requires
        trailing_backslashes(text) % 2 == 0,
    ensures
        string_content(quoted(text)) == Some(text),
{
    let token = quoted(text);
    assert(token.last() == '"');
    assert(token.drop_last() =~= seq!['"'] + text);
    lemma_backslashes_after_quote(text);
    assert(token.subrange(1, token.len() - 1) =~= text);
}

/// Printing and reading undo each other wherever the tokenizer splits a
/// text into the tokens that spell it: for the text of a writable term,
/// if the tokens of the text are those that write the term, then reading
/// the text gives the term, and printing what was read gives the text.
/// Whether the tokenizer does so is not proved here.
pub proof fn lemma_round_trip_over_tokens(term: Term)
    requires
        writable(term),
    ensures
        print_term(term) == spell(term_tokens(term)),
        tokens_of(print_term(term)) == Some(term_tokens(term)) ==> {
            &&& read_text(print_term(term)) == Ok::<Term, Failure>(term)
            &&& match read_text(print_term(term)) {
                Ok(read) => print_term(read) == print_term(term),
                Err(_) => false,
            }
        },
{
    lemma_text_spells_tokens(term);
    lemma_written_term_reads_back(term);
}

} // verus!
