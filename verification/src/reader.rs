use crate::error::{Failure, LispError};
use crate::number::{parse_integer, parse_isize};
use crate::text::{copy_range, from_chars, same_text, to_chars};
use crate::tokenizer::{token_views, tokenize, tokens_of};
use crate::types::{entry_views, lemma_view_of_parts, term_views, LispTerm, Term};
use vstd::prelude::*;

verus! {

/// The three bracketed sequences of the grammar.
#[derive(Clone, Copy, Debug, PartialEq, Eq, Structural)]
pub enum SequenceType {
    List,
    Vector,
    Dict,
}

/// The four markers that wrap the form after them.
#[derive(Clone, Copy, Debug, PartialEq, Eq, Structural)]
pub enum QuoteType {
    Quote,
    QuasiQuote,
    Unquote,
    SpliceUnquote,
}

/// A form that was read, with the position of the first token after it.
pub type Parsed = Result<(Term, nat), Failure>;

/// The forms of a sequence that were read, with the position of the first
/// token after the sequence's closing token.
pub type ParsedItems = Result<(Seq<Term>, nat), Failure>;

/// The token that closes a sequence.
pub open spec fn closing_char(kind: SequenceType) -> char {
    match kind {
        SequenceType::List => ')',
        SequenceType::Vector => ']',
        SequenceType::Dict => '}',
    }
}

/// The term that wraps a form for a marker.
pub open spec fn wrap_quoted(kind: QuoteType, inner: Term) -> Term {
    match kind {
        QuoteType::Quote => Term::Quote(Box::new(inner)),
        QuoteType::QuasiQuote => Term::QuasiQuote(Box::new(inner)),
        QuoteType::Unquote => Term::Unquote(Box::new(inner)),
        QuoteType::SpliceUnquote => Term::SpliceUnquote(Box::new(inner)),
    }
}

/// How many backslashes the text ends with.
pub open spec fn trailing_backslashes(s: Seq<char>) -> nat
    decreases s.len(),
{
    if s.len() > 0 && s.last() == '\\' {
        1 + trailing_backslashes(s.drop_last())
    } else {
        0
    }
}

/// What a string token holds: what stands between its first and its last
/// character, as it is, where the token has at least two characters and
/// ends with a double quote that an even number of backslashes precedes.
pub open spec fn string_content(token: Seq<char>) -> Option<Seq<char>> {
    if token.len() >= 2 && token.last() == '"' && trailing_backslashes(token.drop_last()) % 2
        == 0 {
        Some(token.subrange(1, token.len() - 1))
    } else {
        None
    }
}

/// What a keyword token names: the token after its leading colon.
pub open spec fn keyword_name(token: Seq<char>) -> Option<Seq<char>> {
    if token.len() > 0 && token[0] == ':' {
        Some(token.subrange(1, token.len() as int))
    } else {
        None
    }
}

/// The atom that a token stands for. In this order: an integer literal is a
/// number; a token that starts with a double quote is a string; one that
/// starts with a colon is a keyword; `nil`, `true` and `false` are
/// themselves; any other token is a symbol. The empty token is none.
pub open spec fn parse_atom(token: Seq<char>) -> Result<Term, Failure> {
    if token.len() == 0 {
        Err(Failure::EmptyToken)
    } else if parse_integer(token) is Some {
        Ok(Term::Number(parse_integer(token)->0))
    } else if token[0] == '"' {
        match string_content(token) {
            Some(text) => Ok(Term::Str(text)),
            None => Err(Failure::UnbalancedString),
        }
    } else if token[0] == ':' {
        Ok(Term::Keyword(token.subrange(1, token.len() as int)))
    } else if token == "nil"@ {
        Ok(Term::Nil)
    } else if token == "true"@ {
        Ok(Term::Boolean(true))
    } else if token == "false"@ {
        Ok(Term::Boolean(false))
    } else {
        Ok(Term::Symbol(token))
    }
}

/// The key that a form gives a map entry: a string its text, a keyword its
/// name after a colon; no other form is a key.
pub open spec fn map_key(form: Term) -> Option<Seq<char>> {
    match form {
        Term::Str(text) => Some(text),
        Term::Keyword(name) => Some(seq![':'] + name),
        _ => None,
    }
}

/// The entries after a key is given a value: the entry that holds the key
/// gets the value and keeps its place; where none holds it, a new entry
/// comes last.
pub open spec fn entries_insert(
    entries: Seq<(Seq<char>, Term)>,
    key: Seq<char>,
    value: Term,
) -> Seq<(Seq<char>, Term)>
    decreases entries.len(),
{
    if entries.len() == 0 {
        seq![(key, value)]
    } else if entries[0].0 == key {
        entries.update(0, (key, value))
    } else {
        seq![entries[0]] + entries_insert(entries.drop_first(), key, value)
    }
}

/// The entries that the forms from index `from` on add to `entries`, pair
/// by pair: a key, then its value.
pub open spec fn collect_entries(
    forms: Seq<Term>,
    from: nat,
    entries: Seq<(Seq<char>, Term)>,
) -> Result<Seq<(Seq<char>, Term)>, Failure>
    decreases forms.len() - from,
{
    if from + 1 >= forms.len() {
        Ok(entries)
    } else {
        match map_key(forms[from as int]) {
            Some(key) => collect_entries(
                forms,
                from + 2,
                entries_insert(entries, key, forms[from as int + 1]),
            ),
            None => Err(Failure::BadMapKey),
        }
    }
}

/// The entries of the map that a sequence of forms writes.
pub open spec fn build_map(forms: Seq<Term>) -> Result<Seq<(Seq<char>, Term)>, Failure> {
    if forms.len() % 2 != 0 {
        Err(Failure::OddMap)
    } else {
        collect_entries(forms, 0, Seq::empty())
    }
}

/// The forms read so far, put before those that follow.
pub open spec fn prepend_items(front: Seq<Term>, rest: ParsedItems) -> ParsedItems {
    match rest {
        Ok((items, next)) => Ok((front + items, next)),
        Err(failure) => Err(failure),
    }
}

/// The form that starts at a position of the token sequence.
///
/// An opening bracket starts a sequence that runs to its closing token; a
/// quote marker wraps the one form after it; any other token is an atom.
pub open spec fn parse_form(tokens: Seq<Seq<char>>, pos: nat) -> Parsed
    decreases tokens.len() - pos, 0nat,
{
    if pos >= tokens.len() {
        Err(Failure::MissingForm)
    } else {
        let token = tokens[pos as int];
        if token == seq!['('] {
            parse_sequence(tokens, pos + 1, SequenceType::List)
        } else if token == seq!['['] {
            parse_sequence(tokens, pos + 1, SequenceType::Vector)
        } else if token == seq!['{'] {
            parse_sequence(tokens, pos + 1, SequenceType::Dict)
        } else if token == seq!['\''] {
            parse_quote(tokens, pos + 1, QuoteType::Quote)
        } else if token == seq!['`'] {
            parse_quote(tokens, pos + 1, QuoteType::QuasiQuote)
        } else if token == seq!['~'] {
            parse_quote(tokens, pos + 1, QuoteType::Unquote)
        } else if token == seq!['~', '@'] {
            parse_quote(tokens, pos + 1, QuoteType::SpliceUnquote)
        } else {
            match parse_atom(token) {
                Ok(term) => Ok((term, pos + 1)),
                Err(failure) => Err(failure),
            }
        }
    }
}

/// The form at a position, wrapped for a quote marker.
pub open spec fn parse_quote(tokens: Seq<Seq<char>>, pos: nat, kind: QuoteType) -> Parsed
    decreases tokens.len() - pos, 1nat,
{
    match parse_form(tokens, pos) {
        Ok((inner, next)) => Ok((wrap_quoted(kind, inner), next)),
        Err(failure) => Err(failure),
    }
}

/// The forms from a position up to the closing token, which is consumed.
/// Where the tokens end before it, the sequence is unbalanced.
pub open spec fn parse_items(tokens: Seq<Seq<char>>, pos: nat, closer: char) -> ParsedItems
    decreases tokens.len() - pos, 1nat,
{
    if pos >= tokens.len() {
        Err(Failure::UnbalancedSequence)
    } else if tokens[pos as int] == seq![closer] {
        Ok((Seq::empty(), pos + 1))
    } else {
        match parse_form(tokens, pos) {
            Ok((form, next)) => if pos < next <= tokens.len() {
                prepend_items(seq![form], parse_items(tokens, next, closer))
            } else {
                Err(Failure::UnbalancedSequence)
            },
            Err(failure) => Err(failure),
        }
    }
}

/// The sequence whose first form, if any, starts at a position: a list or
/// a vector of the forms up to the closing token, or the map that they
/// write.
pub open spec fn parse_sequence(tokens: Seq<Seq<char>>, pos: nat, kind: SequenceType) -> Parsed
    decreases tokens.len() - pos, 2nat,
{
    match parse_items(tokens, pos, closing_char(kind)) {
        Ok((forms, next)) => match kind {
            SequenceType::List => Ok((Term::List(forms), next)),
            SequenceType::Vector => Ok((Term::Vector(forms), next)),
            SequenceType::Dict => match build_map(forms) {
                Ok(entries) => Ok((Term::Dict(entries), next)),
                Err(failure) => Err(failure),
            },
        },
        Err(failure) => Err(failure),
    }
}

/// The first form of a token sequence. Tokens after it are not looked at.
pub open spec fn read_tokens(tokens: Seq<Seq<char>>) -> Result<Term, Failure> {
    match parse_form(tokens, 0) {
        Ok((term, _)) => Ok(term),
        Err(failure) => Err(failure),
    }
}

/// The first form of a text.
pub open spec fn read_text(input: Seq<char>) -> Result<Term, Failure> {
    match tokens_of(input) {
        Some(tokens) => read_tokens(tokens),
        None => Err(Failure::Tokenizer),
    }
}

/// The value of what a reading function returns.
pub open spec fn parsed_view(res: Result<(LispTerm, usize), LispError>) -> Parsed {
    match res {
        Ok((term, next)) => Ok((term@, next as nat)),
        Err(error) => Err(error@),
    }
}

/// The first character of a token that has one.
pub fn first_char(token: &str) -> (c: char)
    requires
        token@.len() > 0,
    ensures
        c == token@[0],
{
    token.get_char(0)
}

/// Reads a keyword token: the name after its colon.
pub fn read_keyword(token: &str) -> (res: Result<String, LispError>)
    ensures
        match res {
            Ok(name) => keyword_name(token@) == Some(name@),
            Err(error) => error@ == Failure::NotKeyword && keyword_name(token@) is None,
        },
{
    let chars = to_chars(token);
    if chars.len() > 0 && chars[0] == ':' {
        Ok(from_chars(&copy_range(&chars, 1, chars.len())))
    } else {
        Err(LispError::NotKeyword)
    }
}

/// Reads a string token: what stands between its opening and its closing
/// double quote, as it is; a quote or a backslash inside stays. The token
/// is unbalanced where its closing quote is missing or escaped.
pub fn read_string(token: &str) -> (res: Result<String, LispError>)
    ensures
        match res {
            Ok(text) => string_content(token@) == Some(text@),
            Err(error) => error@ == Failure::UnbalancedString && string_content(token@) is None,
        },
{
    let chars = to_chars(token);
    let len = chars.len();
    if len < 2 || chars[len - 1] != '"' {
        return Err(LispError::UnbalancedString);
    }
    let ghost body = chars@.drop_last();
    let mut end: usize = len - 1;
    let mut even = true;
    assert(body.take(end as int) =~= body);
    while end > 0 && chars[end - 1] == '\\'
        invariant
            end <= len - 1,
            len == chars.len(),
            body == chars@.drop_last(),
            even == ((trailing_backslashes(body) - trailing_backslashes(body.take(end as int))) % 2
                == 0),
            trailing_backslashes(body) >= trailing_backslashes(body.take(end as int)),
        decreases end,
    {
        assert(body.take(end as int).drop_last() =~= body.take(end - 1));
        assert(body.take(end as int).last() == chars@[end - 1]);
        end -= 1;
        even = !even;
    }
    assert(trailing_backslashes(body.take(end as int)) == 0) by {
        if end > 0 {
            assert(body.take(end as int).last() == chars@[end - 1]);
        }
    }
    if even {
        Ok(from_chars(&copy_range(&chars, 1, len - 1)))
    } else {
        Err(LispError::UnbalancedString)
    }
}

/// Reads the atom at a position of the tokens.
pub fn read_atom(tokens: &Vec<String>, pos: usize) -> (res: Result<(LispTerm, usize), LispError>)
    ensures
        pos < tokens.len() ==> parsed_view(res) == match parse_atom(token_views(tokens@)[pos as int]) {
            Ok(term) => Ok::<(Term, nat), Failure>((term, (pos + 1) as nat)),
            Err(failure) => Err(failure),
        },
        pos >= tokens.len() ==> parsed_view(res) == Err::<(Term, nat), Failure>(
            Failure::MissingAtom,
        ),
{
    if pos >= tokens.len() {
        return Err(LispError::MissingAtom);
    }
    let token = tokens[pos].as_str();
    let chars = to_chars(token);
    if chars.len() == 0 {
        return Err(LispError::EmptyToken);
    }
    match parse_isize(&chars) {
        Some(n) => {
            return Ok((LispTerm::Number(n), pos + 1));
        },
        None => {},
    }
    if first_char(token) == '"' {
        match read_string(token) {
            Ok(text) => Ok((LispTerm::Str(text), pos + 1)),
            Err(error) => Err(error),
        }
    } else if first_char(token) == ':' {
        match read_keyword(token) {
            Ok(name) => Ok((LispTerm::Keyword(name), pos + 1)),
            Err(error) => Err(error),
        }
    } else if same_text(&chars, "nil") {
        Ok((LispTerm::Nil, pos + 1))
    } else if same_text(&chars, "true") {
        Ok((LispTerm::Boolean(true), pos + 1))
    } else if same_text(&chars, "false") {
        Ok((LispTerm::Boolean(false), pos + 1))
    } else {
        Ok((LispTerm::Symbol(String::from_str(token)), pos + 1))
    }
}

/// Where the first key of the entries equals `key`, the entries with that
/// entry's value replaced.
pub proof fn lemma_insert_found(
    entries: Seq<(Seq<char>, Term)>,
    key: Seq<char>,
    value: Term,
    at: int,
)
    requires
        0 <= at < entries.len(),
        entries[at].0 == key,
        forall|i: int| 0 <= i < at ==> entries[i].0 != key,
    ensures
        entries_insert(entries, key, value) == entries.update(at, (key, value)),
    decreases at,
{
    if at > 0 {
        let rest = entries.drop_first();
        assert forall|i: int| 0 <= i < at - 1 implies rest[i].0 != key by {
            assert(rest[i] == entries[i + 1]);
        }
        lemma_insert_found(rest, key, value, at - 1);
        assert(seq![entries[0]] + rest.update(at - 1, (key, value)) =~= entries.update(
            at,
            (key, value),
        ));
    }
}

/// Where no entry holds `key`, the entries with a new entry at the end.
pub proof fn lemma_insert_absent(entries: Seq<(Seq<char>, Term)>, key: Seq<char>, value: Term)
    requires
        forall|i: int| 0 <= i < entries.len() ==> entries[i].0 != key,
    ensures
        entries_insert(entries, key, value) == entries.push((key, value)),
    decreases entries.len(),
{
    if entries.len() > 0 {
        let rest = entries.drop_first();
        assert forall|i: int| 0 <= i < rest.len() implies rest[i].0 != key by {
            assert(rest[i] == entries[i + 1]);
        }
        lemma_insert_absent(rest, key, value);
        assert(seq![entries[0]] + rest.push((key, value)) =~= entries.push((key, value)));
    } else {
        assert(seq![(key, value)] =~= entries.push((key, value)));
    }
}

/// Gives a key its value among the entries of a map.
pub fn insert_entry(entries: &mut Vec<(String, LispTerm)>, key: String, value: LispTerm)
    ensures
        entry_views(final(entries)@) == entries_insert(entry_views(old(entries)@), key@, value@),
{
    let ghost before = entry_views(entries@);
    let mut i: usize = 0;
    while i < entries.len()
        invariant
            i <= entries.len(),
            before == entry_views(entries@),
            before == entry_views(old(entries)@),
            forall|j: int| 0 <= j < i ==> before[j].0 != key@,
        decreases entries.len() - i,
    {
        if entries[i].0 == key {
            proof {
                lemma_insert_found(before, key@, value@, i as int);
            }
            entries.set(i, (key, value));
            assert(entry_views(entries@) =~= before.update(i as int, (key@, value@)));
            return ;
        }
        i += 1;
    }
    proof {
        lemma_insert_absent(before, key@, value@);
    }
    entries.push((key, value));
    assert(entry_views(entries@) =~= before.push((key@, value@)));
}

/// Builds the entries of a map from its forms, taken in pairs of a key and
/// a value. A key that comes again replaces the value it had.
pub fn construct_map(forms: &Vec<LispTerm>) -> (res: Result<Vec<(String, LispTerm)>, LispError>)
    ensures
        match res {
            Ok(entries) => build_map(term_views(forms@)) == Ok::<
                Seq<(Seq<char>, Term)>,
                Failure,
            >(entry_views(entries@)),
            Err(error) => build_map(term_views(forms@)) == Err::<Seq<(Seq<char>, Term)>, Failure>(
                error@,
            ),
        },
{
    let ghost views = term_views(forms@);
    if forms.len() % 2 != 0 {
        return Err(LispError::OddMap);
    }
    let mut entries: Vec<(String, LispTerm)> = Vec::new();
    let mut i: usize = 0;
    assert(entry_views(entries@) =~= Seq::<(Seq<char>, Term)>::empty());
    while i < forms.len()
        invariant
            i <= forms.len(),
            i % 2 == 0,
            forms.len() % 2 == 0,
            views == term_views(forms@),
            build_map(views) == collect_entries(views, i as nat, entry_views(entries@)),
        decreases forms.len() - i,
    {
        assert(views[i as int] == forms@[i as int]@);
        assert(views[i + 1] == forms@[i + 1]@);
        let key = match &forms[i] {
            LispTerm::Str(text) => text.clone(),
            LispTerm::Keyword(name) => {
                let mut key = String::new();
                key.push(':');
                key.append(name.as_str());
                assert(key@ =~= seq![':'] + name@);
                key
            },
            _ => {
                return Err(LispError::BadMapKey);
            },
        };
        let value = forms[i + 1].clone();
        insert_entry(&mut entries, key, value);
        i += 2;
    }
    Ok(entries)
}

/// Whether a token is the one character.
fn is_single(token: &String, c: char) -> (res: bool)
    ensures
        res == (token@ == seq![c]),
{
    let chars = to_chars(token.as_str());
    if chars.len() == 1 && chars[0] == c {
        assert(token@ =~= seq![c]);
        true
    } else {
        false
    }
}

/// Reads the form that starts at a position of the tokens.
///
/// On success the form comes with the position of the first token after
/// it, which lies beyond the position it started at.
pub fn read_form(tokens: &Vec<String>, pos: usize) -> (res: Result<(LispTerm, usize), LispError>)
    ensures
        parsed_view(res) == parse_form(token_views(tokens@), pos as nat),
        res matches Ok((_, next)) ==> pos < next <= tokens.len(),
    decreases tokens.len() - pos, 0nat,
{
    if pos >= tokens.len() {
        return Err(LispError::MissingForm);
    }
    let ghost views = token_views(tokens@);
    assert(views[pos as int] == tokens@[pos as int]@);
    let first = &tokens[pos];
    if is_single(first, '(') {
        read_list(tokens, pos + 1)
    } else if is_single(first, '[') {
        read_vector(tokens, pos + 1)
    } else if is_single(first, '{') {
        read_map(tokens, pos + 1)
    } else if is_single(first, '\'') {
        read_quote(tokens, pos + 1, QuoteType::Quote)
    } else if is_single(first, '`') {
        read_quote(tokens, pos + 1, QuoteType::QuasiQuote)
    } else if is_single(first, '~') {
        read_quote(tokens, pos + 1, QuoteType::Unquote)
    } else if is_splice_marker(first) {
        read_quote(tokens, pos + 1, QuoteType::SpliceUnquote)
    } else {
        read_atom(tokens, pos)
    }
}

/// Whether a token is the splice-unquote marker `~@`.
fn is_splice_marker(token: &String) -> (res: bool)
    ensures
        res == (token@ == seq!['~', '@']),
{
    let chars = to_chars(token.as_str());
    if chars.len() == 2 && chars[0] == '~' && chars[1] == '@' {
        assert(token@ =~= seq!['~', '@']);
        true
    } else {
        false
    }
}

/// Reads the form at a position and wraps it for a quote marker.
pub fn read_quote(tokens: &Vec<String>, pos: usize, quote_type: QuoteType) -> (res: Result<
    (LispTerm, usize),
    LispError,
>)
    ensures
        parsed_view(res) == parse_quote(token_views(tokens@), pos as nat, quote_type),
        res matches Ok((_, next)) ==> pos < next <= tokens.len(),
    decreases tokens.len() - pos, 1nat,
{
    match read_form(tokens, pos) {
        Ok((form, next)) => {
            let wrapped = match quote_type {
                QuoteType::Quote => LispTerm::Quote(Box::new(form)),
                QuoteType::Unquote => LispTerm::Unquote(Box::new(form)),
                QuoteType::QuasiQuote => LispTerm::QuasiQuote(Box::new(form)),
                QuoteType::SpliceUnquote => LispTerm::SpliceUnquote(Box::new(form)),
            };
            proof {
                lemma_view_of_parts(wrapped);
            }
            Ok((wrapped, next))
        },
        Err(error) => Err(error),
    }
}

/// Reads a list whose first form, if any, is at a position.
pub fn read_list(tokens: &Vec<String>, pos: usize) -> (res: Result<(LispTerm, usize), LispError>)
    ensures
        parsed_view(res) == parse_sequence(token_views(tokens@), pos as nat, SequenceType::List),
        res matches Ok((_, next)) ==> pos < next <= tokens.len(),
    decreases tokens.len() - pos, 3nat,
{
    read_sequence(tokens, pos, SequenceType::List)
}

/// Reads a vector whose first form, if any, is at a position.
pub fn read_vector(tokens: &Vec<String>, pos: usize) -> (res: Result<(LispTerm, usize), LispError>)
    ensures
        parsed_view(res) == parse_sequence(token_views(tokens@), pos as nat, SequenceType::Vector),
        res matches Ok((_, next)) ==> pos < next <= tokens.len(),
    decreases tokens.len() - pos, 3nat,
{
    read_sequence(tokens, pos, SequenceType::Vector)
}

/// Reads a map whose first form, if any, is at a position.
pub fn read_map(tokens: &Vec<String>, pos: usize) -> (res: Result<(LispTerm, usize), LispError>)
    ensures
        parsed_view(res) == parse_sequence(token_views(tokens@), pos as nat, SequenceType::Dict),
        res matches Ok((_, next)) ==> pos < next <= tokens.len(),
    decreases tokens.len() - pos, 3nat,
{
    read_sequence(tokens, pos, SequenceType::Dict)
}

/// Reads the forms from a position up to the token that closes the
/// sequence, and builds the sequence from them.
pub fn read_sequence(tokens: &Vec<String>, pos: usize, sequence_type: SequenceType) -> (res:
    Result<(LispTerm, usize), LispError>)
    ensures
        parsed_view(res) == parse_sequence(token_views(tokens@), pos as nat, sequence_type),
        res matches Ok((_, next)) ==> pos < next <= tokens.len(),
    decreases tokens.len() - pos, 2nat,
{
    let ghost views = token_views(tokens@);
    let delimiter: char = match sequence_type {
        SequenceType::List => ')',
        SequenceType::Vector => ']',
        SequenceType::Dict => '}',
    };
    let mut forms: Vec<LispTerm> = Vec::new();
    let mut cur: usize = pos;
    assert(term_views(forms@) =~= Seq::<Term>::empty());
    assert(prepend_items(Seq::empty(), parse_items(views, pos as nat, delimiter)) == parse_items(
        views,
        pos as nat,
        delimiter,
    )) by {
        match parse_items(views, pos as nat, delimiter) {
            Ok((items, _)) => {
                assert(Seq::<Term>::empty() + items =~= items);
            },
            Err(_) => {},
        }
    }
    while cur < tokens.len()
        invariant
            pos <= cur,
            views == token_views(tokens@),
            delimiter == closing_char(sequence_type),
            parse_items(views, pos as nat, delimiter) == prepend_items(
                term_views(forms@),
                parse_items(views, cur as nat, delimiter),
            ),
        decreases tokens.len() - cur,
    {
        assert(views[cur as int] == tokens@[cur as int]@);
        if is_single(&tokens[cur], delimiter) {
            assert(term_views(forms@) + Seq::<Term>::empty() =~= term_views(forms@));
            let next = cur + 1;
            match sequence_type {
                SequenceType::List => {
                    let term = LispTerm::List(forms);
                    proof {
                        lemma_view_of_parts(term);
                    }
                    return Ok((term, next));
                },
                SequenceType::Vector => {
                    let term = LispTerm::Vector(forms);
                    proof {
                        lemma_view_of_parts(term);
                    }
                    return Ok((term, next));
                },
                SequenceType::Dict => {
                    match construct_map(&forms) {
                        Ok(entries) => {
                            let term = LispTerm::Dict(entries);
                            proof {
                                lemma_view_of_parts(term);
                            }
                            return Ok((term, next));
                        },
                        Err(error) => {
                            return Err(error);
                        },
                    }
                },
            }
        }
        let ghost before = term_views(forms@);
        match read_form(tokens, cur) {
            Ok((form, next)) => {
                forms.push(form);
                proof {
                    assert(term_views(forms@) =~= before + seq![form@]);
                    match parse_items(views, next as nat, delimiter) {
                        Ok((items, _)) => {
                            assert(before + (seq![form@] + items) =~= (before + seq![form@])
                                + items);
                        },
                        Err(_) => {},
                    }
                }
                cur = next;
            },
            Err(error) => {
                return Err(error);
            },
        }
    }
    Err(LispError::UnbalancedSequence)
}

/// Reads the first form of a text.
///
/// It fails where the text holds no token, where a sequence or a string is
/// not closed, and where a map literal is malformed. What follows the first
/// form is not looked at.
pub fn read_str(input: &str) -> (res: Result<LispTerm, LispError>)
    ensures
        crate::error::outcome_view(res) == read_text(input@),
{
    match tokenize(input) {
        Ok(tokens) => match read_form(&tokens, 0) {
            Ok((term, _)) => Ok(term),
            Err(error) => Err(error),
        },
        Err(error) => Err(error),
    }
}

} // verus!
