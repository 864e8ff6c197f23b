use lisp::error::LispError;
use lisp::reader::{
    construct_map, first_char, insert_entry, read_atom, read_form, read_keyword, read_list,
    read_map, read_quote, read_sequence, read_str, read_string, read_vector, QuoteType,
    SequenceType,
};
use lisp::tokenizer::{tokenize, tokens_from_groups};
use lisp::types::LispTerm;

fn rsym(name: &str) -> LispTerm {
    LispTerm::Symbol(name.to_string())
}

fn rnum(n: isize) -> LispTerm {
    LispTerm::Number(n)
}

fn rtokens(tokens: &[&str]) -> Vec<String> {
    tokens.iter().map(|t| t.to_string()).collect()
}

#[test]
fn tokenize_splits_a_call() {
    assert_eq!(tokenize("(+ 1 2)"), Ok(rtokens(&["(", "+", "1", "2", ")"])));
}

#[test]
fn tokenize_ignores_the_trailing_newline() {
    assert_eq!(tokenize("(+ 1 2)\n"), Ok(rtokens(&["(", "+", "1", "2", ")"])));
}

#[test]
fn tokenize_of_empty_input_is_empty() {
    assert_eq!(tokenize(""), Ok(Vec::new()));
    assert_eq!(tokenize("   \n\t ,, "), Ok(Vec::new()));
}

#[test]
fn tokenize_prefers_the_splice_marker() {
    assert_eq!(tokenize("~@(a)"), Ok(rtokens(&["~@", "(", "a", ")"])));
    assert_eq!(tokenize("~ @a"), Ok(rtokens(&["~", "@", "a"])));
}

#[test]
fn tokenize_structural_characters_stand_alone() {
    assert_eq!(
        tokenize("[]{}()'`~^@"),
        Ok(rtokens(&["[", "]", "{", "}", "(", ")", "'", "`", "~", "^", "@"]))
    );
}

#[test]
fn tokenize_keeps_a_string_whole() {
    assert_eq!(
        tokenize("(str \"a b, c\" \"x\\\"y\")"),
        Ok(rtokens(&["(", "str", "\"a b, c\"", "\"x\\\"y\"", ")"]))
    );
}

#[test]
fn tokenize_passes_an_unterminated_string_through() {
    assert_eq!(tokenize("\"abc"), Ok(rtokens(&["\"abc"])));
    assert_eq!(tokenize("\"abc  \n"), Ok(rtokens(&["\"abc"])));
}

#[test]
fn tokenize_skips_commas_and_comments() {
    assert_eq!(tokenize("1, 2 ,3 ; the rest"), Ok(rtokens(&["1", "2", "3"])));
    assert_eq!(tokenize("; only a comment"), Ok(Vec::new()));
    assert_eq!(tokenize("(1 ; one\n 2)"), Ok(rtokens(&["(", "1", "2", ")"])));
}

#[test]
fn tokens_from_groups_trims_and_filters() {
    let groups = vec![
        Some("  a  ".to_string()),
        None,
        Some(String::new()),
        Some("; note".to_string()),
        Some("\u{2003}b\u{00A0}".to_string()),
        Some("   ".to_string()),
    ];
    assert_eq!(tokens_from_groups(&groups), rtokens(&["a", "b"]));
}

#[test]
fn read_str_reads_a_call() {
    assert_eq!(
        read_str("(+ 1 2)"),
        Ok(LispTerm::List(vec![rsym("+"), rnum(1), rnum(2)]))
    );
}

#[test]
fn read_str_unbalanced_list_fails() {
    assert_eq!(read_str("(+ 1 2"), Err(LispError::UnbalancedSequence));
    assert_eq!(read_str("("), Err(LispError::UnbalancedSequence));
    assert_eq!(read_str("[1 2"), Err(LispError::UnbalancedSequence));
    assert_eq!(read_str("{:a 1"), Err(LispError::UnbalancedSequence));
    assert_eq!(read_str("(1 (2 3)"), Err(LispError::UnbalancedSequence));
    assert_eq!(read_str("(1 2]"), Err(LispError::UnbalancedSequence));
}

#[test]
fn read_str_unbalanced_string_fails() {
    assert_eq!(read_str("\"abc"), Err(LispError::UnbalancedString));
    assert_eq!(read_str("\""), Err(LispError::UnbalancedString));
    assert_eq!(read_str("\"abc\\\""), Err(LispError::UnbalancedString));
    assert_eq!(read_str("(\"abc"), Err(LispError::UnbalancedString));
}

#[test]
fn read_str_empty_input_fails() {
    assert_eq!(read_str(""), Err(LispError::MissingForm));
    assert_eq!(read_str("  \n"), Err(LispError::MissingForm));
    assert_eq!(read_str("; nothing here"), Err(LispError::MissingForm));
    assert_eq!(read_str("'"), Err(LispError::MissingForm));
}

#[test]
fn read_str_reads_atoms() {
    assert_eq!(read_str("42"), Ok(rnum(42)));
    assert_eq!(read_str("-7"), Ok(rnum(-7)));
    assert_eq!(read_str("+7"), Ok(rnum(7)));
    assert_eq!(read_str("007"), Ok(rnum(7)));
    assert_eq!(read_str("nil"), Ok(LispTerm::Nil));
    assert_eq!(read_str("true"), Ok(LispTerm::Boolean(true)));
    assert_eq!(read_str("false"), Ok(LispTerm::Boolean(false)));
    assert_eq!(read_str(":kw"), Ok(LispTerm::Keyword("kw".to_string())));
    assert_eq!(read_str(":"), Ok(LispTerm::Keyword(String::new())));
    assert_eq!(read_str("abc"), Ok(rsym("abc")));
    assert_eq!(read_str("+"), Ok(rsym("+")));
    assert_eq!(read_str("-"), Ok(rsym("-")));
    assert_eq!(read_str("1a"), Ok(rsym("1a")));
    assert_eq!(read_str("def!"), Ok(rsym("def!")));
    assert_eq!(read_str("^"), Ok(rsym("^")));
}

#[test]
fn read_str_number_out_of_range_is_a_symbol() {
    assert_eq!(
        read_str("99999999999999999999999999"),
        Ok(rsym("99999999999999999999999999"))
    );
    assert_eq!(read_str(&isize::MAX.to_string()), Ok(rnum(isize::MAX)));
    assert_eq!(read_str(&isize::MIN.to_string()), Ok(rnum(isize::MIN)));
}

#[test]
fn read_str_reads_strings_verbatim() {
    assert_eq!(read_str("\"abc\""), Ok(LispTerm::Str("abc".to_string())));
    assert_eq!(read_str("\"\""), Ok(LispTerm::Str(String::new())));
    assert_eq!(read_str("\"a b\""), Ok(LispTerm::Str("a b".to_string())));
    assert_eq!(
        read_str("\"a\\\"b\""),
        Ok(LispTerm::Str("a\\\"b".to_string()))
    );
    assert_eq!(
        read_str("\"a\\\\\""),
        Ok(LispTerm::Str("a\\\\".to_string()))
    );
    assert_eq!(read_str("\"h\u{e9}\""), Ok(LispTerm::Str("h\u{e9}".to_string())));
}

#[test]
fn read_str_keeps_escaped_quotes() {
    assert_eq!(
        read_str("\"say \\\"hi\\\"\""),
        Ok(LispTerm::Str("say \\\"hi\\\"".to_string()))
    );
    assert_eq!(read_str("\"\\\"\""), Ok(LispTerm::Str("\\\"".to_string())));
    assert_eq!(read_str("\"a\\\"\""), Ok(LispTerm::Str("a\\\"".to_string())));
    assert_eq!(
        read_str("(\"\\\"\" \"x\")"),
        Ok(LispTerm::List(vec![
            LispTerm::Str("\\\"".to_string()),
            LispTerm::Str("x".to_string()),
        ]))
    );
}

#[test]
fn read_str_reads_nested_sequences() {
    assert_eq!(
        read_str("(a [1 2] (b))"),
        Ok(LispTerm::List(vec![
            rsym("a"),
            LispTerm::Vector(vec![rnum(1), rnum(2)]),
            LispTerm::List(vec![rsym("b")]),
        ]))
    );
    assert_eq!(read_str("()"), Ok(LispTerm::List(Vec::new())));
    assert_eq!(read_str("[]"), Ok(LispTerm::Vector(Vec::new())));
    assert_eq!(read_str("{}"), Ok(LispTerm::Dict(Vec::new())));
}

#[test]
fn read_str_looks_at_the_first_form_only() {
    assert_eq!(read_str("1 2 3"), Ok(rnum(1)));
    assert_eq!(read_str("(a) )"), Ok(LispTerm::List(vec![rsym("a")])));
    assert_eq!(read_str("1 \"abc"), Ok(rnum(1)));
}

#[test]
fn read_str_reads_quote_markers() {
    assert_eq!(read_str("'x"), Ok(LispTerm::Quote(Box::new(rsym("x")))));
    assert_eq!(read_str("`x"), Ok(LispTerm::QuasiQuote(Box::new(rsym("x")))));
    assert_eq!(read_str("~x"), Ok(LispTerm::Unquote(Box::new(rsym("x")))));
    assert_eq!(
        read_str("~@x"),
        Ok(LispTerm::SpliceUnquote(Box::new(rsym("x"))))
    );
    assert_eq!(
        read_str("'(1 'b)"),
        Ok(LispTerm::Quote(Box::new(LispTerm::List(vec![
            rnum(1),
            LispTerm::Quote(Box::new(rsym("b"))),
        ]))))
    );
    assert_eq!(read_str("'(1"), Err(LispError::UnbalancedSequence));
}

#[test]
fn read_str_reads_maps() {
    assert_eq!(
        read_str("{:a 1 \"b\" (2)}"),
        Ok(LispTerm::Dict(vec![
            (":a".to_string(), rnum(1)),
            ("b".to_string(), LispTerm::List(vec![rnum(2)])),
        ]))
    );
}

#[test]
fn read_str_map_duplicate_key_overwrites() {
    assert_eq!(
        read_str("{:a 1 :b 2 :a 3}"),
        Ok(LispTerm::Dict(vec![
            (":a".to_string(), rnum(3)),
            (":b".to_string(), rnum(2)),
        ]))
    );
    assert_eq!(
        read_str("{\":a\" 1 :a 2}"),
        Ok(LispTerm::Dict(vec![(":a".to_string(), rnum(2))]))
    );
}

#[test]
fn read_str_malformed_maps_fail() {
    assert_eq!(read_str("{:a}"), Err(LispError::OddMap));
    assert_eq!(read_str("{:a 1 :b}"), Err(LispError::OddMap));
    assert_eq!(read_str("{1 2}"), Err(LispError::BadMapKey));
    assert_eq!(read_str("{a 2}"), Err(LispError::BadMapKey));
    assert_eq!(read_str("{:a 1 (b) 2}"), Err(LispError::BadMapKey));
}

#[test]
fn read_form_gives_the_next_position() {
    let tokens = rtokens(&["(", "a", ")", "b"]);
    assert_eq!(
        read_form(&tokens, 0),
        Ok((LispTerm::List(vec![rsym("a")]), 3))
    );
    assert_eq!(read_form(&tokens, 1), Ok((rsym("a"), 2)));
    assert_eq!(read_form(&tokens, 3), Ok((rsym("b"), 4)));
    assert_eq!(read_form(&tokens, 4), Err(LispError::MissingForm));
    assert_eq!(read_form(&tokens, 9), Err(LispError::MissingForm));
}

#[test]
fn read_form_closing_token_alone_is_a_symbol() {
    let tokens = rtokens(&[")"]);
    assert_eq!(read_form(&tokens, 0), Ok((rsym(")"), 1)));
}

#[test]
fn read_sequence_reads_up_to_its_closer() {
    let tokens = rtokens(&["1", "2", "]", ")"]);
    assert_eq!(
        read_sequence(&tokens, 0, SequenceType::Vector),
        Ok((LispTerm::Vector(vec![rnum(1), rnum(2)]), 3))
    );
    assert_eq!(
        read_sequence(&tokens, 0, SequenceType::List),
        Ok((LispTerm::List(vec![rnum(1), rnum(2), rsym("]")]), 4))
    );
    assert_eq!(
        read_sequence(&tokens, 0, SequenceType::Dict),
        Err(LispError::UnbalancedSequence)
    );
    assert_eq!(
        read_sequence(&tokens, 4, SequenceType::List),
        Err(LispError::UnbalancedSequence)
    );
}

#[test]
fn read_list_vector_map_pick_their_closer() {
    let tokens = rtokens(&[":k", "v", "}", "]", ")"]);
    assert_eq!(
        read_map(&tokens, 0),
        Ok((
            LispTerm::Dict(vec![(":k".to_string(), rsym("v"))]),
            3
        ))
    );
    assert_eq!(
        read_vector(&tokens, 0),
        Ok((
            LispTerm::Vector(vec![
                LispTerm::Keyword("k".to_string()),
                rsym("v"),
                rsym("}"),
            ]),
            4
        ))
    );
    assert_eq!(
        read_list(&tokens, 3),
        Ok((LispTerm::List(vec![rsym("]")]), 5))
    );
}

#[test]
fn read_quote_wraps_the_next_form() {
    let tokens = rtokens(&["(", "a", ")"]);
    let inner = LispTerm::List(vec![rsym("a")]);
    assert_eq!(
        read_quote(&tokens, 0, QuoteType::Quote),
        Ok((LispTerm::Quote(Box::new(inner.clone())), 3))
    );
    assert_eq!(
        read_quote(&tokens, 0, QuoteType::QuasiQuote),
        Ok((LispTerm::QuasiQuote(Box::new(inner.clone())), 3))
    );
    assert_eq!(
        read_quote(&tokens, 0, QuoteType::Unquote),
        Ok((LispTerm::Unquote(Box::new(inner.clone())), 3))
    );
    assert_eq!(
        read_quote(&tokens, 0, QuoteType::SpliceUnquote),
        Ok((LispTerm::SpliceUnquote(Box::new(inner)), 3))
    );
    assert_eq!(
        read_quote(&tokens, 3, QuoteType::Quote),
        Err(LispError::MissingForm)
    );
}

#[test]
fn read_atom_rejects_missing_and_empty_tokens() {
    let tokens = rtokens(&["", "x"]);
    assert_eq!(read_atom(&tokens, 0), Err(LispError::EmptyToken));
    assert_eq!(read_atom(&tokens, 1), Ok((rsym("x"), 2)));
    assert_eq!(read_atom(&tokens, 2), Err(LispError::MissingAtom));
    assert_eq!(read_form(&tokens, 0), Err(LispError::EmptyToken));
}

#[test]
fn read_string_checks_the_closing_quote() {
    assert_eq!(read_string("\"abc\""), Ok("abc".to_string()));
    assert_eq!(read_string("\"\""), Ok(String::new()));
    assert_eq!(read_string("\"\"abc\"\""), Ok("\"abc\"".to_string()));
    assert_eq!(read_string("\"a\"b\""), Ok("a\"b".to_string()));
    assert_eq!(read_string("\"\\\"\""), Ok("\\\"".to_string()));
    assert_eq!(read_string("\"a\\\"\""), Ok("a\\\"".to_string()));
    assert_eq!(read_string("\"\"\""), Ok("\"".to_string()));
    assert_eq!(read_string("abc\""), Ok("bc".to_string()));
    assert_eq!(read_string("\"abc"), Err(LispError::UnbalancedString));
    assert_eq!(read_string("\""), Err(LispError::UnbalancedString));
    assert_eq!(read_string(""), Err(LispError::UnbalancedString));
    assert_eq!(read_string("\"a\\\""), Err(LispError::UnbalancedString));
    assert_eq!(read_string("\"a\\\\\""), Ok("a\\\\".to_string()));
    assert_eq!(read_string("\"a\\\\\\\""), Err(LispError::UnbalancedString));
    assert_eq!(read_string("\"\\\""), Err(LispError::UnbalancedString));
}

#[test]
fn read_keyword_strips_the_colon() {
    assert_eq!(read_keyword(":abc"), Ok("abc".to_string()));
    assert_eq!(read_keyword("::a"), Ok(":a".to_string()));
    assert_eq!(read_keyword(":"), Ok(String::new()));
    assert_eq!(read_keyword("abc"), Err(LispError::NotKeyword));
    assert_eq!(read_keyword(""), Err(LispError::NotKeyword));
}

#[test]
fn first_char_is_the_first() {
    assert_eq!(first_char("abc"), 'a');
    assert_eq!(first_char("\u{e9}t\u{e9}"), '\u{e9}');
}

#[test]
fn construct_map_pairs_keys_and_values() {
    let forms = vec![
        LispTerm::Keyword("a".to_string()),
        rnum(1),
        LispTerm::Str("b".to_string()),
        rnum(2),
        LispTerm::Keyword("a".to_string()),
        rnum(3),
    ];
    assert_eq!(
        construct_map(&forms),
        Ok(vec![(":a".to_string(), rnum(3)), ("b".to_string(), rnum(2))])
    );
    assert_eq!(construct_map(&Vec::new()), Ok(Vec::new()));
    assert_eq!(construct_map(&vec![rnum(1)]), Err(LispError::OddMap));
    assert_eq!(
        construct_map(&vec![rnum(1), rnum(2)]),
        Err(LispError::BadMapKey)
    );
    assert_eq!(
        construct_map(&vec![rsym("a"), rnum(2), rnum(3)]),
        Err(LispError::OddMap)
    );
}

#[test]
fn insert_entry_replaces_in_place_or_appends() {
    let mut entries = vec![("a".to_string(), rnum(1)), ("b".to_string(), rnum(2))];
    insert_entry(&mut entries, "a".to_string(), rnum(9));
    assert_eq!(
        entries,
        vec![("a".to_string(), rnum(9)), ("b".to_string(), rnum(2))]
    );
    insert_entry(&mut entries, "c".to_string(), rnum(3));
    assert_eq!(
        entries,
        vec![
            ("a".to_string(), rnum(9)),
            ("b".to_string(), rnum(2)),
            ("c".to_string(), rnum(3)),
        ]
    );
}
