use crate::error::{Failure, LispError};
use crate::text::{from_chars, strip, strip_chars, to_chars};
use regex::Regex;
use vstd::prelude::*;

verus! {

/// The error with which `regex` rejects a pattern. Nothing is known of what
/// it holds.
#[verifier::external_type_specification]
#[verifier::external_body]
pub struct ExRegexError(regex::Error);

/// What `regex` finds for a pattern in a text: nothing where it rejects the
/// pattern; else, for each of the successive non-overlapping matches from
/// left to right, the part of the text that the capture group of the given
/// number matched, where that group took part in the match.
pub uninterp spec fn regex_group_matches(pattern: Seq<char>, group: nat, text: Seq<char>) -> Option<
    Seq<Option<Seq<char>>>,
>;

/// The views of the strings that were found.
pub open spec fn group_views(found: Seq<Option<String>>) -> Seq<Option<Seq<char>>> {
    Seq::new(
        found.len(),
        |i: int|
            match found[i] {
                Some(text) => Some(text@),
                None => None,
            },
    )
}

/// Compiles the pattern with `Regex::new` and walks `Regex::captures_iter`
/// over the text, taking from each match the text (`Match::as_str`) of what
/// `Captures::get` gives for the group. Nothing here is proved. The contract
/// only gives that result its name: it claims that the result is determined
/// by the pattern, the group and the text, and that the call fails exactly
/// where the pattern is rejected.
#[verifier::external_body]
fn group_matches(pattern: &str, group: usize, text: &str) -> (res: Result<
    Vec<Option<String>>,
    regex::Error,
>)
    ensures
        match res {
            Ok(found) => regex_group_matches(pattern@, group as nat, text@) == Some(
                group_views(found@),
            ),
            Err(_) => regex_group_matches(pattern@, group as nat, text@) is None,
        },
{
    let re = Regex::new(pattern)?;
    Ok(re.captures_iter(text).map(|found| found.get(group).map(|m| String::from(m.as_str()))).collect())
}

/// The pattern of one token, after any blanks and commas before it: the
/// splice-unquote marker, one structural character, a string literal with or
/// without its closing quote, a comment up to the end of its line, or a run
/// of other characters. Its first group is the token.
pub const TOKEN_PATTERN: &'static str =
    r#"[\s,]*(~@|[\[\]{}()'`~^@]|"(?:\\.|[^\\"])*"?|;.*|[^\s\[\]{}('"`,;)]*)"#;

/// The token that a match gives: what its group matched, without the blanks
/// at its ends, unless that is empty or a comment.
pub open spec fn token_of_group(group: Option<Seq<char>>) -> Option<Seq<char>> {
    match group {
        None => None,
        Some(text) => {
            let token = strip(text);
            if token.len() == 0 || token[0] == ';' {
                None
            } else {
                Some(token)
            }
        },
    }
}

/// The tokens that a run of matches gives, in order.
pub open spec fn tokens_of_groups(groups: Seq<Option<Seq<char>>>) -> Seq<Seq<char>>
    decreases groups.len(),
{
    if groups.len() == 0 {
        Seq::empty()
    } else {
        let before = tokens_of_groups(groups.drop_last());
        match token_of_group(groups.last()) {
            Some(token) => before.push(token),
            None => before,
        }
    }
}

/// The tokens of a text, or nothing where the token pattern is rejected.
pub open spec fn tokens_of(input: Seq<char>) -> Option<Seq<Seq<char>>> {
    match regex_group_matches(TOKEN_PATTERN@, 1, input) {
        Some(groups) => Some(tokens_of_groups(groups)),
        None => None,
    }
}

/// The views of a run of tokens.
pub open spec fn token_views(tokens: Seq<String>) -> Seq<Seq<char>> {
    Seq::new(tokens.len(), |i: int| tokens[i]@)
}

/// Keeps of the matches what counts as a token.
pub fn tokens_from_groups(groups: &Vec<Option<String>>) -> (tokens: Vec<String>)
    ensures
        token_views(tokens@) == tokens_of_groups(group_views(groups@)),
{
    let ghost views = group_views(groups@);
    let mut tokens: Vec<String> = Vec::new();
    let mut i: usize = 0;
    assert(views.take(0) =~= Seq::<Option<Seq<char>>>::empty());
    assert(token_views(tokens@) =~= Seq::<Seq<char>>::empty());
    while i < groups.len()
        invariant
            i <= groups.len(),
            views == group_views(groups@),
            token_views(tokens@) == tokens_of_groups(views.take(i as int)),
        decreases groups.len() - i,
    {
        let ghost before = token_views(tokens@);
        assert(views.take(i + 1).drop_last() =~= views.take(i as int));
        assert(views.take(i + 1).last() == views[i as int]);
        match &groups[i] {
            Some(text) => {
                let chars = to_chars(text.as_str());
                let token = strip_chars(&chars);
                if token.len() > 0 && token[0] != ';' {
                    tokens.push(from_chars(&token));
                    assert(token_views(tokens@) =~= before.push(token@));
                }
            },
            None => {},
        }
        i += 1;
    }
    assert(views.take(groups.len() as int) =~= views);
    tokens
}

/// Splits a text into its tokens.
///
/// The tokens come in the order of the text. Blanks and commas between
/// them, comments and empty matches give no token; a text without tokens
/// gives none.
pub fn tokenize(input: &str) -> (res: Result<Vec<String>, LispError>)
    ensures
        match res {
            Ok(tokens) => tokens_of(input@) == Some(token_views(tokens@)),
            Err(error) => error@ == Failure::Tokenizer && tokens_of(input@) is None,
        },
{
    match group_matches(TOKEN_PATTERN, 1, input) {
        Ok(groups) => Ok(tokens_from_groups(&groups)),
        Err(_) => Err(LispError::Tokenizer),
    }
}

} // verus!
