use tagger::infix::{parse_infix, tokenize, Token};
use tagger::tagmap::MatchRule;

#[test]
fn test_tokenize() {
    assert_eq!(
        tokenize("foo !bar"),
        vec![
            Token::Tag("foo".into()),
            Token::PrefixNot,
            Token::Tag("bar".into())
        ]
    );
}

#[test]
fn test_parse() {
    assert_eq!(
        parse_infix("foo !bar"),
        Ok(MatchRule::Conjunction(vec![
            MatchRule::RequireAll(vec!["foo".into()]),
            MatchRule::ExcludeAny(vec!["bar".into()])
        ]))
    );
}

#[test]
fn tokenize_merges_tags_across_special_characters() {
    // A special character does not flush the pending tag buffer: the tag
    // text on both sides of it merges into one token.
    assert_eq!(
        tokenize("foo!bar"),
        vec![Token::PrefixNot, Token::Tag("foobar".into())]
    );
}

#[test]
fn tokenize_handles_all_special_characters() {
    assert_eq!(
        tokenize("( ) ! & | tag"),
        vec![
            Token::Lparen,
            Token::Rparen,
            Token::PrefixNot,
            Token::InfixAnd,
            Token::InfixOr,
            Token::Tag("tag".into())
        ]
    );
}

#[test]
fn tokenize_empty_and_blank_input() {
    assert_eq!(tokenize(""), vec![]);
    assert_eq!(tokenize("   \t "), vec![]);
}

#[test]
fn parse_empty_query_is_empty_conjunction() {
    assert_eq!(parse_infix(""), Ok(MatchRule::Conjunction(vec![])));
}

#[test]
fn parse_ignores_grouping_and_infix_operators() {
    // "a | b" is evaluated as `a AND b`: the parser recognizes but ignores
    // parentheses and the infix operators.
    assert_eq!(
        parse_infix("( a | b )"),
        Ok(MatchRule::Conjunction(vec![
            MatchRule::RequireAll(vec!["a".into()]),
            MatchRule::RequireAll(vec!["b".into()])
        ]))
    );
}

#[test]
fn parse_negation_applies_to_next_tag_only() {
    assert_eq!(
        parse_infix("!a b"),
        Ok(MatchRule::Conjunction(vec![
            MatchRule::ExcludeAny(vec!["a".into()]),
            MatchRule::RequireAll(vec!["b".into()])
        ]))
    );
}

#[test]
fn parse_error_message() {
    let e = tagger::infix::ParseError;
    assert_eq!(e.message(), "Unknown error.");
}
