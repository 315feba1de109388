//! The query tokenizer and the rule parser.
//!
//! A query is a single line of text such as `"foo !bar"`. [`tokenize`] turns
//! it into a flat token sequence; [`parse_infix`] folds the tokens into one
//! [`MatchRule::Conjunction`], one term per tag token, negating a term when a
//! `!` token immediately precedes its tag.

use crate::tagmap::{rule_view, rules_view, MatchRule, RuleView};
use crate::tagmap::lemma_rules_view_index;
use crate::text::{char_is_space, is_space, push_char};
use vstd::prelude::*;

verus! {

/// One token of the query surface syntax.
#[derive(Debug)]
pub enum Token {
    Lparen,
    Rparen,
    PrefixNot,
    InfixAnd,
    InfixOr,
    Tag(String),
}

/// The mathematical shape of a [`Token`]: the tag text as a character
/// sequence.
pub enum TokenView {
    Lparen,
    Rparen,
    PrefixNot,
    InfixAnd,
    InfixOr,
    Tag(Seq<char>),
}

impl DeepView for Token {
    type V = TokenView;

    open spec fn deep_view(&self) -> TokenView {
        match self {
            Token::Lparen => TokenView::Lparen,
            Token::Rparen => TokenView::Rparen,
            Token::PrefixNot => TokenView::PrefixNot,
            Token::InfixAnd => TokenView::InfixAnd,
            Token::InfixOr => TokenView::InfixOr,
            Token::Tag(s) => TokenView::Tag(s@),
        }
    }
}

impl PartialEq for Token {
    fn eq(&self, other: &Token) -> (r: bool) {
        match (self, other) {
            (Token::Lparen, Token::Lparen) => true,
            (Token::Rparen, Token::Rparen) => true,
            (Token::PrefixNot, Token::PrefixNot) => true,
            (Token::InfixAnd, Token::InfixAnd) => true,
            (Token::InfixOr, Token::InfixOr) => true,
            (Token::Tag(a), Token::Tag(b)) => *a == *b,
            _ => false,
        }
    }
}

impl vstd::std_specs::cmp::PartialEqSpecImpl for Token {
    open spec fn obeys_eq_spec() -> bool {
        true
    }

    open spec fn eq_spec(&self, other: &Token) -> bool {
        self.deep_view() == other.deep_view()
    }
}

/// The tokens produced from the remaining input `s`, with `pending` holding
/// the tag characters accumulated so far.
///
/// Whitespace flushes a non-empty pending buffer as a tag token. Each of the
/// five special characters is emitted at once as its own token, without
/// flushing the buffer first: tag text adjacent to a special character
/// therefore merges across it, and whitespace is the only reliable token
/// separator. A non-empty buffer is flushed at the end of the input.
pub open spec fn tokens_from(s: Seq<char>, pending: Seq<char>) -> Seq<TokenView>
    decreases s.len(),
{
    if s.len() == 0 {
        if pending.len() == 0 {
            Seq::empty()
        } else {
            seq![TokenView::Tag(pending)]
        }
    } else {
        let c = s[0];
        let rest = s.drop_first();
        if c == '(' {
            seq![TokenView::Lparen] + tokens_from(rest, pending)
        } else if c == ')' {
            seq![TokenView::Rparen] + tokens_from(rest, pending)
        } else if c == '!' {
            seq![TokenView::PrefixNot] + tokens_from(rest, pending)
        } else if c == '&' {
            seq![TokenView::InfixAnd] + tokens_from(rest, pending)
        } else if c == '|' {
            seq![TokenView::InfixOr] + tokens_from(rest, pending)
        } else if is_space(c) {
            if pending.len() == 0 {
                tokens_from(rest, pending)
            } else {
                seq![TokenView::Tag(pending)] + tokens_from(rest, Seq::empty())
            }
        } else {
            tokens_from(rest, pending.push(c))
        }
    }
}

/// The token sequence of a whole query string.
pub open spec fn spec_tokenize(s: Seq<char>) -> Seq<TokenView> {
    tokens_from(s, Seq::empty())
}

/// Splits query text into tokens, as [`spec_tokenize`] describes.
pub fn tokenize(text: &str) -> (r: Vec<Token>)
    ensures
        r.deep_view() == spec_tokenize(text@),
{
    let ghost s = text@;
    let mut tokens: Vec<Token> = Vec::new();
    let mut tag = String::new();
    let n = text.unicode_len();
    let mut i: usize = 0;
    proof {
        assert(s.skip(0int) =~= s);
        assert(tokens.deep_view() =~= Seq::<TokenView>::empty());
    }
    while i < n
        invariant
            i <= n,
            n == s.len(),
            spec_tokenize(s) == tokens.deep_view() + tokens_from(s.skip(i as int), tag@),
        decreases n - i,
    {
        let c = text.get_char(i);
        let ghost tokens0 = tokens.deep_view();
        let ghost tag0 = tag@;
        proof {
            assert(s.skip(i as int)[0] == c);
            assert(s.skip(i as int).drop_first() =~= s.skip(i as int + 1));
        }
        if c == '(' {
            tokens.push(Token::Lparen);
            proof {
                assert(tokens.deep_view() =~= tokens0.push(TokenView::Lparen));
                assert(tokens0 + (seq![TokenView::Lparen] + tokens_from(s.skip(i as int + 1), tag@))
                    =~= tokens.deep_view() + tokens_from(s.skip(i as int + 1), tag@));
            }
        } else if c == ')' {
            tokens.push(Token::Rparen);
            proof {
                assert(tokens.deep_view() =~= tokens0.push(TokenView::Rparen));
                assert(tokens0 + (seq![TokenView::Rparen] + tokens_from(s.skip(i as int + 1), tag@))
                    =~= tokens.deep_view() + tokens_from(s.skip(i as int + 1), tag@));
            }
        } else if c == '!' {
            tokens.push(Token::PrefixNot);
            proof {
                assert(tokens.deep_view() =~= tokens0.push(TokenView::PrefixNot));
                assert(tokens0 + (seq![TokenView::PrefixNot] + tokens_from(
                    s.skip(i as int + 1),
                    tag@,
                )) =~= tokens.deep_view() + tokens_from(s.skip(i as int + 1), tag@));
            }
        } else if c == '&' {
            tokens.push(Token::InfixAnd);
            proof {
                assert(tokens.deep_view() =~= tokens0.push(TokenView::InfixAnd));
                assert(tokens0 + (seq![TokenView::InfixAnd] + tokens_from(
                    s.skip(i as int + 1),
                    tag@,
                )) =~= tokens.deep_view() + tokens_from(s.skip(i as int + 1), tag@));
            }
        } else if c == '|' {
            tokens.push(Token::InfixOr);
            proof {
                assert(tokens.deep_view() =~= tokens0.push(TokenView::InfixOr));
                assert(tokens0 + (seq![TokenView::InfixOr] + tokens_from(
                    s.skip(i as int + 1),
                    tag@,
                )) =~= tokens.deep_view() + tokens_from(s.skip(i as int + 1), tag@));
            }
        } else if char_is_space(c) {
            if !tag.as_str().is_empty() {
                tokens.push(Token::Tag(tag));
                tag = String::new();
                proof {
                    assert(tokens.deep_view() =~= tokens0.push(TokenView::Tag(tag0)));
                    assert(tokens0 + (seq![TokenView::Tag(tag0)] + tokens_from(
                        s.skip(i as int + 1),
                        tag@,
                    )) =~= tokens.deep_view() + tokens_from(s.skip(i as int + 1), tag@));
                }
            }
        } else {
            push_char(&mut tag, c);
        }
        i = i + 1;
    }
    proof {
        assert(s.skip(i as int) =~= Seq::<char>::empty());
    }
    if !tag.as_str().is_empty() {
        let ghost tokens0 = tokens.deep_view();
        let ghost tag0 = tag@;
        tokens.push(Token::Tag(tag));
        proof {
            assert(tokens.deep_view() =~= tokens0.push(TokenView::Tag(tag0)));
            assert(tokens0 + seq![TokenView::Tag(tag0)] =~= tokens.deep_view());
        }
    } else {
        proof {
            assert(tokens.deep_view() + Seq::<TokenView>::empty() =~= tokens.deep_view());
        }
    }
    tokens
}

/// The error type of [`parse_infix`], kept so that the interface stays
/// fallible: no query string currently fails to parse.
#[derive(Debug, PartialEq, Eq, Structural)]
pub struct ParseError;

impl ParseError {
    /// A short description of the error.
    pub fn message(&self) -> (r: &'static str)
        ensures
            r@ == "Unknown error."@,
    {
        "Unknown error."
    }
}

/// The rule terms produced from the remaining tokens, with `neg` set when a
/// `PrefixNot` token is waiting to negate the next tag.
///
/// A tag token becomes one term: `ExcludeAny` of that single tag when `neg`
/// is set, `RequireAll` of it otherwise. Parentheses and the infix `&` and
/// `|` tokens are recognized but deliberately have no effect.
pub open spec fn rules_from(toks: Seq<TokenView>, neg: bool) -> Seq<RuleView>
    decreases toks.len(),
{
    if toks.len() == 0 {
        Seq::empty()
    } else {
        let rest = toks.drop_first();
        match toks[0] {
            TokenView::Tag(s) => (if neg {
                seq![RuleView::ExcludeAny(seq![s])]
            } else {
                seq![RuleView::RequireAll(seq![s])]
            }) + rules_from(rest, false),
            TokenView::PrefixNot => rules_from(rest, true),
            _ => rules_from(rest, neg),
        }
    }
}

/// The rule a query string parses to: one conjunction, one term per tag
/// token.
pub open spec fn spec_parse(text: Seq<char>) -> RuleView {
    RuleView::Conjunction(rules_from(spec_tokenize(text), false))
}

/// Parses infix boolean-algebra query text into a rule, as [`spec_parse`]
/// describes. A query such as `"a | b"` is therefore evaluated as `a` AND
/// `b`: explicit disjunction and grouping are accepted by the tokenizer but
/// not acted on. Parsing never fails; the `Result` stays for interface
/// stability.
pub fn parse_infix(text: &str) -> (r: Result<MatchRule, ParseError>)
    ensures
        r is Ok,
        rule_view(r->Ok_0) == spec_parse(text@),
{
    let tokens = tokenize(text);
    let ghost toks = tokens.deep_view();
    let mut rules: Vec<MatchRule> = Vec::new();
    let mut not = false;
    let mut i: usize = 0;
    proof {
        assert(toks.skip(0int) =~= toks);
        lemma_rules_view_index(rules, 0int);
        assert(rules_view(rules, 0int) + rules_from(toks, false) =~= rules_from(toks, false));
    }
    while i < tokens.len()
        invariant
            i <= tokens.len(),
            toks == tokens.deep_view(),
            toks.len() == tokens.len(),
            rules_view(rules, rules.len() as int) + rules_from(toks.skip(i as int), not)
                == rules_from(toks, false),
        decreases tokens.len() - i,
    {
        let ghost rv0 = rules_view(rules, rules.len() as int);
        proof {
            assert(toks.skip(i as int)[0] == toks[i as int]);
            assert(toks.skip(i as int).drop_first() =~= toks.skip(i as int + 1));
            assert(toks[i as int] == tokens[i as int].deep_view());
        }
        match &tokens[i] {
            Token::Tag(s) => {
                let mut single: Vec<String> = Vec::new();
                single.push(s.clone());
                proof {
                    assert(single.deep_view() =~= seq![s@]);
                }
                let rule = if not {
                    not = false;
                    MatchRule::ExcludeAny(single)
                } else {
                    MatchRule::RequireAll(single)
                };
                let ghost rulev = rule_view(rule);
                proof {
                    lemma_rules_view_index(rules, rules.len() as int);
                }
                rules.push(rule);
                proof {
                    lemma_rules_view_index(rules, rules.len() as int);
                    assert(rules_view(rules, rules.len() as int) =~= rv0.push(rulev));
                    assert(rv0.push(rulev) + rules_from(toks.skip(i as int + 1), false) =~= rv0 + (
                    seq![rulev] + rules_from(toks.skip(i as int + 1), false)));
                }
            },
            Token::PrefixNot => {
                not = true;
            },
            _ => {},
        }
        i = i + 1;
    }
    proof {
        assert(toks.skip(i as int) =~= Seq::<TokenView>::empty());
        assert(rules_view(rules, rules.len() as int) + Seq::<RuleView>::empty() =~= rules_view(
            rules,
            rules.len() as int,
        ));
    }
    Ok(MatchRule::Conjunction(rules))
}

} // verus!
