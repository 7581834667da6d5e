//! Tokens, words and spans.

use comma::lexer::{lex, lex_with_spans, ParseError, Part, Token};

fn word(input: &str) -> Vec<Part> {
    match lex(input).unwrap().as_slice() {
        [Token::Word(parts)] => parts.clone(),
        other => panic!("expected single word, got {other:?}"),
    }
}

#[test]
fn operators() {
    let tokens = lex("a | b ; c && d || e > f >> g < h 2> i 2>> j").unwrap();
    let ops: Vec<Token> = tokens.into_iter().filter(|t| !matches!(t, Token::Word(_))).collect();
    assert_eq!(
        ops,
        vec![
            Token::Pipe,
            Token::Semi,
            Token::And,
            Token::Or,
            Token::Out { append: false },
            Token::Out { append: true },
            Token::In,
            Token::ErrOut { append: false },
            Token::ErrOut { append: true },
        ]
    );
}

#[test]
fn quoting() {
    assert_eq!(word("'a $b'"), vec![Part::QLit("a $b".into())]);
    assert_eq!(
        word("\"a $b c\""),
        vec![Part::QLit("a ".into()), Part::QVar("b".into()), Part::QLit(" c".into())]
    );
    assert_eq!(word("a'b'c"), vec![Part::Lit("a".into()), Part::QLit("b".into()), Part::Lit("c".into())]);
    assert_eq!(word("''"), vec![]);
}

#[test]
fn command_substitution() {
    assert_eq!(word("$(echo hi)"), vec![Part::Subst("echo hi".into())]);
    assert_eq!(
        word("\"pre-$(echo hi)\""),
        vec![Part::QLit("pre-".into()), Part::QSubst("echo hi".into())]
    );
    // Nested substitutions and quotes balance.
    assert_eq!(word("$(echo $(echo x))"), vec![Part::Subst("echo $(echo x)".into())]);
    assert_eq!(word("$(echo '(')"), vec![Part::Subst("echo '('".into())]);
    // Single quotes shield the substitution.
    assert_eq!(word("'$(x)'"), vec![Part::QLit("$(x)".into())]);
    assert_eq!(lex("$(echo hi"), Err(ParseError::UnterminatedSubst));
}

#[test]
fn variables_and_tilde() {
    assert_eq!(word("$HOME/x"), vec![Part::Var("HOME".into()), Part::Lit("/x".into())]);
    assert_eq!(word("$?"), vec![Part::Var("?".into())]);
    assert_eq!(word("~/docs"), vec![Part::Tilde, Part::Lit("/docs".into())]);
    assert_eq!(word("a~"), vec![Part::Lit("a~".into())]);
    assert_eq!(word("$"), vec![Part::Lit("$".into())]);
}

#[test]
fn escapes() {
    assert_eq!(word("a\\ b"), vec![Part::Lit("a b".into())]);
    assert_eq!(word("\"a\\\"b\""), vec![Part::QLit("a\"b".into())]);
}

#[test]
fn lexer_errors() {
    assert!(lex("'abc").is_err());
    assert!(lex("\"abc").is_err());
}

#[test]
fn single_amp_is_a_token() {
    // `&` lexes fine; placement is validated by the parser.
    let tokens = lex("a &").unwrap();
    assert!(matches!(&tokens[1], Token::Amp));
}

#[test]
fn digit_is_not_always_stderr_redirect() {
    // `2` alone is a word; `2>` is a stderr redirect.
    let tokens = lex("echo 2 > f").unwrap();
    assert!(matches!(&tokens[1], Token::Word(_)));
}

#[test]
fn spans_cover_tokens_in_order() {
    let input = "ab | 'c d' > e";
    let chars: Vec<char> = input.chars().collect();
    let spans = lex_with_spans(input).unwrap();
    let texts: Vec<String> =
        spans.iter().map(|(span, _)| chars[span.clone()].iter().collect()).collect();
    assert_eq!(texts, vec!["ab", "|", "'c d'", ">", "e"]);
    assert!(matches!(spans[0].1, Token::Word(_)));
    assert!(matches!(spans[1].1, Token::Pipe));
    assert!(matches!(spans[3].1, Token::Out { append: false }));
}

#[test]
fn lexer_error_variants() {
    assert_eq!(lex("'abc"), Err(ParseError::UnterminatedQuote('\'')));
    assert_eq!(lex("\"abc"), Err(ParseError::UnterminatedQuote('"')));
    assert_eq!(lex("\"abc\\"), Err(ParseError::UnterminatedQuote('"')));
    assert_eq!(lex("abc\\"), Err(ParseError::TrailingBackslash));
    assert_eq!(lex("$(a"), Err(ParseError::UnterminatedSubst));
    assert_eq!(lex("\"$(a"), Err(ParseError::UnterminatedSubst));
    assert_eq!(lex("$(a 'b"), Err(ParseError::UnterminatedQuote('\'')));
}

#[test]
fn error_messages() {
    assert_eq!(ParseError::UnterminatedQuote('\'').message(), "unterminated single quote");
    assert_eq!(ParseError::UnterminatedQuote('"').message(), "unterminated double quote");
    assert_eq!(ParseError::UnterminatedQuote('x').message(), "unterminated quote");
    assert_eq!(ParseError::TrailingBackslash.message(), "trailing backslash");
    assert_eq!(ParseError::UnexpectedAmp.message(), "unexpected '&'");
    assert_eq!(ParseError::ExpectedCommand.message(), "expected a command");
    assert_eq!(ParseError::MissingRedirectTarget.message(), "missing redirect target");
    assert_eq!(ParseError::UnterminatedSubst.message(), "unterminated command substitution");
}

#[test]
fn variable_names_do_not_start_with_a_digit() {
    assert_eq!(word("$1a"), vec![Part::Lit("$1a".into())]);
    assert_eq!(word("$_1/x"), vec![Part::Var("_1".into()), Part::Lit("/x".into())]);
    assert_eq!(word("\"$1\""), vec![Part::QLit("$1".into())]);
}

#[test]
fn a_dollar_sign_starts_a_new_literal() {
    assert_eq!(word("a$"), vec![Part::Lit("a".into()), Part::Lit("$".into())]);
    assert_eq!(word("a$/b"), vec![Part::Lit("a".into()), Part::Lit("$/b".into())]);
    assert_eq!(word("\"a$ b\""), vec![Part::QLit("a".into()), Part::QLit("$ b".into())]);
}

#[test]
fn double_quote_escapes() {
    assert_eq!(word("\"\\n\\$\""), vec![Part::QLit("\\n$".into())]);
    assert_eq!(word("\"a\"'b'"), vec![Part::QLit("ab".into())]);
}

#[test]
fn spans_are_in_characters() {
    let spans = lex_with_spans(" é 'ü'\u{2003}|").unwrap();
    let found: Vec<(usize, usize)> = spans.iter().map(|(s, _)| (s.start, s.end)).collect();
    assert_eq!(found, vec![(1, 2), (3, 6), (7, 8)]);
}

#[test]
fn single_quoted_words_are_literal() {
    for text in ["a b", "$HOME", "*", "\\", "{a,b}", "\"", "$(x)"] {
        let line = format!("'{text}'");
        assert_eq!(word(&line), vec![Part::QLit(text.to_string())]);
    }
}
