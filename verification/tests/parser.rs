//! Scripts, chains, pipelines, commands and redirects.

use comma::lexer::{lex, Part, Token};
use comma::parser::{parse, Connector, ParseError, Redirect};

#[test]
fn simple_command() {
    let script = parse("echo hello").unwrap();
    assert_eq!(script.seq.len(), 1);
    let cmd = &script.seq[0].first.cmds[0];
    assert_eq!(
        cmd.argv,
        vec![vec![Part::Lit("echo".into())], vec![Part::Lit("hello".into())]]
    );
    assert!(cmd.redirects.is_empty());
}

#[test]
fn pipeline_and_connectors() {
    let script = parse("a | b | c && d ; e || f").unwrap();
    assert_eq!(script.seq.len(), 2);
    assert_eq!(script.seq[0].first.cmds.len(), 3);
    assert_eq!(script.seq[0].rest.len(), 1);
    assert_eq!(script.seq[0].rest[0].0, Connector::And);
    assert_eq!(script.seq[1].first.cmds.len(), 1);
    assert_eq!(script.seq[1].rest.len(), 1);
    assert_eq!(script.seq[1].rest[0].0, Connector::Or);
}

#[test]
fn redirects() {
    let script = parse("cmd < in > out 2>> err").unwrap();
    let cmd = &script.seq[0].first.cmds[0];
    assert_eq!(
        cmd.redirects,
        vec![
            Redirect::In(vec![Part::Lit("in".into())]),
            Redirect::Out { target: vec![Part::Lit("out".into())], append: false },
            Redirect::ErrOut { target: vec![Part::Lit("err".into())], append: true },
        ]
    );
}

#[test]
fn parser_errors() {
    assert!(parse("| a").is_err());
    assert!(parse("a |").is_err());
    assert!(parse("a > ").is_err());
    assert!(parse("a && && b").is_err());
}

#[test]
fn trailing_amp_backgrounds_the_pipeline() {
    let script = parse("sleep 100 &").unwrap();
    assert!(script.seq[0].first.background);

    let script = parse("a | b & ; c").unwrap();
    assert!(script.seq[0].first.background);
    assert!(!script.seq[1].first.background);

    // `&` backgrounds the whole `&&`/`||` chain.
    let script = parse("a && b &").unwrap();
    assert!(script.seq[0].first.background);
    assert!(script.seq[0].rest[0].1.background);
}

#[test]
fn amp_in_the_middle_is_an_error() {
    assert_eq!(parse("a & b"), Err(ParseError::UnexpectedAmp));
    assert_eq!(parse("a & | b"), Err(ParseError::UnexpectedAmp));
    assert_eq!(parse("& a"), Err(ParseError::UnexpectedAmp));
}

#[test]
fn empty_input() {
    assert_eq!(parse("").unwrap().seq.len(), 0);
    assert_eq!(parse("  ; ").unwrap().seq.len(), 0);
}

#[test]
fn parser_error_variants() {
    assert_eq!(parse("| a"), Err(ParseError::ExpectedCommand));
    assert_eq!(parse("a |"), Err(ParseError::ExpectedCommand));
    assert_eq!(parse("a && && b"), Err(ParseError::ExpectedCommand));
    assert_eq!(parse("a > "), Err(ParseError::MissingRedirectTarget));
    assert_eq!(parse("a > | b"), Err(ParseError::MissingRedirectTarget));
    assert_eq!(parse("a &&"), Err(ParseError::ExpectedCommand));
    assert_eq!(parse("a 'b"), Err(ParseError::UnterminatedQuote('\'')));
}

#[test]
fn trailing_semicolons_change_nothing() {
    for line in ["a", "a &", "a | b && c", "", "a > f", "| a", "a >"] {
        assert_eq!(parse(line), parse(&format!("{line};")));
    }
}

#[test]
fn parsed_pipelines_are_never_empty() {
    let script = parse("a | b && c > f ; > g ; d || e &").unwrap();
    for chain in &script.seq {
        assert!(!chain.first.cmds.is_empty());
        for (_, pipeline) in &chain.rest {
            assert!(!pipeline.cmds.is_empty());
            assert_eq!(pipeline.background, chain.first.background);
        }
    }
    assert_eq!(script.seq[1].first.cmds[0].argv.len(), 0);
    assert!(script.seq[2].first.background);
}

#[test]
fn joined_lines_are_their_chains_in_order() {
    let lines = ["", "a 'b;c' > f", "x | y && z &", "  ", "$(a; b) ~"];
    for a in lines {
        for b in lines {
            let joined = parse(&format!("{a};{b}")).unwrap();
            let (first, second) = (parse(a).unwrap(), parse(b).unwrap());
            assert_eq!(joined.seq.len(), first.seq.len() + second.seq.len());
            for (k, chain) in joined.seq.iter().enumerate() {
                let expected = first.seq.iter().chain(&second.seq).nth(k).unwrap();
                assert_eq!(chain, expected);
            }
        }
    }
    assert_eq!(parse("a;|b"), Err(ParseError::ExpectedCommand));
}

#[test]
fn every_token_is_in_the_script() {
    let line = "a b > f c | d 2>> g && e < h & ; i || j";
    let script = parse(line).unwrap();
    let tokens = lex(line).unwrap();
    let count = |wanted: fn(&Token) -> bool| tokens.iter().filter(|t| wanted(t)).count();
    let pipelines: Vec<_> = script
        .seq
        .iter()
        .flat_map(|chain| {
            std::iter::once(&chain.first).chain(chain.rest.iter().map(|link| &link.1))
        })
        .collect();
    let commands: Vec<_> = pipelines.iter().flat_map(|p| p.cmds.iter()).collect();
    let arguments: usize = commands.iter().map(|cmd| cmd.argv.len()).sum();
    let redirects: usize = commands.iter().map(|cmd| cmd.redirects.len()).sum();
    assert_eq!(arguments + redirects, count(|t| matches!(t, Token::Word(_))));
    assert_eq!(
        redirects,
        count(|t| matches!(t, Token::Out { .. } | Token::ErrOut { .. } | Token::In))
    );
    assert_eq!(
        pipelines.iter().map(|p| p.cmds.len() - 1).sum::<usize>(),
        count(|t| matches!(t, Token::Pipe))
    );
    assert_eq!(
        script.seq.iter().map(|chain| chain.rest.len()).sum::<usize>(),
        count(|t| matches!(t, Token::And | Token::Or))
    );
    assert_eq!(
        script.seq.iter().filter(|chain| chain.first.background).count(),
        count(|t| matches!(t, Token::Amp))
    );
    assert!(script.seq[0].rest.iter().all(|link| link.1.background));
    let words: Vec<_> = commands.iter().flat_map(|cmd| cmd.argv.iter()).collect();
    let expected: Vec<Vec<Part>> =
        ["a", "b", "c", "d", "e", "i", "j"].iter().map(|w| vec![Part::Lit(w.to_string())]).collect();
    assert_eq!(words, expected.iter().collect::<Vec<_>>());
}
