//! Word expansion, splitting and brace groups.

use comma::brace::{brace_expand, brace_expand_parts, range_expansion};
use comma::env::Env;
use comma::expand::{
    expand_argv, expand_fields, expand_glob_word, expand_word, glob_field, glob_field_with,
    glob_pattern, Paths,
};
use comma::lexer::{lex, Part, Token};
use comma::pattern::{cut_where, glob_options, GlobOptions};

fn match_options(options: GlobOptions) -> glob::MatchOptions {
    glob::MatchOptions {
        case_sensitive: options.case_sensitive,
        require_literal_separator: options.literal_separator,
        require_literal_leading_dot: options.literal_leading_dot,
    }
}

/// The paths on disk that match a pattern.
fn on_disk(pattern: &str, options: GlobOptions) -> Paths {
    let paths = glob::glob_with(pattern, match_options(options)).ok()?;
    Some(paths.map(|path| path.ok().map(|path| path.to_string_lossy().into_owned())).collect())
}

/// The same in a directory made up for the tests.
fn in_dir(pattern: &str, options: GlobOptions) -> Paths {
    let pattern = glob::Pattern::new(pattern).ok()?;
    let names =
        ["sub/deep/e.toml", "c.txt", "sub", "b.rs", ".hidden", "sub/deep", "a.rs", "sub/d.toml"];
    Some(
        names
            .iter()
            .filter(|name| pattern.matches_with(name, match_options(options)))
            .map(|name| Some(name.to_string()))
            .collect(),
    )
}

/// Expand the first word of a line in that directory.
fn expand_in_env(line: &str, env: &Env) -> Vec<String> {
    let tokens = lex(line).unwrap();
    match &tokens[0] {
        Token::Word(parts) => expand_glob_word(parts, env, 0, &in_dir),
        other => panic!("expected a word, got {other:?}"),
    }
}

fn expand_in(line: &str) -> Vec<String> {
    expand_in_env(line, &env_with(&[]))
}

#[test]
fn glob_star_and_suffix() {
    assert_eq!(expand_in("*"), vec!["a.rs", "b.rs", "c.txt", "sub"]);
    assert_eq!(expand_in("*.rs"), vec!["a.rs", "b.rs"]);
    // `*` does not match dotfiles without an explicit dot.
    assert!(!expand_in("*").contains(&".hidden".to_string()));
}

#[test]
fn glob_recursive_and_classes() {
    assert_eq!(expand_in("**/*.toml"), vec!["sub/d.toml", "sub/deep/e.toml"]);
    assert_eq!(expand_in("?.rs"), vec!["a.rs", "b.rs"]);
    assert_eq!(expand_in("[ab].rs"), vec!["a.rs", "b.rs"]);
    // Negation is `[!...]` in the glob crate; regex-style `[^...]` is
    // accepted too.
    assert_eq!(expand_in("[!a]*.rs"), vec!["b.rs"]);
    assert_eq!(expand_in("[^a]*.rs"), vec!["b.rs"]);
    // Glob in the middle of a word.
    assert_eq!(expand_in("sub/*.toml"), vec!["sub/d.toml"]);
}

#[test]
fn glob_no_match_stays_literal_and_quotes_dont_glob() {
    assert_eq!(expand_in("*.nope"), vec!["*.nope"]);
    assert_eq!(expand_in("'*.rs'"), vec!["*.rs"]);
    // Quoted part does not glob, unquoted part does.
    assert_eq!(expand_in("a'.'rs"), vec!["a.rs"]);
    // Unquoted variable holding glob chars: globbed (POSIX).
    let env = env_with(&[("G", "*.rs")]);
    assert_eq!(expand_in_env("$G", &env), vec!["a.rs", "b.rs"]);
    // ...but a redirect target (expand_word) is never globbed or split.
    assert_eq!(expand_word(&[Part::Var("G".into())], &env, 0), "*.rs");
}

#[test]
fn brace_results_still_glob() {
    assert_eq!(expand_in("*.{rs,txt}"), vec!["a.rs", "b.rs", "c.txt"]);
    assert_eq!(expand_in("{a,b}.rs"), vec!["a.rs", "b.rs"]);
}

#[test]
fn paths_are_looked_for_the_way_of_a_unix_shell() {
    let options = glob_options();
    assert!(options.case_sensitive && options.literal_separator && options.literal_leading_dot);
    let fields = expand_fields(&[Part::Lit("[^x]*".into())], &env(), 0);
    let echo = |pattern: &str, asked: GlobOptions| {
        assert_eq!(asked, options);
        Some(vec![Some(format!("./{pattern}"))])
    };
    assert_eq!(glob_field(&fields[0], &echo), ["[!x]*"]);
    // A word without metacharacters is not looked for.
    let plain = expand_fields(&[Part::Lit("x".into())], &env(), 0);
    let never = |_: &str, _: GlobOptions| -> Paths { panic!("asked for a plain word") };
    assert_eq!(glob_field(&plain[0], &never), ["x"]);
}

fn env() -> Env {
    env_with(&[("HOME", "/home/u"), ("FOO", "bar")])
}

#[test]
fn expands_vars_and_tilde() {
    assert_eq!(expand_word(&[Part::Var("FOO".into())], &env(), 0), "bar");
    assert_eq!(expand_word(&[Part::QVar("FOO".into())], &env(), 0), "bar");
    assert_eq!(expand_word(&[Part::Var("MISSING".into())], &env(), 0), "");
    assert_eq!(expand_word(&[Part::Var("?".into())], &env(), 42), "42");
    assert_eq!(
        expand_word(&[Part::Tilde, Part::Lit("/x".into())], &env(), 0),
        "/home/u/x"
    );
    assert_eq!(
        expand_word(&[Part::Lit("a".into()), Part::Var("FOO".into())], &env(), 0),
        "abar"
    );
}

fn env_with(pairs: &[(&str, &str)]) -> Env {
    Env::from_pairs(pairs.iter().map(|(k, v)| (k.to_string(), v.to_string())).collect())
}

fn glob_word(parts: &[Part], env: &Env) -> Vec<String> {
    expand_glob_word(parts, env, 0, &on_disk)
}

#[test]
fn unquoted_var_splits_on_ifs_whitespace() {
    let env = env_with(&[("X", "a b c"), ("T", "p\tq\nr")]);
    assert_eq!(glob_word(&[Part::Var("X".into())], &env), ["a", "b", "c"]);
    // Tabs and newlines split too.
    assert_eq!(glob_word(&[Part::Var("T".into())], &env), ["p", "q", "r"]);
    // $IFS is honored.
    let env = env_with(&[("IFS", ","), ("X", "a,b c")]);
    assert_eq!(glob_word(&[Part::Var("X".into())], &env), ["a", "b c"]);
}

#[test]
fn quoted_var_does_not_split() {
    let env = env_with(&[("X", "a b")]);
    assert_eq!(glob_word(&[Part::QVar("X".into())], &env), ["a b"]);
    // Mixed word: only the expansion boundary splits.
    let env = env_with(&[("X", " x y")]);
    assert_eq!(
        glob_word(&[Part::Lit("a".into()), Part::Var("X".into())], &env),
        ["a", "x", "y"]
    );
    let env = env_with(&[("X", "x y")]);
    assert_eq!(
        glob_word(&[Part::Lit("a".into()), Part::Var("X".into())], &env),
        ["ax", "y"]
    );
}

#[test]
fn empty_expansion_disappears_unless_quoted() {
    let env = env_with(&[]);
    // Bare `$EMPTY`: the word vanishes (no empty argument).
    assert_eq!(glob_word(&[Part::Var("EMPTY".into())], &env), Vec::<String>::new());
    // Quoted `"$EMPTY"`: one empty argument.
    assert_eq!(glob_word(&[Part::QVar("EMPTY".into())], &env), [""]);
    // Literal parts keep the word alive.
    assert_eq!(
        glob_word(&[Part::Lit("x".into()), Part::Var("EMPTY".into())], &env),
        ["x"]
    );
}

#[test]
fn substitution_output_splits_when_unquoted() {
    let env = env_with(&[]);
    assert_eq!(glob_word(&[Part::SubstOut("a b".into())], &env), ["a", "b"]);
    // In double quotes the executor produces QLit: no splitting.
    assert_eq!(glob_word(&[Part::QLit("a b".into())], &env), ["a b"]);
}

#[test]
fn braced_parameter_forms() {
    let env = env_with(&[("FOO", "bar"), ("EMPTY", "")]);
    let p = |body: &str| vec![Part::Param(body.into())];
    assert_eq!(expand_word(&p("FOO"), &env, 0), "bar");
    assert_eq!(expand_word(&p("MISSING"), &env, 0), "");
    assert_eq!(expand_word(&p("?"), &env, 7), "7");
    assert_eq!(expand_word(&p("#FOO"), &env, 0), "3");
    assert_eq!(expand_word(&p("#MISSING"), &env, 0), "0");
    // `:-` defaults on unset-or-null, `-` only on unset.
    assert_eq!(expand_word(&p("FOO:-def"), &env, 0), "bar");
    assert_eq!(expand_word(&p("MISSING:-def"), &env, 0), "def");
    assert_eq!(expand_word(&p("EMPTY:-def"), &env, 0), "def");
    assert_eq!(expand_word(&p("EMPTY-def"), &env, 0), "");
    assert_eq!(expand_word(&p("MISSING-def"), &env, 0), "def");
    // `:+`/`+` substitute the alternative when the variable is set.
    assert_eq!(expand_word(&p("FOO:+alt"), &env, 0), "alt");
    assert_eq!(expand_word(&p("EMPTY:+alt"), &env, 0), "");
    assert_eq!(expand_word(&p("EMPTY+alt"), &env, 0), "alt");
    assert_eq!(expand_word(&p("MISSING+alt"), &env, 0), "");
    // The word expands recursively: nested ${...}, $VAR, quote removal.
    let env = env_with(&[("INNER", "deep"), ("X", "a b")]);
    assert_eq!(expand_word(&p("OUTER:-${INNER}"), &env, 0), "deep");
    assert_eq!(expand_word(&p("OUTER:-$INNER/x"), &env, 0), "deep/x");
    assert_eq!(expand_word(&p("OUTER:-a \"b c\" 'd e'"), &env, 0), "a b c d e");
    // Quoted expands literally, unquoted splits like `$VAR`.
    assert_eq!(glob_word(&[Part::QParam("X".into())], &env), ["a b"]);
    assert_eq!(glob_word(&[Part::Param("X".into())], &env), ["a", "b"]);
}

#[test]
fn ifs_non_whitespace_delimiters() {
    // A non-whitespace IFS char terminates a field — even an empty one.
    let env = env_with(&[("IFS", ","), ("X", "a,,b")]);
    assert_eq!(glob_word(&[Part::Var("X".into())], &env), ["a", "", "b"]);
    // A leading delimiter makes an empty field; a trailing one doesn't.
    let env = env_with(&[("IFS", ","), ("X", ",a")]);
    assert_eq!(glob_word(&[Part::Var("X".into())], &env), ["", "a"]);
    let env = env_with(&[("IFS", ","), ("X", "a,")]);
    assert_eq!(glob_word(&[Part::Var("X".into())], &env), ["a"]);
    // IFS whitespace around a non-whitespace delimiter folds into it.
    let env = env_with(&[("IFS", " ,"), ("X", "a , , b")]);
    assert_eq!(glob_word(&[Part::Var("X".into())], &env), ["a", "", "b"]);
    // A leading delimiter terminates a literal prefix, without an extra
    // empty field.
    let env = env_with(&[("IFS", ","), ("X", ",a")]);
    assert_eq!(
        glob_word(&[Part::Lit("pre".into()), Part::Var("X".into())], &env),
        ["pre", "a"]
    );
    // Adjacent unquoted expansions split as one concatenated text.
    let env = env_with(&[("IFS", ","), ("X", "a,"), ("Y", ",b")]);
    assert_eq!(
        glob_word(&[Part::Var("X".into()), Part::Var("Y".into())], &env),
        ["a", "", "b"]
    );
    // A trailing delimiter closes the field: the next segment starts
    // fresh instead of joining.
    let env = env_with(&[("IFS", ","), ("X", "a,")]);
    assert_eq!(
        glob_word(&[Part::Var("X".into()), Part::Lit("post".into())], &env),
        ["a", "post"]
    );
}

#[test]
fn arithmetic() {
    let env = env_with(&[("X", "5")]);
    let a = |body: &str| vec![Part::Arith(body.into())];
    assert_eq!(expand_word(&a("1 + 2 * 3"), &env, 0), "7");
    assert_eq!(expand_word(&a("(1 + 2) * 3"), &env, 0), "9");
    // Bare and `$`-prefixed variables; unset counts as 0.
    assert_eq!(expand_word(&a("X * 2"), &env, 0), "10");
    assert_eq!(expand_word(&a("$X + MISSING"), &env, 0), "5");
    assert_eq!(expand_word(&a("-X"), &env, 0), "-5");
    assert_eq!(expand_word(&a("10 % 3"), &env, 0), "1");
    assert_eq!(expand_word(&a("10 / 3"), &env, 0), "3");
    // Errors expand to nothing: division by zero, trailing operator.
    assert_eq!(expand_word(&a("1 / 0"), &env, 0), "");
    assert_eq!(expand_word(&a("1 +"), &env, 0), "");
}

#[test]
fn pattern_removal_forms() {
    let env = env_with(&[("V", "path/to/file.txt")]);
    let p = |body: &str| vec![Part::Param(body.into())];
    assert_eq!(expand_word(&p("V#*/"), &env, 0), "to/file.txt");
    assert_eq!(expand_word(&p("V##*/"), &env, 0), "file.txt");
    assert_eq!(expand_word(&p("V%/*"), &env, 0), "path/to");
    assert_eq!(expand_word(&p("V%%/*"), &env, 0), "path");
    // No match: the value stays; the pattern word expands.
    assert_eq!(expand_word(&p("V#z*"), &env, 0), "path/to/file.txt");
    let env = env_with(&[("V", "file.tar.gz"), ("E", "*.gz")]);
    assert_eq!(expand_word(&p("V%$E"), &env, 0), "file.tar");
}

/// Expand one lexed word (no cwd needed: no globbing involved).
fn brace_word(line: &str) -> Vec<String> {
    let env = env_with(&[("FOO", "bar")]);
    let tokens = lex(line).unwrap();
    match &tokens[0] {
        Token::Word(parts) => expand_glob_word(parts, &env, 0, &on_disk),
        other => panic!("expected a word, got {other:?}"),
    }
}

#[test]
fn brace_comma_lists_and_cartesian_products() {
    assert_eq!(brace_word("{a,b}"), ["a", "b"]);
    // Prefix and suffix join every alternative.
    assert_eq!(brace_word("a{b,c}d"), ["abd", "acd"]);
    // Several groups form a cartesian product, left to right.
    assert_eq!(brace_word("{a,b}{c,d}"), ["ac", "ad", "bc", "bd"]);
    assert_eq!(brace_word("x{a,b}y{c,d}z"), ["xaycz", "xaydz", "xbycz", "xbydz"]);
    // An empty alternative is allowed.
    assert_eq!(brace_word("{,a}.txt"), [".txt", "a.txt"]);
    // Nested groups expand innermost-out, order preserved.
    assert_eq!(brace_word("x{a,{b,c}}y"), ["xay", "xby", "xcy"]);
    assert_eq!(brace_word("{{a,b},c}"), ["a", "b", "c"]);
    assert_eq!(brace_word("{a,{b,{c,d}}}"), ["a", "b", "c", "d"]);
}

#[test]
fn brace_integer_ranges() {
    assert_eq!(brace_word("{1..5}"), ["1", "2", "3", "4", "5"]);
    // Descending range.
    assert_eq!(brace_word("{3..1}"), ["3", "2", "1"]);
    // Explicit step, both directions.
    assert_eq!(brace_word("{0..12..3}"), ["0", "3", "6", "9", "12"]);
    assert_eq!(brace_word("{5..1..2}"), ["5", "3", "1"]);
    // Negative bounds.
    assert_eq!(brace_word("{-2..2}"), ["-2", "-1", "0", "1", "2"]);
    // Range with affixes.
    assert_eq!(brace_word("f{1..3}.rs"), ["f1.rs", "f2.rs", "f3.rs"]);
}

#[test]
fn invalid_brace_groups_stay_literal() {
    // No comma and not a range.
    assert_eq!(brace_word("{a}"), ["{a}"]);
    assert_eq!(brace_word("{}"), ["{}"]);
    // No closing brace.
    assert_eq!(brace_word("{a,b"), ["{a,b"]);
    // Not an integer range.
    assert_eq!(brace_word("{a..b}"), ["{a..b}"]);
    assert_eq!(brace_word("{1..}"), ["{1..}"]);
    assert_eq!(brace_word("{1..2..0}"), ["{1..2..0}"]);
    // An invalid outer group does not block a valid inner one.
    assert_eq!(brace_word("a{b{c,d}e"), ["a{bce", "a{bde"]);
}

#[test]
fn brace_expansion_skips_quotes_and_expansions() {
    // Quoted braces never expand.
    assert_eq!(brace_word("'{a,b}'"), ["{a,b}"]);
    assert_eq!(brace_word("\"{1..3}\""), ["{1..3}"]);
    // A variable holding braces is not re-scanned.
    let env = env_with(&[("B", "{a,b}")]);
    assert_eq!(glob_word(&[Part::Var("B".into())], &env), ["{a,b}"]);
    // ...but braces around a variable still multiply the word.
    assert_eq!(brace_word("x{1,2}-$FOO"), ["x1-bar", "x2-bar"]);
    // Quoting is resolved at lex time: quotes inside a brace group split
    // it across parts, so the group does not expand (architectural
    // limitation; bash would).
    assert_eq!(brace_word("{'a b',c}"), ["{a b,c}"]);
}

#[test]
fn unknown_parameter_forms_expand_to_nothing() {
    let env = env_with(&[("FOO", "bar")]);
    for body in ["FOO:", "FOO: ", "FOO:#x", "FOO@x", "", "-x", "FOO!"] {
        assert_eq!(expand_word(&[Part::Param(body.into())], &env, 0), "", "{body}");
    }
}

#[test]
fn arithmetic_overflow_is_an_error() {
    let env = env_with(&[("BIG", "9223372036854775807"), ("WORD", "x"), ("PAD", " 4 ")]);
    for (body, expected) in [
        ("BIG + 1", ""),
        ("99999999999999999999", ""),
        ("99999999999999999999x", ""),
        ("0 - BIG - 1", "-9223372036854775808"),
        ("(0 - BIG - 1) / -1", ""),
        ("(0 - BIG - 1) % -1", ""),
        ("-7 / 2", "-3"),
        ("-7 % 2", "-1"),
        ("7 / -2", "-3"),
        ("7 % -2", "1"),
        ("WORD + 1", "1"),
        ("PAD * 2", "8"),
        ("+-+3", "-3"),
        ("5 x", ""),
        ("(1", ""),
        ("", ""),
        ("2 * (3 + 4) - 1", "13"),
    ] {
        assert_eq!(expand_word(&[Part::QArith(body.into())], &env, 0), expected, "{body}");
    }
}

#[test]
fn decimals_evaluate_to_themselves() {
    let env = env_with(&[]);
    for n in [0i64, 7, 10, 12345, i64::MAX, -1, -99, i64::MIN + 1] {
        assert_eq!(expand_word(&[Part::Arith(n.to_string())], &env, 0), n.to_string());
    }
}

#[test]
fn range_steps_are_magnitudes() {
    assert_eq!(brace_word("{1..7..-3}"), ["1", "4", "7"]);
    assert_eq!(brace_word("{7..1..-3}"), ["7", "4", "1"]);
    assert_eq!(brace_word("{-1..5..-9223372036854775808}"), ["-1"]);
    // Ranges reach the ends of the numbers.
    assert_eq!(
        brace_word("{9223372036854775806..9223372036854775807}"),
        ["9223372036854775806", "9223372036854775807"]
    );
    assert_eq!(
        brace_word("{-9223372036854775808..9223372036854775807..9223372036854775807}"),
        ["-9223372036854775808", "-1", "9223372036854775806"]
    );
    assert_eq!(
        brace_word("{-9223372036854775807..-9223372036854775808}"),
        ["-9223372036854775807", "-9223372036854775808"]
    );
    assert_eq!(brace_word("{1...3}"), ["{1...3}"]);
    assert_eq!(brace_word("{1..2..3..4}"), ["{1..2..3..4}"]);
}

#[test]
fn neighbouring_expansions_share_a_delimiter() {
    let env = env_with(&[("IFS", " ,"), ("X", "a "), ("Y", ",b")]);
    assert_eq!(glob_word(&[Part::Var("X".into()), Part::Var("Y".into())], &env), ["a", "b"]);
}

#[test]
fn quoted_text_never_splits_or_globs() {
    let env = env_with(&[]);
    assert_eq!(glob_word(&[Part::QLit("a  *  b".into())], &env), ["a  *  b"]);
    assert_eq!(
        glob_word(&[Part::Lit("x ".into()), Part::QLit("?".into())], &env),
        ["x ?"]
    );
    assert_eq!(glob_word(&[], &env), [""]);
}

#[test]
fn tilde_without_home_disappears() {
    let env = env_with(&[]);
    assert_eq!(expand_word(&[Part::Tilde, Part::Lit("/x".into())], &env, 0), "/x");
    assert_eq!(expand_word(&[Part::Subst("a".into()), Part::QSubst("b".into())], &env, 0), "");
}

#[test]
fn argv_words_expand_in_order() {
    let env = env_with(&[("X", "p q")]);
    let argv = vec![
        vec![Part::Lit("{1,2}".into())],
        vec![Part::Var("X".into())],
        vec![],
        vec![Part::Var("NONE".into())],
    ];
    assert_eq!(expand_argv(&argv, &env, 0, &on_disk), ["1", "2", "p", "q", ""]);
}

#[test]
fn plain_fields_are_never_looked_for() {
    let everything = |_: &str, _: GlobOptions| Some(vec![Some("found".to_string())]);
    let env = env_with(&[("X", "p q")]);
    let plain = vec![vec![Part::Lit("a.rs".into())], vec![Part::Var("X".into())]];
    assert_eq!(expand_argv(&plain, &env, 0, &everything), ["a.rs", "p", "q"]);
    let starred = vec![vec![Part::Lit("*.rs".into())]];
    assert_eq!(expand_argv(&starred, &env, 0, &everything), ["found"]);
}

#[test]
fn patterns_escape_quoted_text_and_negate_classes() {
    let env = env_with(&[]);
    let fields =
        expand_fields(&[Part::Lit("[^a]*".into()), Part::QLit("*[x]".into())], &env, 0);
    assert_eq!(fields.len(), 1);
    assert!(fields[0].has_meta);
    assert_eq!(fields[0].text, "[^a]**[x]");
    assert_eq!(fields[0].pattern, "[^a]*[*][[]x[]]");
    assert_eq!(glob_pattern(&fields[0]), "[!a]*[*][[]x[]]");
}

#[test]
fn found_paths_are_sorted_and_stripped() {
    let env = env_with(&[]);
    let fields = expand_fields(&[Part::Lit("*".into())], &env, 0);
    let found = Some(vec![Some("./b".to_string()), None, Some("a".to_string()), Some("../c".to_string())]);
    assert_eq!(glob_field_with(&fields[0], &found), ["../c", "a", "b"]);
    assert_eq!(glob_field_with(&fields[0], &None), ["*"]);
    assert_eq!(glob_field_with(&fields[0], &Some(vec![None])), ["*"]);
    let plain = expand_fields(&[Part::Lit("x".into())], &env, 0);
    assert_eq!(glob_field_with(&plain[0], &found), ["x"]);
}

#[test]
fn invalid_patterns_stay_literal() {
    let env = env_with(&[("V", "a[b")]);
    assert_eq!(glob_word(&[Part::Lit("/no/such/dir/[x".into())], &env), ["/no/such/dir/[x"]);
    // An invalid pattern strips nothing.
    assert_eq!(expand_word(&[Part::Param("V#[".into())], &env, 0), "a[b");
}

#[test]
fn globs_read_the_disk() {
    // The root directory is always there, and has entries.
    let env = env_with(&[]);
    let found = glob_word(&[Part::Lit("/*".into())], &env);
    assert!(found.len() > 1, "{found:?}");
    assert!(found.iter().all(|path| path.starts_with('/')));
    let mut sorted = found.clone();
    sorted.sort();
    assert_eq!(found, sorted);
    assert_eq!(glob_word(&[Part::Lit("/no-such-entry-*".into())], &env), ["/no-such-entry-*"]);
}

#[test]
fn cuts_take_the_shortest_or_the_longest_part() {
    let hits = [false, true, false, true];
    assert_eq!(cut_where("abc", &hits, true, false), "bc");
    assert_eq!(cut_where("abc", &hits, true, true), "");
    assert_eq!(cut_where("abc", &hits, false, false), "abc");
    assert_eq!(cut_where("abc", &hits, false, true), "a");
    assert_eq!(cut_where("abc", &[false; 4], true, true), "abc");
}

#[test]
fn nested_words_remove_quotes_and_escapes() {
    let env = env_with(&[("IN", "v")]);
    for (body, expected) in [
        ("O:-a\\$b", "a$b"),
        ("O:-'$IN'", "$IN"),
        ("O:-\"$IN'x'\"", "v'x'"),
        ("O:-${O:-${IN}}", "v"),
        ("O:-$", "$"),
        ("O:-${IN", "${IN"),
        ("O:-\\", ""),
        ("O:-$?", "3"),
    ] {
        assert_eq!(expand_word(&[Part::QParam(body.into())], &env, 3), expected, "{body}");
    }
}

#[test]
fn ranges_reach_the_ends_of_the_numbers() {
    assert_eq!(
        range_expansion("9223372036854775806..9223372036854775807"),
        Some(vec!["9223372036854775806".into(), "9223372036854775807".into()])
    );
    assert_eq!(range_expansion("1..2..0"), None);
    assert_eq!(range_expansion("1..2..3..4"), None);
}

#[test]
fn variants_are_a_product_leftmost_slowest() {
    let parts = [
        Part::Lit("{a,b}".into()),
        Part::QLit("{x,y}".into()),
        Part::Lit("{1..3}".into()),
    ];
    let words = brace_expand_parts(&parts);
    assert_eq!(words.len(), 6);
    for (n, word) in words.iter().enumerate() {
        assert_eq!(word[0], Part::Lit(["a", "b"][n / 3].into()));
        assert_eq!(word[1], parts[1]);
        assert_eq!(word[2], Part::Lit(["1", "2", "3"][n % 3].into()));
    }
    assert_eq!(brace_expand("p{x,y}{1,2}"), ["px1", "px2", "py1", "py2"]);
}
