//! Tokenizer: splits input into words (with quoting info) and operators.

use std::ops::Range;

use vstd::prelude::*;

use crate::text::{
    chars_of, is_digit, is_digit_char, is_name_char, is_name_part, is_white_space, is_whitespace,
    string_of,
};

verus! {

/// Lexer/parser error with a user-facing message.
#[derive(Debug, Clone, Copy, PartialEq, Eq, Structural)]
pub enum ParseError {
    /// A quote was never closed; holds the quote character.
    UnterminatedQuote(char),
    /// Input ends with a dangling `\`.
    TrailingBackslash,
    /// `&` not followed by another `&` or placed where it cannot background
    /// a pipeline.
    UnexpectedAmp,
    /// An operator appeared where a command was expected.
    ExpectedCommand,
    /// A redirect operator lacks its target word.
    MissingRedirectTarget,
    /// A `$(` was never closed.
    UnterminatedSubst,
}

impl ParseError {
    /// The message shown to the user.
    pub open spec fn message_text(self) -> Seq<char> {
        match self {
            ParseError::UnterminatedQuote(c) => if c == '\'' {
                "unterminated single quote"@
            } else if c == '"' {
                "unterminated double quote"@
            } else {
                "unterminated quote"@
            },
            ParseError::TrailingBackslash => "trailing backslash"@,
            ParseError::UnexpectedAmp => "unexpected '&'"@,
            ParseError::ExpectedCommand => "expected a command"@,
            ParseError::MissingRedirectTarget => "missing redirect target"@,
            ParseError::UnterminatedSubst => "unterminated command substitution"@,
        }
    }

    /// The message shown to the user.
    pub fn message(&self) -> (r: &'static str)
        ensures
            r@ == self.message_text(),
    {
        match self {
            ParseError::UnterminatedQuote(c) => if *c == '\'' {
                "unterminated single quote"
            } else if *c == '"' {
                "unterminated double quote"
            } else {
                "unterminated quote"
            },
            ParseError::TrailingBackslash => "trailing backslash",
            ParseError::UnexpectedAmp => "unexpected '&'",
            ParseError::ExpectedCommand => "expected a command",
            ParseError::MissingRedirectTarget => "missing redirect target",
            ParseError::UnterminatedSubst => "unterminated command substitution",
        }
    }
}

/// Part of a word. Quoting is resolved at lex time; expansion happens later.
#[derive(Debug, PartialEq, Eq)]
pub enum Part {
    /// Literal unquoted text (glob metacharacters stay live).
    Lit(String),
    /// Literal quoted text (no globbing, no word splitting).
    QLit(String),
    /// Unquoted environment variable reference (`$NAME` or `$?`); the value
    /// is word-split and globbed (POSIX).
    Var(String),
    /// Double-quoted variable reference: expands literally.
    QVar(String),
    /// Unquoted `${...}`; holds the text between the braces. The value is
    /// word-split and globbed.
    Param(String),
    /// Double-quoted `${...}`: expands literally.
    QParam(String),
    /// Unquoted `$((...))`; holds the arithmetic expression.
    Arith(String),
    /// Double-quoted `$((...))`.
    QArith(String),
    /// Leading unquoted `~`.
    Tilde,
    /// Unquoted `$(...)` command substitution; holds the raw inner command
    /// line. The output is word-split and globbed.
    Subst(String),
    /// Double-quoted `$(...)`; the output is substituted literally.
    QSubst(String),
    /// Output of an already-executed unquoted substitution (the executor
    /// fills this in); word-split and globbed like a variable.
    SubstOut(String),
}

/// Model of a [`Part`].
pub enum PartView {
    Lit(Seq<char>),
    QLit(Seq<char>),
    Var(Seq<char>),
    QVar(Seq<char>),
    Param(Seq<char>),
    QParam(Seq<char>),
    Arith(Seq<char>),
    QArith(Seq<char>),
    Tilde,
    Subst(Seq<char>),
    QSubst(Seq<char>),
    SubstOut(Seq<char>),
}

impl View for Part {
    type V = PartView;

    open spec fn view(&self) -> PartView {
        match self {
            Part::Lit(t) => PartView::Lit(t@),
            Part::QLit(t) => PartView::QLit(t@),
            Part::Var(t) => PartView::Var(t@),
            Part::QVar(t) => PartView::QVar(t@),
            Part::Param(t) => PartView::Param(t@),
            Part::QParam(t) => PartView::QParam(t@),
            Part::Arith(t) => PartView::Arith(t@),
            Part::QArith(t) => PartView::QArith(t@),
            Part::Tilde => PartView::Tilde,
            Part::Subst(t) => PartView::Subst(t@),
            Part::QSubst(t) => PartView::QSubst(t@),
            Part::SubstOut(t) => PartView::SubstOut(t@),
        }
    }
}

impl Clone for Part {
    fn clone(&self) -> (r: Self)
        ensures
            r@ == self@,
    {
        match self {
            Part::Lit(t) => Part::Lit(t.clone()),
            Part::QLit(t) => Part::QLit(t.clone()),
            Part::Var(t) => Part::Var(t.clone()),
            Part::QVar(t) => Part::QVar(t.clone()),
            Part::Param(t) => Part::Param(t.clone()),
            Part::QParam(t) => Part::QParam(t.clone()),
            Part::Arith(t) => Part::Arith(t.clone()),
            Part::QArith(t) => Part::QArith(t.clone()),
            Part::Tilde => Part::Tilde,
            Part::Subst(t) => Part::Subst(t.clone()),
            Part::QSubst(t) => Part::QSubst(t.clone()),
            Part::SubstOut(t) => Part::SubstOut(t.clone()),
        }
    }
}

/// The models of a list of parts.
pub open spec fn part_views(v: Seq<Part>) -> Seq<PartView> {
    Seq::new(v.len(), |i: int| v[i]@)
}

/// A copy of a word.
pub fn clone_parts(parts: &[Part]) -> (r: Vec<Part>)
    ensures
        part_views(r@) == part_views(parts@),
{
    let mut out: Vec<Part> = Vec::new();
    let mut i: usize = 0;
    while i < parts.len()
        invariant
            i <= parts@.len(),
            out@.len() == i,
            forall|k: int| 0 <= k < i ==> out@[k]@ == parts@[k]@,
        decreases parts.len() - i,
    {
        out.push(parts[i].clone());
        i += 1;
    }
    proof {
        assert(part_views(out@) =~= part_views(parts@));
    }
    out
}

#[derive(Debug, PartialEq, Eq)]
pub enum Token {
    Word(Vec<Part>),
    Pipe,
    Semi,
    And,
    Or,
    /// `&` — backgrounds the preceding pipeline (parser validates placement).
    Amp,
    /// `>` or `>>`.
    Out { append: bool },
    /// `2>` or `2>>`.
    ErrOut { append: bool },
    /// `<`.
    In,
}

/// Model of a [`Token`].
pub enum TokenView {
    Word(Seq<PartView>),
    Pipe,
    Semi,
    And,
    Or,
    Amp,
    Out { append: bool },
    ErrOut { append: bool },
    In,
}

impl View for Token {
    type V = TokenView;

    open spec fn view(&self) -> TokenView {
        match self {
            Token::Word(parts) => TokenView::Word(part_views(parts@)),
            Token::Pipe => TokenView::Pipe,
            Token::Semi => TokenView::Semi,
            Token::And => TokenView::And,
            Token::Or => TokenView::Or,
            Token::Amp => TokenView::Amp,
            Token::Out { append } => TokenView::Out { append: *append },
            Token::ErrOut { append } => TokenView::ErrOut { append: *append },
            Token::In => TokenView::In,
        }
    }
}

impl Clone for Token {
    fn clone(&self) -> (r: Self)
        ensures
            r@ == self@,
    {
        match self {
            Token::Word(parts) => Token::Word(clone_parts(parts.as_slice())),
            Token::Pipe => Token::Pipe,
            Token::Semi => Token::Semi,
            Token::And => Token::And,
            Token::Or => Token::Or,
            Token::Amp => Token::Amp,
            Token::Out { append } => Token::Out { append: *append },
            Token::ErrOut { append } => Token::ErrOut { append: *append },
            Token::In => Token::In,
        }
    }
}

/// The models of a list of tokens.
pub open spec fn token_views(v: Seq<Token>) -> Seq<TokenView> {
    Seq::new(v.len(), |i: int| v[i]@)
}

/// A token and the range of characters it was read from.
pub struct SpannedView {
    pub start: int,
    pub end: int,
    pub token: TokenView,
}

/// The models of a list of tokens with their spans.
pub open spec fn span_views(v: Seq<(Range<usize>, Token)>) -> Seq<SpannedView> {
    Seq::new(
        v.len(),
        |i: int|
            SpannedView { start: v[i].0.start as int, end: v[i].0.end as int, token: v[i].1@ },
    )
}

// ---------------------------------------------------------------------------
// The language of words.

/// A character that ends a word and starts an operator.
pub open spec fn is_operator_char(c: char) -> bool {
    c == '|' || c == ';' || c == '&' || c == '>' || c == '<'
}

/// `s` has the character `c` at `i`.
pub open spec fn at(s: Seq<char>, i: int, c: char) -> bool {
    0 <= i < s.len() && s[i] == c
}

/// The first position of `c` at or after `i`.
pub open spec fn find_char(s: Seq<char>, i: int, c: char) -> Option<int>
    decreases s.len() - i,
{
    if i >= s.len() {
        None
    } else if s[i] == c {
        Some(i)
    } else {
        find_char(s, i + 1, c)
    }
}

/// The end of the run of name characters that starts at `i`.
pub open spec fn name_end(s: Seq<char>, i: int) -> int
    decreases s.len() - i,
{
    if 0 <= i < s.len() && is_name_char(s[i]) {
        name_end(s, i + 1)
    } else {
        i
    }
}

/// The variable name at `i` (just after a `$`), if there is one, and the
/// position after it: `?`, or a run of name characters that does not start
/// with a digit.
pub open spec fn var_at(s: Seq<char>, i: int) -> (Option<Seq<char>>, int) {
    if at(s, i, '?') {
        (Some(seq!['?']), i + 1)
    } else if 0 <= i < s.len() && is_name_char(s[i]) && !is_digit_char(s[i]) {
        (Some(s.subrange(i, name_end(s, i))), name_end(s, i))
    } else {
        (None, i)
    }
}

/// The position of the `)` that closes the innermost of `depth` open
/// parentheses down to the outermost, reading from `i`. Quoted spans are
/// skipped.
pub open spec fn close_paren(s: Seq<char>, i: int, depth: nat) -> Result<int, ParseError>
    decreases s.len() - i,
{
    if i >= s.len() {
        Err(ParseError::UnterminatedSubst)
    } else if s[i] == '(' {
        close_paren(s, i + 1, depth + 1)
    } else if s[i] == ')' {
        if depth <= 1 {
            Ok(i)
        } else {
            close_paren(s, i + 1, (depth - 1) as nat)
        }
    } else if s[i] == '\'' || s[i] == '"' {
        proof {
            lemma_find_char(s, i + 1, s[i]);
        }
        match find_char(s, i + 1, s[i]) {
            None => Err(ParseError::UnterminatedQuote(s[i])),
            Some(k) => close_paren(s, k + 1, depth),
        }
    } else {
        close_paren(s, i + 1, depth)
    }
}

/// What one step of reading a word contributes.
pub enum Piece {
    /// An unquoted character.
    Raw(char),
    /// A quoted character.
    Quoted(char),
    /// A complete part.
    Whole(PartView),
    /// Nothing, but neighbours on either side stay apart.
    Cut,
}

/// A word, or the rest of one, read up to a position.
pub type Scan = Result<(Seq<Piece>, int), ParseError>;

/// `scan` with `pieces` read before it.
pub open spec fn prepend(pieces: Seq<Piece>, scan: Scan) -> Scan {
    match scan {
        Ok((rest, end)) => Ok((pieces + rest, end)),
        Err(e) => Err(e),
    }
}

/// The characters `s[i..k]`, quoted.
pub open spec fn quoted_run(s: Seq<char>, i: int, k: int) -> Seq<Piece>
    decreases k - i,
{
    if i >= k {
        Seq::empty()
    } else {
        quoted_run(s, i, k - 1).push(Piece::Quoted(s[k - 1]))
    }
}

/// A single-quoted span whose opening quote is just before `i`.
pub open spec fn scan_single(s: Seq<char>, i: int) -> Scan {
    match find_char(s, i, '\'') {
        None => Err(ParseError::UnterminatedQuote('\'')),
        Some(k) => Ok((quoted_run(s, i, k), k + 1)),
    }
}

/// Characters that `\` escapes inside double quotes.
pub open spec fn is_dq_escapable(c: char) -> bool {
    c == '\\' || c == '"' || c == '$' || c == '`'
}

/// A double-quoted span whose opening quote is before `i`, from `i` on.
pub open spec fn scan_double(s: Seq<char>, i: int) -> Scan
    decreases s.len() - i,
{
    if !(0 <= i < s.len()) {
        Err(ParseError::UnterminatedQuote('"'))
    } else if s[i] == '"' {
        Ok((Seq::empty(), i + 1))
    } else if s[i] == '\\' {
        if i + 1 >= s.len() {
            Err(ParseError::UnterminatedQuote('"'))
        } else if is_dq_escapable(s[i + 1]) {
            prepend(seq![Piece::Quoted(s[i + 1])], scan_double(s, i + 2))
        } else {
            prepend(seq![Piece::Quoted('\\')], scan_double(s, i + 1))
        }
    } else if s[i] == '$' && at(s, i + 1, '(') {
        proof {
            lemma_close_paren(s, i + 2, 1);
        }
        match close_paren(s, i + 2, 1) {
            Err(e) => Err(e),
            Ok(k) => prepend(
                seq![Piece::Whole(PartView::QSubst(s.subrange(i + 2, k)))],
                scan_double(s, k + 1),
            ),
        }
    } else if s[i] == '$' {
        proof {
            lemma_name_end(s, i + 1);
        }
        match var_at(s, i + 1) {
            (Some(name), end) => prepend(
                seq![Piece::Whole(PartView::QVar(name))],
                scan_double(s, end),
            ),
            (None, end) => prepend(seq![Piece::Cut, Piece::Quoted('$')], scan_double(s, end)),
        }
    } else {
        prepend(seq![Piece::Quoted(s[i])], scan_double(s, i + 1))
    }
}

/// The rest, from `i` on, of a word that starts at `start`.
pub open spec fn scan_word(s: Seq<char>, i: int, start: int) -> Scan
    decreases s.len() - i,
{
    if !(0 <= i < s.len()) || is_white_space(s[i]) || is_operator_char(s[i]) {
        Ok((Seq::empty(), i))
    } else if s[i] == '\\' {
        if i + 1 >= s.len() {
            Err(ParseError::TrailingBackslash)
        } else {
            prepend(seq![Piece::Raw(s[i + 1])], scan_word(s, i + 2, start))
        }
    } else if s[i] == '\'' {
        proof {
            lemma_find_char(s, i + 1, '\'');
        }
        match scan_single(s, i + 1) {
            Err(e) => Err(e),
            Ok((pieces, end)) => prepend(pieces, scan_word(s, end, start)),
        }
    } else if s[i] == '"' {
        proof {
            lemma_scan_double(s, i + 1);
        }
        match scan_double(s, i + 1) {
            Err(e) => Err(e),
            Ok((pieces, end)) => prepend(pieces, scan_word(s, end, start)),
        }
    } else if s[i] == '$' && at(s, i + 1, '(') {
        proof {
            lemma_close_paren(s, i + 2, 1);
        }
        match close_paren(s, i + 2, 1) {
            Err(e) => Err(e),
            Ok(k) => prepend(
                seq![Piece::Whole(PartView::Subst(s.subrange(i + 2, k)))],
                scan_word(s, k + 1, start),
            ),
        }
    } else if s[i] == '$' {
        proof {
            lemma_name_end(s, i + 1);
        }
        match var_at(s, i + 1) {
            (Some(name), end) => prepend(
                seq![Piece::Whole(PartView::Var(name))],
                scan_word(s, end, start),
            ),
            (None, end) => prepend(seq![Piece::Cut, Piece::Raw('$')], scan_word(s, end, start)),
        }
    } else if s[i] == '~' && i == start {
        prepend(seq![Piece::Whole(PartView::Tilde)], scan_word(s, i + 1, start))
    } else {
        prepend(seq![Piece::Raw(s[i])], scan_word(s, i + 1, start))
    }
}

/// The parts that the pieces of a word make up: runs of unquoted characters
/// and runs of quoted characters become one literal each.
pub open spec fn coalesce(pieces: Seq<Piece>) -> Seq<PartView>
    decreases pieces.len(),
{
    if pieces.len() == 0 {
        Seq::empty()
    } else {
        let before = coalesce(pieces.drop_last());
        let joins = pieces.len() >= 2;
        let prev = pieces[pieces.len() - 2];
        match pieces.last() {
            Piece::Raw(c) => if joins && prev is Raw {
                before.drop_last().push(PartView::Lit(before.last()->Lit_0.push(c)))
            } else {
                before.push(PartView::Lit(seq![c]))
            },
            Piece::Quoted(c) => if joins && prev is Quoted {
                before.drop_last().push(PartView::QLit(before.last()->QLit_0.push(c)))
            } else {
                before.push(PartView::QLit(seq![c]))
            },
            Piece::Whole(part) => before.push(part),
            Piece::Cut => before,
        }
    }
}

// ---------------------------------------------------------------------------
// The language of command lines.

/// The word at `i` and the position after it.
pub open spec fn word_at(s: Seq<char>, i: int) -> Result<(TokenView, int), ParseError> {
    match scan_word(s, i, i) {
        Err(e) => Err(e),
        Ok((pieces, end)) => Ok((TokenView::Word(coalesce(pieces)), end)),
    }
}

/// The token at `i`, where no white space stands, and the position after it.
pub open spec fn token_at(s: Seq<char>, i: int) -> Result<(TokenView, int), ParseError> {
    if s[i] == '|' {
        if at(s, i + 1, '|') {
            Ok((TokenView::Or, i + 2))
        } else {
            Ok((TokenView::Pipe, i + 1))
        }
    } else if s[i] == ';' {
        Ok((TokenView::Semi, i + 1))
    } else if s[i] == '&' {
        if at(s, i + 1, '&') {
            Ok((TokenView::And, i + 2))
        } else {
            Ok((TokenView::Amp, i + 1))
        }
    } else if s[i] == '>' {
        if at(s, i + 1, '>') {
            Ok((TokenView::Out { append: true }, i + 2))
        } else {
            Ok((TokenView::Out { append: false }, i + 1))
        }
    } else if s[i] == '<' {
        Ok((TokenView::In, i + 1))
    } else if s[i] == '2' && at(s, i + 1, '>') {
        if at(s, i + 2, '>') {
            Ok((TokenView::ErrOut { append: true }, i + 3))
        } else {
            Ok((TokenView::ErrOut { append: false }, i + 2))
        }
    } else {
        word_at(s, i)
    }
}

/// A list of tokens with spans, or what is wrong with the line.
pub type Lexed = Result<Seq<SpannedView>, ParseError>;

/// `rest` with `tokens` before it.
pub open spec fn prepend_tokens(tokens: Seq<SpannedView>, rest: Lexed) -> Lexed {
    match rest {
        Ok(more) => Ok(tokens + more),
        Err(e) => Err(e),
    }
}

/// The tokens of `s` from `i` on.
pub open spec fn tokens_from(s: Seq<char>, i: int) -> Lexed
    decreases s.len() - i,
{
    if !(0 <= i < s.len()) {
        Ok(Seq::empty())
    } else if is_white_space(s[i]) {
        tokens_from(s, i + 1)
    } else {
        proof {
            lemma_token_at(s, i);
        }
        match token_at(s, i) {
            Err(e) => Err(e),
            Ok((token, end)) => prepend_tokens(
                seq![SpannedView { start: i, end, token }],
                tokens_from(s, end),
            ),
        }
    }
}

/// The tokens of a line with their spans.
pub open spec fn lexed(s: Seq<char>) -> Lexed {
    tokens_from(s, 0)
}

/// The tokens without their spans.
pub open spec fn bare_tokens(tokens: Seq<SpannedView>) -> Seq<TokenView> {
    Seq::new(tokens.len(), |i: int| tokens[i].token)
}

// ---------------------------------------------------------------------------
// Where the scanners end.

pub proof fn lemma_find_char(s: Seq<char>, i: int, c: char)
    ensures
        match find_char(s, i, c) {
            Some(k) => i <= k < s.len() && s[k] == c && forall|j: int|
                i <= j < k ==> s[j] != c,
            None => forall|j: int| i <= j < s.len() ==> s[j] != c,
        },
    decreases s.len() - i,
{
    if i < s.len() && s[i] != c {
        lemma_find_char(s, i + 1, c);
    }
}

pub proof fn lemma_name_end(s: Seq<char>, i: int)
    ensures
        i <= name_end(s, i),
        0 <= i <= s.len() ==> name_end(s, i) <= s.len(),
        forall|j: int| i <= j < name_end(s, i) ==> is_name_char(#[trigger] s[j]),
    decreases s.len() - i,
{
    if 0 <= i < s.len() && is_name_char(s[i]) {
        lemma_name_end(s, i + 1);
    }
}

pub proof fn lemma_close_paren(s: Seq<char>, i: int, depth: nat)
    ensures
        close_paren(s, i, depth) matches Ok(k) ==> i <= k < s.len() && s[k] == ')',
    decreases s.len() - i,
{
    if i < s.len() {
        if s[i] == '(' {
            lemma_close_paren(s, i + 1, depth + 1);
        } else if s[i] == ')' {
            if depth > 1 {
                lemma_close_paren(s, i + 1, (depth - 1) as nat);
            }
        } else if s[i] == '\'' || s[i] == '"' {
            lemma_find_char(s, i + 1, s[i]);
            if let Some(k) = find_char(s, i + 1, s[i]) {
                lemma_close_paren(s, k + 1, depth);
            }
        } else {
            lemma_close_paren(s, i + 1, depth);
        }
    }
}

pub proof fn lemma_scan_double(s: Seq<char>, i: int)
    ensures
        0 <= i ==> (scan_double(s, i) matches Ok((_, end)) ==> i < end <= s.len()),
    decreases s.len() - i,
{
    if 0 <= i < s.len() {
        if s[i] == '"' {
        } else if s[i] == '\\' {
            lemma_scan_double(s, i + 1);
            if i + 1 < s.len() {
                lemma_scan_double(s, i + 2);
            }
        } else if s[i] == '$' && at(s, i + 1, '(') {
            lemma_close_paren(s, i + 2, 1);
            if let Ok(k) = close_paren(s, i + 2, 1) {
                lemma_scan_double(s, k + 1);
            }
        } else if s[i] == '$' {
            lemma_name_end(s, i + 1);
            lemma_scan_double(s, var_at(s, i + 1).1);
        } else {
            lemma_scan_double(s, i + 1);
        }
    }
}

pub proof fn lemma_scan_word(s: Seq<char>, i: int, start: int)
    ensures
        0 <= i <= s.len() ==> (scan_word(s, i, start) matches Ok((_, end)) ==> i <= end
            <= s.len() && (i < s.len() && !is_white_space(s[i]) && !is_operator_char(s[i]) ==> i
            < end)),
    decreases s.len() - i,
{
    if 0 <= i < s.len() && !is_white_space(s[i]) && !is_operator_char(s[i]) {
        if s[i] == '\\' {
            if i + 1 < s.len() {
                lemma_scan_word(s, i + 2, start);
            }
        } else if s[i] == '\'' {
            lemma_find_char(s, i + 1, '\'');
            if let Ok((_, end)) = scan_single(s, i + 1) {
                lemma_scan_word(s, end, start);
            }
        } else if s[i] == '"' {
            lemma_scan_double(s, i + 1);
            if let Ok((_, end)) = scan_double(s, i + 1) {
                lemma_scan_word(s, end, start);
            }
        } else if s[i] == '$' && at(s, i + 1, '(') {
            lemma_close_paren(s, i + 2, 1);
            if let Ok(k) = close_paren(s, i + 2, 1) {
                lemma_scan_word(s, k + 1, start);
            }
        } else if s[i] == '$' {
            lemma_name_end(s, i + 1);
            lemma_scan_word(s, var_at(s, i + 1).1, start);
        } else {
            lemma_scan_word(s, i + 1, start);
        }
    }
}

pub proof fn lemma_token_at(s: Seq<char>, i: int)
    ensures
        0 <= i < s.len() && !is_white_space(s[i]) ==> (token_at(s, i) matches Ok((_, end)) ==> i
            < end <= s.len()),
{
    lemma_scan_word(s, i, i);
}

// ---------------------------------------------------------------------------
// Reading words.

/// Whether `chars` has `c` at `i`.
fn char_at(chars: &[char], i: usize, c: char) -> (r: bool)
    ensures
        r == at(chars@, i as int, c),
{
    i < chars.len() && chars[i] == c
}

/// The character at `i`.
fn char_of(chars: &[char], i: usize) -> (c: char)
    requires
        i < chars@.len(),
    ensures
        c == chars@[i as int],
{
    chars[i]
}

/// Characters that end a word and start an operator.
pub fn is_operator(c: char) -> (r: bool)
    ensures
        r == is_operator_char(c),
{
    c == '|' || c == ';' || c == '&' || c == '>' || c == '<'
}

/// The kind of literal run that a [`WordBuilder`] is collecting.
#[derive(Clone, Copy, PartialEq, Eq, Structural)]
enum Run {
    Idle,
    Raw,
    Quoted,
}

/// A word under construction: the parts that are complete, and the literal
/// run that still grows.
struct WordBuilder {
    parts: Vec<Part>,
    run: String,
    kind: Run,
    pieces: Ghost<Seq<Piece>>,
}

impl WordBuilder {
    /// The parts are those of the pieces read so far.
    spec fn wf(self) -> bool {
        let made = part_views(self.parts@);
        let pieces = self.pieces@;
        match self.kind {
            Run::Idle => {
                &&& self.run@.len() == 0
                &&& coalesce(pieces) == made
                &&& pieces.len() == 0 || pieces.last() is Whole || pieces.last() is Cut
            },
            Run::Raw => {
                &&& pieces.len() > 0 && pieces.last() is Raw
                &&& coalesce(pieces) == made.push(PartView::Lit(self.run@))
            },
            Run::Quoted => {
                &&& pieces.len() > 0 && pieces.last() is Quoted
                &&& coalesce(pieces) == made.push(PartView::QLit(self.run@))
            },
        }
    }

    fn new() -> (r: Self)
        ensures
            r.wf(),
            r.pieces@ == Seq::<Piece>::empty(),
    {
        let r = WordBuilder {
            parts: Vec::new(),
            run: String::new(),
            kind: Run::Idle,
            pieces: Ghost(Seq::empty()),
        };
        proof {
            assert(part_views(r.parts@) =~= coalesce(r.pieces@));
        }
        r
    }

    /// End the current literal run.
    fn flush(&mut self)
        requires
            old(self).wf(),
        ensures
            final(self).run@.len() == 0,
            final(self).kind is Idle,
            final(self).pieces == old(self).pieces,
            part_views(final(self).parts@) == coalesce(final(self).pieces@),
    {
        let mut run = String::new();
        std::mem::swap(&mut run, &mut self.run);
        let ghost before = part_views(self.parts@);
        match self.kind {
            Run::Idle => {},
            Run::Raw => {
                self.parts.push(Part::Lit(run));
                proof {
                    assert(part_views(self.parts@) =~= before.push(PartView::Lit(run@)));
                }
            },
            Run::Quoted => {
                self.parts.push(Part::QLit(run));
                proof {
                    assert(part_views(self.parts@) =~= before.push(PartView::QLit(run@)));
                }
            },
        }
        self.kind = Run::Idle;
    }

    fn push_unquoted(&mut self, c: char)
        requires
            old(self).wf(),
        ensures
            final(self).wf(),
            final(self).pieces@ == old(self).pieces@.push(Piece::Raw(c)),
    {
        let ghost before = self.pieces@;
        match self.kind {
            Run::Raw => {},
            _ => {
                self.flush();
                self.kind = Run::Raw;
            },
        }
        self.run.push(c);
        self.pieces = Ghost(before.push(Piece::Raw(c)));
        proof {
            let now = self.pieces@;
            assert(now.drop_last() =~= before);
            if before.len() > 0 && before.last() is Raw {
                let made = part_views(self.parts@);
                assert(coalesce(before).drop_last() =~= made);
            } else {
                assert(self.run@ =~= seq![c]);
            }
        }
    }

    fn push_quoted(&mut self, c: char)
        requires
            old(self).wf(),
        ensures
            final(self).wf(),
            final(self).pieces@ == old(self).pieces@.push(Piece::Quoted(c)),
    {
        let ghost before = self.pieces@;
        match self.kind {
            Run::Quoted => {},
            _ => {
                self.flush();
                self.kind = Run::Quoted;
            },
        }
        self.run.push(c);
        self.pieces = Ghost(before.push(Piece::Quoted(c)));
        proof {
            let now = self.pieces@;
            assert(now.drop_last() =~= before);
            if before.len() > 0 && before.last() is Quoted {
                let made = part_views(self.parts@);
                assert(coalesce(before).drop_last() =~= made);
            } else {
                assert(self.run@ =~= seq![c]);
            }
        }
    }

    fn push_part(&mut self, part: Part)
        requires
            old(self).wf(),
        ensures
            final(self).wf(),
            final(self).pieces@ == old(self).pieces@.push(Piece::Whole(part@)),
    {
        self.flush();
        let ghost before = self.pieces@;
        let ghost made = part_views(self.parts@);
        self.parts.push(part);
        self.pieces = Ghost(before.push(Piece::Whole(part@)));
        proof {
            assert(self.pieces@.drop_last() =~= before);
            assert(part_views(self.parts@) =~= made.push(part@));
        }
    }

    fn cut(&mut self)
        requires
            old(self).wf(),
        ensures
            final(self).wf(),
            final(self).pieces@ == old(self).pieces@.push(Piece::Cut),
    {
        self.flush();
        let ghost before = self.pieces@;
        self.pieces = Ghost(before.push(Piece::Cut));
        proof {
            assert(self.pieces@.drop_last() =~= before);
        }
    }
}

proof fn lemma_prepend(a: Seq<Piece>, b: Seq<Piece>, scan: Scan)
    ensures
        prepend(a, prepend(b, scan)) == prepend(a + b, scan),
{
    if let Ok((rest, _)) = scan {
        assert(a + (b + rest) =~= (a + b) + rest);
    }
}

/// Variable name after `$`: `[A-Za-z_][A-Za-z0-9_]*` or `?`.
fn lex_var(chars: &[char], start: usize) -> (r: (Option<String>, usize))
    requires
        start <= chars@.len(),
    ensures
        r.1 == var_at(chars@, start as int).1,
        r.0 matches Some(name) ==> var_at(chars@, start as int).0 == Some(name@),
        r.0 is None ==> var_at(chars@, start as int).0 is None,
        start <= r.1 <= chars@.len(),
{
    let n: usize = chars.len();
    if start < n && chars[start] == '?' {
        let mut name = String::new();
        name.push('?');
        proof {
            assert(name@ =~= seq!['?']);
        }
        return (Some(name), start + 1);
    }
    if start >= n || !is_name_part(chars[start]) || is_digit(chars[start]) {
        return (None, start);
    }
    let mut end: usize = start;
    while end < chars.len() && is_name_part(chars[end])
        invariant
            start <= end <= chars@.len(),
            name_end(chars@, start as int) == name_end(chars@, end as int),
        decreases chars.len() - end,
    {
        end += 1;
    }
    (Some(string_of(chars, start, end)), end)
}

/// Body of a `$(...)` substitution; `start` points just past the `(`.
/// Returns the raw inner command line and the index just past the closing
/// `)`. Parentheses must balance (so nested `$(...)` works); quoted spans
/// inside are copied verbatim and don't count.
fn lex_subst(chars: &[char], start: usize) -> (r: Result<(String, usize), ParseError>)
    requires
        1 <= start <= chars@.len(),
    ensures
        match close_paren(chars@, start as int, 1) {
            Ok(k) => r matches Ok((body, next)) && body@ == chars@.subrange(start as int, k)
                && next == k + 1 && start < next <= chars@.len(),
            Err(e) => r == Err::<(String, usize), ParseError>(e),
        },
{
    proof {
        lemma_close_paren(chars@, start as int, 1);
    }
    let mut depth: usize = 1;
    let mut i: usize = start;
    while i < chars.len()
        invariant
            1 <= start <= i <= chars@.len(),
            1 <= depth <= 1 + (i - start),
            close_paren(chars@, start as int, 1) == close_paren(chars@, i as int, depth as nat),
        decreases chars.len() - i,
    {
        let c = chars[i];
        if c == '(' {
            depth += 1;
            i += 1;
        } else if c == ')' {
            if depth == 1 {
                return Ok((string_of(chars, start, i), i + 1));
            }
            depth -= 1;
            i += 1;
        } else if c == '\'' || c == '"' {
            let ghost open = i as int;
            i += 1;
            while i < chars.len() && chars[i] != c
                invariant
                    start <= open < i <= chars@.len(),
                    find_char(chars@, open + 1, c) == find_char(chars@, i as int, c),
                decreases chars.len() - i,
            {
                i += 1;
            }
            if i >= chars.len() {
                return Err(ParseError::UnterminatedQuote(c));
            }
            i += 1;
        } else {
            i += 1;
        }
    }
    Err(ParseError::UnterminatedSubst)
}

/// A single-quoted span; `start` points just past the opening quote. Returns
/// the index just past the closing one.
fn lex_single(word: &mut WordBuilder, chars: &[char], start: usize) -> (r: Result<
    usize,
    ParseError,
>)
    requires
        old(word).wf(),
        start <= chars@.len(),
    ensures
        match scan_single(chars@, start as int) {
            Ok((pieces, end)) => r == Ok::<usize, ParseError>(end as usize) && start < end
                <= chars@.len() && final(word).wf() && final(word).pieces@ == old(word).pieces@
                + pieces,
            Err(e) => r == Err::<usize, ParseError>(e),
        },
{
    let ghost before = word.pieces@;
    let ghost s = chars@;
    let mut i: usize = start;
    proof {
        assert(before =~= before + quoted_run(s, start as int, i as int));
    }
    while i < chars.len() && chars[i] != '\''
        invariant
            s == chars@,
            start <= i <= chars@.len(),
            word.wf(),
            before == old(word).pieces@,
            find_char(s, start as int, '\'') == find_char(s, i as int, '\''),
            word.pieces@ == before + quoted_run(s, start as int, i as int),
        decreases chars.len() - i,
    {
        word.push_quoted(char_of(chars, i));
        i += 1;
        proof {
            assert(word.pieces@ =~= before + quoted_run(s, start as int, i as int));
        }
    }
    if i >= chars.len() {
        return Err(ParseError::UnterminatedQuote('\''));
    }
    Ok(i + 1)
}

/// A double-quoted span; `start` points just past the opening quote. Returns
/// the index just past the closing one.
fn lex_double(word: &mut WordBuilder, chars: &[char], start: usize) -> (r: Result<
    usize,
    ParseError,
>)
    requires
        old(word).wf(),
        start <= chars@.len(),
    ensures
        match scan_double(chars@, start as int) {
            Ok((pieces, end)) => r == Ok::<usize, ParseError>(end as usize) && start < end
                <= chars@.len() && final(word).wf() && final(word).pieces@ == old(word).pieces@
                + pieces,
            Err(e) => r == Err::<usize, ParseError>(e),
        },
{
    let ghost before = word.pieces@;
    let ghost s = chars@;
    let ghost mut read: Seq<Piece> = Seq::empty();
    let mut i: usize = start;
    proof {
        if let Ok((pieces, _)) = scan_double(s, i as int) {
            assert(read + pieces =~= pieces);
        }
        assert(before + read =~= before);
    }
    while i < chars.len()
        invariant
            s == chars@,
            start <= i <= chars@.len(),
            word.wf(),
            before == old(word).pieces@,
            word.pieces@ == before + read,
            scan_double(s, start as int) == prepend(read, scan_double(s, i as int)),
        decreases chars.len() - i,
    {
        let c = char_of(chars, i);
        let ghost from = i as int;
        if c == '"' {
            proof {
                assert(read + Seq::<Piece>::empty() =~= read);
            }
            return Ok(i + 1);
        }
        let ghost mut step: Seq<Piece> = Seq::empty();
        if c == '\\' {
            i += 1;
            if i >= chars.len() {
                return Err(ParseError::UnterminatedQuote('"'));
            }
            let d = char_of(chars, i);
            if d == '\\' || d == '"' || d == '$' || d == '`' {
                word.push_quoted(d);
                i += 1;
                proof {
                    step = seq![Piece::Quoted(d)];
                }
            } else {
                word.push_quoted('\\');
                proof {
                    step = seq![Piece::Quoted('\\')];
                }
            }
        } else if c == '$' && char_at(chars, i + 1, '(') {
            match lex_subst(chars, i + 2) {
                Err(e) => return Err(e),
                Ok((body, next)) => {
                    proof {
                        step = seq![Piece::Whole(PartView::QSubst(body@))];
                    }
                    word.push_part(Part::QSubst(body));
                    i = next;
                },
            }
        } else if c == '$' {
            match lex_var(chars, i + 1) {
                (Some(name), next) => {
                    proof {
                        step = seq![Piece::Whole(PartView::QVar(name@))];
                    }
                    word.push_part(Part::QVar(name));
                    i = next;
                },
                (None, next) => {
                    word.cut();
                    word.push_quoted('$');
                    i = next;
                    proof {
                        step = seq![Piece::Cut, Piece::Quoted('$')];
                    }
                },
            }
        } else {
            word.push_quoted(c);
            i += 1;
            proof {
                step = seq![Piece::Quoted(c)];
            }
        }
        proof {
            lemma_prepend(read, step, scan_double(s, i as int));
            assert(scan_double(s, from) == prepend(step, scan_double(s, i as int)));
            assert(word.pieces@ =~= before + (read + step));
            read = read + step;
        }
    }
    Err(ParseError::UnterminatedQuote('"'))
}

/// The word that starts at `start` and the index just past it.
fn lex_word(chars: &[char], start: usize) -> (r: Result<(Vec<Part>, usize), ParseError>)
    requires
        start <= chars@.len(),
    ensures
        match scan_word(chars@, start as int, start as int) {
            Ok((pieces, end)) => r matches Ok((parts, next)) && part_views(parts@) == coalesce(
                pieces,
            ) && next == end,
            Err(e) => r == Err::<(Vec<Part>, usize), ParseError>(e),
        },
{
    let ghost s = chars@;
    let ghost from = start as int;
    let mut word = WordBuilder::new();
    let mut i: usize = start;
    proof {
        if let Ok((pieces, _)) = scan_word(s, from, from) {
            assert(word.pieces@ + pieces =~= pieces);
        }
    }
    while i < chars.len() && !is_whitespace(chars[i]) && !is_operator(chars[i])
        invariant
            s == chars@,
            from == start,
            start <= i <= chars@.len(),
            word.wf(),
            scan_word(s, from, from) == prepend(word.pieces@, scan_word(s, i as int, from)),
        decreases chars.len() - i,
    {
        let c = char_of(chars, i);
        let ghost at_i = i as int;
        let ghost read = word.pieces@;
        let ghost mut step: Seq<Piece> = Seq::empty();
        if c == '\\' {
            i += 1;
            if i >= chars.len() {
                return Err(ParseError::TrailingBackslash);
            }
            let d = char_of(chars, i);
            word.push_unquoted(d);
            proof {
                step = seq![Piece::Raw(d)];
            }
            i += 1;
        } else if c == '\'' {
            proof {
                lemma_find_char(s, i + 1, '\'');
                if let Ok((pieces, _)) = scan_single(s, i + 1) {
                    step = pieces;
                }
            }
            match lex_single(&mut word, chars, i + 1) {
                Err(e) => return Err(e),
                Ok(next) => i = next,
            }
        } else if c == '"' {
            proof {
                lemma_scan_double(s, i + 1);
                if let Ok((pieces, _)) = scan_double(s, i + 1) {
                    step = pieces;
                }
            }
            match lex_double(&mut word, chars, i + 1) {
                Err(e) => return Err(e),
                Ok(next) => i = next,
            }
        } else if c == '$' && char_at(chars, i + 1, '(') {
            match lex_subst(chars, i + 2) {
                Err(e) => return Err(e),
                Ok((body, next)) => {
                    proof {
                        step = seq![Piece::Whole(PartView::Subst(body@))];
                    }
                    word.push_part(Part::Subst(body));
                    i = next;
                },
            }
        } else if c == '$' {
            match lex_var(chars, i + 1) {
                (Some(name), next) => {
                    proof {
                        step = seq![Piece::Whole(PartView::Var(name@))];
                    }
                    word.push_part(Part::Var(name));
                    i = next;
                },
                (None, next) => {
                    word.cut();
                    word.push_unquoted('$');
                    i = next;
                    proof {
                        step = seq![Piece::Cut, Piece::Raw('$')];
                    }
                },
            }
        } else if c == '~' && i == start {
            word.push_part(Part::Tilde);
            i += 1;
            proof {
                step = seq![Piece::Whole(PartView::Tilde)];
            }
        } else {
            word.push_unquoted(c);
            i += 1;
            proof {
                step = seq![Piece::Raw(c)];
            }
        }
        proof {
            lemma_prepend(read, step, scan_word(s, i as int, from));
            assert(scan_word(s, at_i, from) == prepend(step, scan_word(s, i as int, from)));
            assert(word.pieces@ =~= read + step);
        }
    }
    proof {
        assert(word.pieces@ + Seq::<Piece>::empty() =~= word.pieces@);
    }
    word.flush();
    Ok((word.parts, i))
}

// ---------------------------------------------------------------------------
// Reading lines.

/// The token at `i`, where no white space stands, and the index just past it.
fn lex_token(chars: &[char], i: usize) -> (r: Result<(Token, usize), ParseError>)
    requires
        i < chars@.len(),
        !is_white_space(chars@[i as int]),
    ensures
        match token_at(chars@, i as int) {
            Ok((token, end)) => r matches Ok((t, next)) && t@ == token && next == end && i < next
                <= chars@.len(),
            Err(e) => r == Err::<(Token, usize), ParseError>(e),
        },
{
    proof {
        lemma_token_at(chars@, i as int);
    }
    let n: usize = chars.len();
    let c = chars[i];
    if c == '|' {
        if char_at(chars, i + 1, '|') {
            Ok((Token::Or, i + 2))
        } else {
            Ok((Token::Pipe, i + 1))
        }
    } else if c == ';' {
        Ok((Token::Semi, i + 1))
    } else if c == '&' {
        if char_at(chars, i + 1, '&') {
            Ok((Token::And, i + 2))
        } else {
            Ok((Token::Amp, i + 1))
        }
    } else if c == '>' {
        if char_at(chars, i + 1, '>') {
            Ok((Token::Out { append: true }, i + 2))
        } else {
            Ok((Token::Out { append: false }, i + 1))
        }
    } else if c == '<' {
        Ok((Token::In, i + 1))
    } else if c == '2' && char_at(chars, i + 1, '>') {
        if char_at(chars, i + 2, '>') {
            Ok((Token::ErrOut { append: true }, i + 3))
        } else {
            Ok((Token::ErrOut { append: false }, i + 2))
        }
    } else {
        match lex_word(chars, i) {
            Ok((parts, next)) => Ok((Token::Word(parts), next)),
            Err(e) => Err(e),
        }
    }
}

/// The tokens of a line.
pub fn lex(input: &str) -> (r: Result<Vec<Token>, ParseError>)
    ensures
        match lexed(input@) {
            Ok(tokens) => r matches Ok(v) && token_views(v@) == bare_tokens(tokens),
            Err(e) => r == Err::<Vec<Token>, ParseError>(e),
        },
{
    match lex_with_spans(input) {
        Err(e) => Err(e),
        Ok(spanned) => {
            let ghost all = span_views(spanned@);
            let mut tokens: Vec<Token> = Vec::new();
            let mut i: usize = 0;
            while i < spanned.len()
                invariant
                    all == span_views(spanned@),
                    i <= spanned@.len(),
                    tokens@.len() == i,
                    forall|k: int| 0 <= k < i ==> tokens@[k]@ == spanned@[k].1@,
                decreases spanned.len() - i,
            {
                tokens.push(spanned[i].1.clone());
                i += 1;
            }
            proof {
                assert(token_views(tokens@) =~= bare_tokens(all));
            }
            Ok(tokens)
        },
    }
}

/// Like [`lex`], but each token carries its char-index span in the input
/// (used by the line highlighter).
pub fn lex_with_spans(input: &str) -> (r: Result<Vec<(Range<usize>, Token)>, ParseError>)
    ensures
        match lexed(input@) {
            Ok(tokens) => r matches Ok(v) && span_views(v@) == tokens,
            Err(e) => r == Err::<Vec<(Range<usize>, Token)>, ParseError>(e),
        },
{
    let chars = chars_of(input);
    let ghost s = input@;
    let mut tokens: Vec<(Range<usize>, Token)> = Vec::new();
    let mut i: usize = 0;
    proof {
        if let Ok(more) = tokens_from(s, 0) {
            assert(span_views(tokens@) + more =~= more);
        }
    }
    while i < chars.len()
        invariant
            s == chars@,
            s == input@,
            i <= chars@.len(),
            lexed(s) == prepend_tokens(span_views(tokens@), tokens_from(s, i as int)),
        decreases chars.len() - i,
    {
        if is_whitespace(chars[i]) {
            i += 1;
        } else {
            let start: usize = i;
            match lex_token(chars.as_slice(), i) {
                Err(e) => return Err(e),
                Ok((token, next)) => {
                    let ghost before = span_views(tokens@);
                    let ghost here = SpannedView {
                        start: start as int,
                        end: next as int,
                        token: token@,
                    };
                    i = next;
                    tokens.push((start..i, token));
                    proof {
                        assert(span_views(tokens@) =~= before.push(here));
                        if let Ok(more) = tokens_from(s, i as int) {
                            assert(before + (seq![here] + more) =~= before.push(here) + more);
                        }
                    }
                },
            }
        }
    }
    proof {
        assert(span_views(tokens@) + Seq::<SpannedView>::empty() =~= span_views(tokens@));
    }
    Ok(tokens)
}

// ---------------------------------------------------------------------------
// Laws.

/// Every character of `s[i..k]` is white space.
pub open spec fn blank_between(s: Seq<char>, i: int, k: int) -> bool {
    forall|j: int| i <= j < k ==> is_white_space(#[trigger] s[j])
}

/// `tokens` covers `s` from `from` on: the spans are in order, none is empty
/// or overlaps another, and only white space stands between and around them.
pub open spec fn covers(s: Seq<char>, from: int, tokens: Seq<SpannedView>) -> bool
    decreases tokens.len(),
{
    if tokens.len() == 0 {
        blank_between(s, from, s.len() as int)
    } else {
        &&& from <= tokens[0].start < tokens[0].end <= s.len()
        &&& blank_between(s, from, tokens[0].start)
        &&& !is_white_space(s[tokens[0].start])
        &&& covers(s, tokens[0].end, tokens.skip(1))
    }
}

/// The tokens of a line cover it: their spans come in order without overlap,
/// each is nonempty and starts at a character that is not white space, and
/// what no span covers is white space.
pub proof fn law_spans_cover(s: Seq<char>)
    ensures
        lexed(s) matches Ok(tokens) ==> covers(s, 0, tokens),
{
    lemma_covers(s, 0, 0);
}

proof fn lemma_covers(s: Seq<char>, from: int, i: int)
    requires
        0 <= from <= i <= s.len(),
        blank_between(s, from, i),
    ensures
        tokens_from(s, i) matches Ok(tokens) ==> covers(s, from, tokens),
    decreases s.len() - i,
{
    if i < s.len() {
        if is_white_space(s[i]) {
            lemma_covers(s, from, i + 1);
        } else {
            lemma_token_at(s, i);
            if let Ok((token, end)) = token_at(s, i) {
                lemma_covers(s, end, end);
                if let Ok(more) = tokens_from(s, end) {
                    let here = SpannedView { start: i, end, token };
                    assert((seq![here] + more).skip(1) =~= more);
                }
            }
        }
    }
}

/// Spans come in order: each token ends before the next one starts.
pub proof fn law_spans_ordered(s: Seq<char>, a: int, b: int)
    requires
        lexed(s) is Ok,
        0 <= a < b < lexed(s)->Ok_0.len(),
    ensures
        lexed(s)->Ok_0[a].end <= lexed(s)->Ok_0[b].start,
        0 <= lexed(s)->Ok_0[a].start < lexed(s)->Ok_0[a].end,
        lexed(s)->Ok_0[b].start < lexed(s)->Ok_0[b].end <= s.len(),
{
    law_spans_cover(s);
    lemma_covers_index(s, 0, lexed(s)->Ok_0, a);
    lemma_covers_index(s, 0, lexed(s)->Ok_0, b);
    lemma_covers_order(s, 0, lexed(s)->Ok_0, a, b);
}

pub proof fn lemma_covers_index(s: Seq<char>, from: int, tokens: Seq<SpannedView>, k: int)
    requires
        covers(s, from, tokens),
        0 <= k < tokens.len(),
    ensures
        from <= tokens[k].start < tokens[k].end <= s.len(),
    decreases tokens.len(),
{
    if k > 0 {
        lemma_covers_index(s, tokens[0].end, tokens.skip(1), k - 1);
    }
}

proof fn lemma_covers_order(s: Seq<char>, from: int, tokens: Seq<SpannedView>, a: int, b: int)
    requires
        covers(s, from, tokens),
        0 <= a < b < tokens.len(),
    ensures
        tokens[a].end <= tokens[b].start,
    decreases tokens.len(),
{
    if a > 0 {
        lemma_covers_order(s, tokens[0].end, tokens.skip(1), a - 1, b - 1);
    } else {
        lemma_covers_index(s, tokens[0].end, tokens.skip(1), b - 1);
    }
}

/// A word that is a single-quoted span holds the quoted text literally, one
/// piece per character: nothing in it is expanded, split or globbed.
pub proof fn law_single_quotes_are_literal(text: Seq<char>)
    requires
        !text.contains('\''),
        text.len() > 0,
    ensures
        lexed(seq!['\''] + text + seq!['\'']) == Ok::<Seq<SpannedView>, ParseError>(
            seq![
                SpannedView {
                    start: 0,
                    end: text.len() as int + 2,
                    token: TokenView::Word(seq![PartView::QLit(text)]),
                },
            ],
        ),
{
    let s = seq!['\''] + text + seq!['\''];
    let n = text.len() as int;
    lemma_find_char(s, 1, '\'');
    assert(s[n + 1] == '\'');
    assert forall|j: int| 1 <= j < n + 1 implies s[j] != '\'' by {
        assert(s[j] == text[j - 1]);
        assert(text.contains(text[j - 1]));
    }
    let pieces = quoted_run(s, 1, n + 1);
    assert(scan_word(s, n + 2, 0) == Ok::<(Seq<Piece>, int), ParseError>((Seq::empty(), n + 2)));
    assert(pieces + Seq::<Piece>::empty() =~= pieces);
    assert(scan_word(s, 0, 0) == Ok::<(Seq<Piece>, int), ParseError>((pieces, n + 2)));
    lemma_coalesce_quoted_run(s, 1, n + 1);
    assert(s.subrange(1, n + 1) =~= text);
    assert(tokens_from(s, n + 2) == Ok::<Seq<SpannedView>, ParseError>(Seq::empty()));
    let here = SpannedView { start: 0, end: n + 2, token: TokenView::Word(seq![PartView::QLit(text)]) };
    assert(seq![here] + Seq::<SpannedView>::empty() =~= seq![here]);
}

proof fn lemma_coalesce_quoted_run(s: Seq<char>, i: int, k: int)
    requires
        0 <= i < k <= s.len(),
    ensures
        coalesce(quoted_run(s, i, k)) == seq![PartView::QLit(s.subrange(i, k))],
        quoted_run(s, i, k).len() == k - i,
        quoted_run(s, i, k).last() is Quoted,
    decreases k - i,
{
    let run = quoted_run(s, i, k - 1);
    lemma_coalesce_push_quoted(quoted_run(s, i, k), run, s[k - 1]);
    assert(k - 1 == i ==> quoted_run(s, i, i) == Seq::<Piece>::empty());
    if k - 1 > i {
        lemma_coalesce_quoted_run(s, i, k - 1);
        assert(s.subrange(i, k) =~= s.subrange(i, k - 1).push(s[k - 1]));
    } else {
        assert(s.subrange(i, k) =~= seq![s[k - 1]]);
    }
}

pub proof fn lemma_coalesce_push_quoted(all: Seq<Piece>, run: Seq<Piece>, c: char)
    requires
        all == run.push(Piece::Quoted(c)),
    ensures
        all.len() == run.len() + 1,
        all.last() == Piece::Quoted(c),
        run.len() == 0 ==> coalesce(all) == seq![PartView::QLit(seq![c])],
        forall|text: Seq<char>|
            run.len() > 0 && run.last() is Quoted && coalesce(run) == seq![PartView::QLit(text)]
                ==> coalesce(all) == seq![
                PartView::QLit(#[trigger] text.push(c)),
            ],
{
    assert(all.drop_last() =~= run);
    if run.len() == 0 {
        assert(coalesce(run) == Seq::<PartView>::empty());
        assert(coalesce(all) =~= seq![PartView::QLit(seq![c])]);
    }
    assert forall|text: Seq<char>|
        run.len() > 0 && run.last() is Quoted && coalesce(run) == seq![
            PartView::QLit(text),
        ] implies coalesce(all) == seq![
        PartView::QLit(#[trigger] text.push(c)),
    ] by {
        assert(coalesce(all) =~= seq![PartView::QLit(text.push(c))]);
    }
}

/// A character that stands for itself in a word.
pub open spec fn is_plain(c: char) -> bool {
    !is_white_space(c) && !is_operator_char(c) && c != '\\' && c != '\'' && c != '"' && c != '$'
        && c != '~'
}

/// The characters `s[i..k]`, unquoted.
pub open spec fn raw_run(s: Seq<char>, i: int, k: int) -> Seq<Piece>
    decreases k - i,
{
    if i >= k {
        Seq::empty()
    } else {
        seq![Piece::Raw(s[i])] + raw_run(s, i + 1, k)
    }
}

/// A text of characters that stand for themselves is one word with that text.
pub proof fn law_plain_text_is_one_word(text: Seq<char>)
    requires
        text.len() > 0,
        forall|i: int| 0 <= i < text.len() ==> is_plain(#[trigger] text[i]),
    ensures
        lexed(text) == Ok::<Seq<SpannedView>, ParseError>(
            seq![
                SpannedView {
                    start: 0,
                    end: text.len() as int,
                    token: TokenView::Word(seq![PartView::Lit(text)]),
                },
            ],
        ),
{
    let n = text.len() as int;
    lemma_scan_plain(text, 0, 0);
    lemma_coalesce_raw_run(text, 0, n, Seq::empty());
    let pieces = raw_run(text, 0, n);
    assert(Seq::<Piece>::empty() + pieces =~= pieces);
    assert(text.subrange(0, n) =~= text);
    assert(is_plain(text[0]));
    assert(!at(text, 1, '>')) by {
        if n > 1 {
            assert(is_plain(text[1]));
        }
    }
    let here = SpannedView { start: 0, end: n, token: TokenView::Word(seq![PartView::Lit(text)]) };
    assert(token_at(text, 0) == Ok::<(TokenView, int), ParseError>((here.token, n)));
    assert(tokens_from(text, n) == Ok::<Seq<SpannedView>, ParseError>(Seq::empty()));
    assert(seq![here] + Seq::<SpannedView>::empty() =~= seq![here]);
}

/// `scan` read `pieces`, up to `end`.
spec fn reads_to(scan: Scan, pieces: Seq<Piece>, end: int) -> bool {
    scan == Ok::<(Seq<Piece>, int), ParseError>((pieces, end))
}

proof fn lemma_scan_plain(s: Seq<char>, i: int, start: int)
    requires
        0 <= i <= s.len(),
        forall|k: int| 0 <= k < s.len() ==> is_plain(#[trigger] s[k]),
    ensures
        reads_to(scan_word(s, i, start), raw_run(s, i, s.len() as int), s.len() as int),
    decreases s.len() - i,
{
    if i < s.len() {
        assert(is_plain(s[i]));
        lemma_scan_plain(s, i + 1, start);
        lemma_scan_plain_step(s, i, start, s[i]);
    }
}

proof fn lemma_scan_plain_step(s: Seq<char>, i: int, start: int, c: char)
    requires
        0 <= i < s.len(),
        c == s[i],
        is_plain(c),
        reads_to(
            scan_word(s, i + 1, start),
            raw_run(s, i + 1, s.len() as int),
            s.len() as int,
        ),
    ensures
        reads_to(scan_word(s, i, start), raw_run(s, i, s.len() as int), s.len() as int),
{
}

/// Pieces after `before`, which end in no unquoted character or make up one
/// literal of them.
proof fn lemma_coalesce_raw_run(s: Seq<char>, i: int, k: int, before: Seq<Piece>)
    requires
        0 <= i <= k <= s.len(),
        i == 0 ==> before.len() == 0,
        i > 0 ==> before.len() > 0 && before.last() is Raw && coalesce(before) == seq![
            PartView::Lit(s.subrange(0, i)),
        ],
        k > 0,
    ensures
        coalesce(before + raw_run(s, i, k)) == seq![PartView::Lit(s.subrange(0, k))],
    decreases k - i,
{
    if i == k {
        assert(before + raw_run(s, i, k) =~= before);
    } else {
        lemma_raw_step(s, i, k, before, s[i]);
    }
}

proof fn lemma_raw_step(s: Seq<char>, i: int, k: int, before: Seq<Piece>, c: char)
    requires
        0 <= i < k <= s.len(),
        c == s[i],
        i == 0 ==> before.len() == 0,
        i > 0 ==> before.len() > 0 && before.last() is Raw && coalesce(before) == seq![
            PartView::Lit(s.subrange(0, i)),
        ],
    ensures
        coalesce(before + raw_run(s, i, k)) == seq![PartView::Lit(s.subrange(0, k))],
    decreases k - i,
{
    let next = before.push(Piece::Raw(c));
    assert(next.drop_last() =~= before);
    if i == 0 {
        assert(coalesce(before) == Seq::<PartView>::empty());
        assert(s.subrange(0, 1) =~= seq![c]);
        assert(coalesce(next) =~= seq![PartView::Lit(s.subrange(0, 1))]);
    } else {
        assert(s.subrange(0, i + 1) =~= s.subrange(0, i).push(c));
        assert(coalesce(next) =~= seq![PartView::Lit(s.subrange(0, i + 1))]);
    }
    assert(before + (seq![Piece::Raw(c)] + raw_run(s, i + 1, k)) =~= next + raw_run(s, i + 1, k));
    if i + 1 == k {
        assert(next + raw_run(s, i + 1, k) =~= next);
    } else {
        lemma_raw_step(s, i + 1, k, next, s[i + 1]);
    }
}

} // verus!
