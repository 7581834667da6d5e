//! Parser: tokens -> AST (Script -> AndOr -> Pipeline -> Command).

use vstd::prelude::*;

pub use crate::lexer::ParseError;
use crate::lexer::{bare_tokens, clone_parts, lex, lexed, part_views, token_views};
use crate::lexer::{Part, PartView, Token, TokenView};

verus! {

/// A whole command line: `AndOr` chains separated by `;`.
#[derive(Debug, PartialEq, Eq)]
pub struct Script {
    pub seq: Vec<AndOr>,
}

/// Pipelines chained by `&&` / `||`; each next one runs conditionally on the
/// previous exit status.
#[derive(Debug, PartialEq, Eq)]
pub struct AndOr {
    pub first: Pipeline,
    pub rest: Vec<(Connector, Pipeline)>,
}

/// `&&` (run next on success) or `||` (run next on failure).
#[derive(Debug, Clone, Copy, PartialEq, Eq, Structural)]
pub enum Connector {
    And,
    Or,
}

/// Commands connected by `|`. Invariant: `cmds` is never empty.
/// `background` (`cmd &`) runs the pipeline detached from the terminal.
#[derive(Debug, PartialEq, Eq)]
pub struct Pipeline {
    pub cmds: Vec<Command>,
    pub background: bool,
}

/// One command: unexpanded argv words plus redirects.
#[derive(Debug, PartialEq, Eq)]
pub struct Command {
    pub argv: Vec<Vec<Part>>,
    pub redirects: Vec<Redirect>,
}

/// A redirect; the target word is expanded at execution time.
#[derive(Debug, PartialEq, Eq)]
pub enum Redirect {
    In(Vec<Part>),
    Out { target: Vec<Part>, append: bool },
    ErrOut { target: Vec<Part>, append: bool },
}

/// Model of a [`Redirect`].
pub enum RedirectView {
    In(Seq<PartView>),
    Out { target: Seq<PartView>, append: bool },
    ErrOut { target: Seq<PartView>, append: bool },
}

/// Model of a [`Command`].
pub struct CommandView {
    pub argv: Seq<Seq<PartView>>,
    pub redirects: Seq<RedirectView>,
}

/// Model of a [`Pipeline`].
pub struct PipelineView {
    pub cmds: Seq<CommandView>,
    pub background: bool,
}

/// Model of an [`AndOr`] chain.
pub struct AndOrView {
    pub first: PipelineView,
    pub rest: Seq<(Connector, PipelineView)>,
}

/// Model of a [`Script`].
pub struct ScriptView {
    pub seq: Seq<AndOrView>,
}

/// The models of a list of words.
pub open spec fn word_views(v: Seq<Vec<Part>>) -> Seq<Seq<PartView>> {
    Seq::new(v.len(), |i: int| part_views(v[i]@))
}

/// The models of a list of redirects.
pub open spec fn redirect_views(v: Seq<Redirect>) -> Seq<RedirectView> {
    Seq::new(v.len(), |i: int| v[i]@)
}

/// The models of a list of commands.
pub open spec fn command_views(v: Seq<Command>) -> Seq<CommandView> {
    Seq::new(v.len(), |i: int| v[i]@)
}

/// The models of the chained pipelines.
pub open spec fn link_views(v: Seq<(Connector, Pipeline)>) -> Seq<(Connector, PipelineView)> {
    Seq::new(v.len(), |i: int| (v[i].0, v[i].1@))
}

/// The models of a list of chains.
pub open spec fn and_or_views(v: Seq<AndOr>) -> Seq<AndOrView> {
    Seq::new(v.len(), |i: int| v[i]@)
}

impl View for Redirect {
    type V = RedirectView;

    open spec fn view(&self) -> RedirectView {
        match self {
            Redirect::In(target) => RedirectView::In(part_views(target@)),
            Redirect::Out { target, append } => RedirectView::Out {
                target: part_views(target@),
                append: *append,
            },
            Redirect::ErrOut { target, append } => RedirectView::ErrOut {
                target: part_views(target@),
                append: *append,
            },
        }
    }
}

impl View for Command {
    type V = CommandView;

    open spec fn view(&self) -> CommandView {
        CommandView { argv: word_views(self.argv@), redirects: redirect_views(self.redirects@) }
    }
}

impl View for Pipeline {
    type V = PipelineView;

    open spec fn view(&self) -> PipelineView {
        PipelineView { cmds: command_views(self.cmds@), background: self.background }
    }
}

impl View for AndOr {
    type V = AndOrView;

    open spec fn view(&self) -> AndOrView {
        AndOrView { first: self.first@, rest: link_views(self.rest@) }
    }
}

impl View for Script {
    type V = ScriptView;

    open spec fn view(&self) -> ScriptView {
        ScriptView { seq: and_or_views(self.seq@) }
    }
}

impl Clone for Redirect {
    fn clone(&self) -> (r: Self)
        ensures
            r@ == self@,
    {
        match self {
            Redirect::In(target) => Redirect::In(clone_parts(target.as_slice())),
            Redirect::Out { target, append } => Redirect::Out {
                target: clone_parts(target.as_slice()),
                append: *append,
            },
            Redirect::ErrOut { target, append } => Redirect::ErrOut {
                target: clone_parts(target.as_slice()),
                append: *append,
            },
        }
    }
}

impl Clone for Command {
    fn clone(&self) -> (r: Self)
        ensures
            r@ == self@,
    {
        let mut argv: Vec<Vec<Part>> = Vec::new();
        let mut i: usize = 0;
        while i < self.argv.len()
            invariant
                i <= self.argv@.len(),
                argv@.len() == i,
                forall|k: int|
                    0 <= k < i ==> part_views(#[trigger] argv@[k]@) == part_views(self.argv@[k]@),
            decreases self.argv.len() - i,
        {
            argv.push(clone_parts(self.argv[i].as_slice()));
            i += 1;
        }
        let mut redirects: Vec<Redirect> = Vec::new();
        let mut j: usize = 0;
        while j < self.redirects.len()
            invariant
                j <= self.redirects@.len(),
                redirects@.len() == j,
                forall|k: int| 0 <= k < j ==> (#[trigger] redirects@[k])@ == self.redirects@[k]@,
            decreases self.redirects.len() - j,
        {
            redirects.push(self.redirects[j].clone());
            j += 1;
        }
        proof {
            assert(word_views(argv@) =~= word_views(self.argv@));
            assert(redirect_views(redirects@) =~= redirect_views(self.redirects@));
        }
        Command { argv, redirects }
    }
}

impl Clone for Pipeline {
    fn clone(&self) -> (r: Self)
        ensures
            r@ == self@,
    {
        let mut cmds: Vec<Command> = Vec::new();
        let mut i: usize = 0;
        while i < self.cmds.len()
            invariant
                i <= self.cmds@.len(),
                cmds@.len() == i,
                forall|k: int| 0 <= k < i ==> (#[trigger] cmds@[k])@ == self.cmds@[k]@,
            decreases self.cmds.len() - i,
        {
            cmds.push(self.cmds[i].clone());
            i += 1;
        }
        proof {
            assert(command_views(cmds@) =~= command_views(self.cmds@));
        }
        Pipeline { cmds, background: self.background }
    }
}

// ---------------------------------------------------------------------------
// The grammar.

/// The word at `i`, which a redirect operator before it needs.
pub open spec fn target_at(t: Seq<TokenView>, i: int) -> Result<Seq<PartView>, ParseError> {
    if 0 <= i < t.len() && t[i] is Word {
        Ok(t[i]->Word_0)
    } else {
        Err(ParseError::MissingRedirectTarget)
    }
}

/// `cmd` with the words and redirects that stand at `i` and after it, up to
/// the next operator.
pub open spec fn command_items(t: Seq<TokenView>, i: int, cmd: CommandView) -> Result<
    (CommandView, int),
    ParseError,
>
    decreases t.len() - i,
{
    if !(0 <= i < t.len()) {
        Ok((cmd, i))
    } else {
        match t[i] {
            TokenView::Word(parts) => command_items(
                t,
                i + 1,
                CommandView { argv: cmd.argv.push(parts), ..cmd },
            ),
            TokenView::Out { append } => match target_at(t, i + 1) {
                Err(e) => Err(e),
                Ok(target) => command_items(
                    t,
                    i + 2,
                    CommandView {
                        redirects: cmd.redirects.push(RedirectView::Out { target, append }),
                        ..cmd
                    },
                ),
            },
            TokenView::ErrOut { append } => match target_at(t, i + 1) {
                Err(e) => Err(e),
                Ok(target) => command_items(
                    t,
                    i + 2,
                    CommandView {
                        redirects: cmd.redirects.push(RedirectView::ErrOut { target, append }),
                        ..cmd
                    },
                ),
            },
            TokenView::In => match target_at(t, i + 1) {
                Err(e) => Err(e),
                Ok(target) => command_items(
                    t,
                    i + 2,
                    CommandView { redirects: cmd.redirects.push(RedirectView::In(target)), ..cmd },
                ),
            },
            _ => Ok((cmd, i)),
        }
    }
}

/// A command without words and redirects.
pub open spec fn no_command() -> CommandView {
    CommandView { argv: Seq::empty(), redirects: Seq::empty() }
}

/// The command at `i` and the position after it.
pub open spec fn command_at(t: Seq<TokenView>, i: int) -> Result<(CommandView, int), ParseError> {
    match command_items(t, i, no_command()) {
        Err(e) => Err(e),
        Ok((cmd, end)) => if cmd.argv.len() == 0 && cmd.redirects.len() == 0 {
            Err(ParseError::ExpectedCommand)
        } else {
            Ok((cmd, end))
        },
    }
}

/// `cmds` and the commands that `|` adds to them at `i`.
pub open spec fn pipeline_more(t: Seq<TokenView>, i: int, cmds: Seq<CommandView>) -> Result<
    (Seq<CommandView>, int),
    ParseError,
>
    decreases t.len() - i,
{
    if 0 <= i < t.len() && t[i] is Pipe {
        proof {
            lemma_command_at(t, i + 1);
        }
        match command_at(t, i + 1) {
            Err(e) => Err(e),
            Ok((cmd, end)) => pipeline_more(t, end, cmds.push(cmd)),
        }
    } else {
        Ok((cmds, i))
    }
}

/// The pipeline at `i` and the position after it.
pub open spec fn pipeline_at(t: Seq<TokenView>, i: int) -> Result<(PipelineView, int), ParseError> {
    match command_at(t, i) {
        Err(e) => Err(e),
        Ok((cmd, end)) => match pipeline_more(t, end, seq![cmd]) {
            Err(e) => Err(e),
            Ok((cmds, end)) => Ok((PipelineView { cmds, background: false }, end)),
        },
    }
}

/// The connector at `i`, if one stands there.
pub open spec fn connector_at(t: Seq<TokenView>, i: int) -> Option<Connector> {
    if 0 <= i < t.len() && t[i] is And {
        Some(Connector::And)
    } else if 0 <= i < t.len() && t[i] is Or {
        Some(Connector::Or)
    } else {
        None
    }
}

/// `rest` and the pipelines that `&&` and `||` add to it at `i`.
pub open spec fn and_or_more(
    t: Seq<TokenView>,
    i: int,
    rest: Seq<(Connector, PipelineView)>,
) -> Result<(Seq<(Connector, PipelineView)>, int), ParseError>
    decreases t.len() - i,
{
    match connector_at(t, i) {
        None => Ok((rest, i)),
        Some(connector) => {
            proof {
                lemma_pipeline_at(t, i + 1);
            }
            match pipeline_at(t, i + 1) {
                Err(e) => Err(e),
                Ok((pipeline, end)) => and_or_more(t, end, rest.push((connector, pipeline))),
            }
        },
    }
}

/// The chain at `i` and the position after it.
pub open spec fn and_or_at(t: Seq<TokenView>, i: int) -> Result<(AndOrView, int), ParseError> {
    match pipeline_at(t, i) {
        Err(e) => Err(e),
        Ok((first, end)) => match and_or_more(t, end, Seq::empty()) {
            Err(e) => Err(e),
            Ok((rest, end)) => Ok((AndOrView { first, rest }, end)),
        },
    }
}

/// A pipeline, run in the background.
pub open spec fn detached(p: PipelineView) -> PipelineView {
    PipelineView { background: true, ..p }
}

/// The links of a chain, all run in the background.
pub open spec fn detached_links(rest: Seq<(Connector, PipelineView)>) -> Seq<
    (Connector, PipelineView),
> {
    Seq::new(rest.len(), |i: int| (rest[i].0, detached(rest[i].1)))
}

/// The chain at `i` with the `&` that may follow it, and the position after
/// both. Only `;` or the end of the line may follow `&`.
pub open spec fn item_at(t: Seq<TokenView>, i: int) -> Result<(AndOrView, int), ParseError> {
    match and_or_at(t, i) {
        Err(e) => Err(e),
        Ok((chain, end)) => if 0 <= end < t.len() && t[end] is Amp {
            if end + 1 == t.len() || t[end + 1] is Semi {
                Ok(
                    (
                        AndOrView {
                            first: detached(chain.first),
                            rest: detached_links(chain.rest),
                        },
                        end + 1,
                    ),
                )
            } else {
                Err(ParseError::UnexpectedAmp)
            }
        } else {
            Ok((chain, end))
        },
    }
}

/// `done` and the chains that stand at `i` and after it.
pub open spec fn script_from(t: Seq<TokenView>, i: int, done: Seq<AndOrView>) -> Result<
    ScriptView,
    ParseError,
>
    decreases t.len() - i,
{
    if !(0 <= i < t.len()) {
        Ok(ScriptView { seq: done })
    } else if t[i] is Semi {
        script_from(t, i + 1, done)
    } else if t[i] is Amp {
        Err(ParseError::UnexpectedAmp)
    } else {
        proof {
            lemma_item_at(t, i);
        }
        match item_at(t, i) {
            Err(e) => Err(e),
            Ok((chain, end)) => script_from(t, end, done.push(chain)),
        }
    }
}

/// The script that a list of tokens stands for.
pub open spec fn parsed_tokens(t: Seq<TokenView>) -> Result<ScriptView, ParseError> {
    script_from(t, 0, Seq::empty())
}

/// The script that a line stands for.
pub open spec fn parsed(line: Seq<char>) -> Result<ScriptView, ParseError> {
    match lexed(line) {
        Err(e) => Err(e),
        Ok(tokens) => parsed_tokens(bare_tokens(tokens)),
    }
}

// ---------------------------------------------------------------------------
// How far the grammar reads.

pub proof fn lemma_command_items(t: Seq<TokenView>, i: int, cmd: CommandView)
    ensures
        0 <= i <= t.len() ==> (command_items(t, i, cmd) matches Ok((out, end)) ==> {
            &&& i <= end <= t.len()
            &&& end == i ==> out == cmd
        }),
    decreases t.len() - i,
{
    if 0 <= i < t.len() {
        match t[i] {
            TokenView::Word(parts) => lemma_command_items(
                t,
                i + 1,
                CommandView { argv: cmd.argv.push(parts), ..cmd },
            ),
            TokenView::Out { append } => if let Ok(target) = target_at(t, i + 1) {
                lemma_command_items(
                    t,
                    i + 2,
                    CommandView {
                        redirects: cmd.redirects.push(RedirectView::Out { target, append }),
                        ..cmd
                    },
                );
            },
            TokenView::ErrOut { append } => if let Ok(target) = target_at(t, i + 1) {
                lemma_command_items(
                    t,
                    i + 2,
                    CommandView {
                        redirects: cmd.redirects.push(RedirectView::ErrOut { target, append }),
                        ..cmd
                    },
                );
            },
            TokenView::In => if let Ok(target) = target_at(t, i + 1) {
                lemma_command_items(
                    t,
                    i + 2,
                    CommandView { redirects: cmd.redirects.push(RedirectView::In(target)), ..cmd },
                );
            },
            _ => {},
        }
    }
}

pub proof fn lemma_command_at(t: Seq<TokenView>, i: int)
    ensures
        0 <= i <= t.len() ==> (command_at(t, i) matches Ok((_, end)) ==> i < end <= t.len()),
{
    lemma_command_items(t, i, no_command());
}

pub proof fn lemma_pipeline_more(t: Seq<TokenView>, i: int, cmds: Seq<CommandView>)
    ensures
        0 <= i <= t.len() ==> (pipeline_more(t, i, cmds) matches Ok((_, end)) ==> i <= end
            <= t.len()),
    decreases t.len() - i,
{
    if 0 <= i < t.len() && t[i] is Pipe {
        lemma_command_at(t, i + 1);
        if let Ok((cmd, end)) = command_at(t, i + 1) {
            lemma_pipeline_more(t, end, cmds.push(cmd));
        }
    }
}

pub proof fn lemma_pipeline_at(t: Seq<TokenView>, i: int)
    ensures
        0 <= i <= t.len() ==> (pipeline_at(t, i) matches Ok((_, end)) ==> i < end <= t.len()),
{
    lemma_command_at(t, i);
    if let Ok((cmd, end)) = command_at(t, i) {
        lemma_pipeline_more(t, end, seq![cmd]);
    }
}

pub proof fn lemma_and_or_more(t: Seq<TokenView>, i: int, rest: Seq<(Connector, PipelineView)>)
    ensures
        0 <= i <= t.len() ==> (and_or_more(t, i, rest) matches Ok((_, end)) ==> i <= end
            <= t.len()),
    decreases t.len() - i,
{
    if let Some(connector) = connector_at(t, i) {
        lemma_pipeline_at(t, i + 1);
        if let Ok((pipeline, end)) = pipeline_at(t, i + 1) {
            lemma_and_or_more(t, end, rest.push((connector, pipeline)));
        }
    }
}

pub proof fn lemma_item_at(t: Seq<TokenView>, i: int)
    ensures
        0 <= i <= t.len() ==> (and_or_at(t, i) matches Ok((_, end)) ==> i < end <= t.len()),
        0 <= i <= t.len() ==> (item_at(t, i) matches Ok((_, end)) ==> i < end <= t.len()),
{
    lemma_pipeline_at(t, i);
    if let Ok((_, end)) = pipeline_at(t, i) {
        lemma_and_or_more(t, end, Seq::empty());
    }
}

// ---------------------------------------------------------------------------
// The parser.

/// Tokens being read, and the position of the next one.
struct Parser {
    tokens: Vec<Token>,
    pos: usize,
}

impl Parser {
    spec fn view(self) -> Seq<TokenView> {
        token_views(self.tokens@)
    }

    spec fn wf(self) -> bool {
        self.pos <= self.tokens@.len()
    }

    fn peek(&self) -> (r: Option<&Token>)
        requires
            self.wf(),
        ensures
            match r {
                Some(token) => self.pos < self.tokens@.len() && token@ == self.view()[self.pos as int],
                None => self.pos == self.tokens@.len(),
            },
    {
        if self.pos < self.tokens.len() {
            Some(&self.tokens[self.pos])
        } else {
            None
        }
    }

    /// Step over the token that [`Parser::peek`] shows.
    fn skip(&mut self)
        requires
            old(self).pos < old(self).tokens@.len(),
        ensures
            final(self).tokens == old(self).tokens,
            final(self).pos == old(self).pos + 1,
    {
        let n: usize = self.tokens.len();
        assert(self.pos < n);
        self.pos = self.pos + 1;
    }

    fn script(&mut self) -> (r: Result<Script, ParseError>)
        requires
            old(self).wf(),
            old(self).pos == 0,
        ensures
            match parsed_tokens(old(self).view()) {
                Ok(script) => r matches Ok(out) && out@ == script,
                Err(e) => r == Err::<Script, ParseError>(e),
            },
    {
        let ghost t = self.view();
        let mut seq: Vec<AndOr> = Vec::new();
        proof {
            assert(and_or_views(seq@) =~= Seq::<AndOrView>::empty());
        }
        while self.pos < self.tokens.len()
            invariant
                self.wf(),
                t == self.view(),
                t == old(self).view(),
                parsed_tokens(t) == script_from(t, self.pos as int, and_or_views(seq@)),
            decreases self.tokens@.len() - self.pos,
        {
            match self.peek() {
                // Allow stray/trailing semicolons.
                Some(Token::Semi) => {
                    self.skip();
                },
                Some(Token::Amp) => {
                    return Err(ParseError::UnexpectedAmp);
                },
                _ => {
                    proof {
                        lemma_item_at(t, self.pos as int);
                    }
                    match self.item() {
                        Err(e) => {
                            return Err(e);
                        },
                        Ok(chain) => {
                            let ghost before = and_or_views(seq@);
                            seq.push(chain);
                            proof {
                                assert(and_or_views(seq@) =~= before.push(chain@));
                            }
                        },
                    }
                },
            }
        }
        Ok(Script { seq })
    }

    /// A chain and the `&` that may follow it.
    fn item(&mut self) -> (r: Result<AndOr, ParseError>)
        requires
            old(self).wf(),
        ensures
            final(self).tokens == old(self).tokens,
            final(self).wf(),
            match item_at(old(self).view(), old(self).pos as int) {
                Ok((chain, end)) => r matches Ok(out) && out@ == chain && final(self).pos == end,
                Err(e) => r == Err::<AndOr, ParseError>(e),
            },
    {
        proof {
            lemma_item_at(self.view(), self.pos as int);
        }
        match self.and_or() {
            Err(e) => Err(e),
            Ok(chain) => {
                if let Some(Token::Amp) = self.peek() {
                    // Trailing `&` backgrounds the whole command chain.
                    self.skip();
                    let chain = detach(chain);
                    // Only `;` or the end of the line may follow `&`;
                    // `a & b` is rejected to keep jobs one-per-command.
                    match self.peek() {
                        None => Ok(chain),
                        Some(Token::Semi) => Ok(chain),
                        _ => Err(ParseError::UnexpectedAmp),
                    }
                } else {
                    Ok(chain)
                }
            },
        }
    }

    fn and_or(&mut self) -> (r: Result<AndOr, ParseError>)
        requires
            old(self).wf(),
        ensures
            final(self).tokens == old(self).tokens,
            final(self).wf(),
            match and_or_at(old(self).view(), old(self).pos as int) {
                Ok((chain, end)) => r matches Ok(out) && out@ == chain && final(self).pos == end,
                Err(e) => r == Err::<AndOr, ParseError>(e),
            },
    {
        let ghost t = self.view();
        let first = match self.pipeline() {
            Err(e) => {
                return Err(e);
            },
            Ok(first) => first,
        };
        let ghost start = self.pos as int;
        let mut rest: Vec<(Connector, Pipeline)> = Vec::new();
        proof {
            assert(link_views(rest@) =~= Seq::<(Connector, PipelineView)>::empty());
        }
        let mut more: bool = true;
        while more
            invariant
                self.wf(),
                t == self.view(),
                self.tokens == old(self).tokens,
                more || connector_at(t, self.pos as int) is None,
                pipeline_at(t, old(self).pos as int) == Ok::<(PipelineView, int), ParseError>(
                    (first@, start),
                ),
                and_or_more(t, start, Seq::empty()) == and_or_more(
                    t,
                    self.pos as int,
                    link_views(rest@),
                ),
            decreases self.tokens@.len() - self.pos, (if more { 1int } else { 0int }),
        {
            let connector = match self.peek() {
                Some(Token::And) => Some(Connector::And),
                Some(Token::Or) => Some(Connector::Or),
                _ => None,
            };
            match connector {
                None => {
                    more = false;
                },
                Some(connector) => {
                    self.skip();
                    proof {
                        lemma_pipeline_at(t, self.pos as int);
                    }
                    match self.pipeline() {
                        Err(e) => {
                            return Err(e);
                        },
                        Ok(pipeline) => {
                            let ghost before = link_views(rest@);
                            rest.push((connector, pipeline));
                            proof {
                                assert(link_views(rest@) =~= before.push((connector, pipeline@)));
                            }
                        },
                    }
                },
            }
        }
        Ok(AndOr { first, rest })
    }

    fn pipeline(&mut self) -> (r: Result<Pipeline, ParseError>)
        requires
            old(self).wf(),
        ensures
            final(self).tokens == old(self).tokens,
            final(self).wf(),
            match pipeline_at(old(self).view(), old(self).pos as int) {
                Ok((pipeline, end)) => r matches Ok(out) && out@ == pipeline && final(self).pos
                    == end,
                Err(e) => r == Err::<Pipeline, ParseError>(e),
            },
    {
        let ghost t = self.view();
        let first = match self.command() {
            Err(e) => {
                return Err(e);
            },
            Ok(first) => first,
        };
        let ghost start = self.pos as int;
        let ghost head = first@;
        let mut cmds: Vec<Command> = Vec::new();
        cmds.push(first);
        proof {
            assert(command_views(cmds@) =~= seq![head]);
        }
        let mut more: bool = true;
        while more
            invariant
                self.wf(),
                t == self.view(),
                self.tokens == old(self).tokens,
                more || !(self.pos < t.len() && t[self.pos as int] is Pipe),
                command_at(t, old(self).pos as int) == Ok::<(CommandView, int), ParseError>(
                    (head, start),
                ),
                pipeline_more(t, start, seq![head]) == pipeline_more(
                    t,
                    self.pos as int,
                    command_views(cmds@),
                ),
            decreases self.tokens@.len() - self.pos, (if more { 1int } else { 0int }),
        {
            if let Some(Token::Pipe) = self.peek() {
                self.skip();
                proof {
                    lemma_command_at(t, self.pos as int);
                }
                match self.command() {
                    Err(e) => {
                        return Err(e);
                    },
                    Ok(cmd) => {
                        let ghost before = command_views(cmds@);
                        cmds.push(cmd);
                        proof {
                            assert(command_views(cmds@) =~= before.push(cmd@));
                        }
                    },
                }
            } else {
                more = false;
            }
        }
        Ok(Pipeline { cmds, background: false })
    }

    fn command(&mut self) -> (r: Result<Command, ParseError>)
        requires
            old(self).wf(),
        ensures
            final(self).tokens == old(self).tokens,
            final(self).wf(),
            match command_at(old(self).view(), old(self).pos as int) {
                Ok((cmd, end)) => r matches Ok(out) && out@ == cmd && final(self).pos == end,
                Err(e) => r == Err::<Command, ParseError>(e),
            },
    {
        let ghost t = self.view();
        let ghost start = self.pos as int;
        let mut cmd = Command { argv: Vec::new(), redirects: Vec::new() };
        proof {
            assert(word_views(cmd.argv@) =~= Seq::<Seq<PartView>>::empty());
            assert(redirect_views(cmd.redirects@) =~= Seq::<RedirectView>::empty());
        }
        let mut more: bool = true;
        while more
            invariant
                self.wf(),
                t == self.view(),
                t == old(self).view(),
                start == old(self).pos,
                self.tokens == old(self).tokens,
                command_items(t, start, no_command()) == command_items(t, self.pos as int, cmd@),
                !more ==> command_items(t, self.pos as int, cmd@) == Ok::<
                    (CommandView, int),
                    ParseError,
                >((cmd@, self.pos as int)),
            decreases self.tokens@.len() - self.pos, (if more { 1int } else { 0int }),
        {
            let ghost argv = word_views(cmd.argv@);
            let ghost redirects = redirect_views(cmd.redirects@);
            match self.peek() {
                Some(Token::Word(parts)) => {
                    let word = clone_parts(parts.as_slice());
                    cmd.argv.push(word);
                    self.skip();
                    proof {
                        assert(word_views(cmd.argv@) =~= argv.push(part_views(word@)));
                    }
                },
                Some(Token::Out { append }) => {
                    let append = *append;
                    self.skip();
                    match self.redirect_target() {
                        Err(e) => {
                            return Err(e);
                        },
                        Ok(target) => {
                            let redirect = Redirect::Out { target, append };
                            cmd.redirects.push(redirect);
                            proof {
                                assert(redirect_views(cmd.redirects@) =~= redirects.push(
                                    redirect@,
                                ));
                            }
                        },
                    }
                },
                Some(Token::ErrOut { append }) => {
                    let append = *append;
                    self.skip();
                    match self.redirect_target() {
                        Err(e) => {
                            return Err(e);
                        },
                        Ok(target) => {
                            let redirect = Redirect::ErrOut { target, append };
                            cmd.redirects.push(redirect);
                            proof {
                                assert(redirect_views(cmd.redirects@) =~= redirects.push(
                                    redirect@,
                                ));
                            }
                        },
                    }
                },
                Some(Token::In) => {
                    self.skip();
                    match self.redirect_target() {
                        Err(e) => {
                            return Err(e);
                        },
                        Ok(target) => {
                            let redirect = Redirect::In(target);
                            cmd.redirects.push(redirect);
                            proof {
                                assert(redirect_views(cmd.redirects@) =~= redirects.push(
                                    redirect@,
                                ));
                            }
                        },
                    }
                },
                // An operator ends the command; the caller reads it.
                Some(_) => {
                    more = false;
                },
                None => {
                    more = false;
                },
            }
        }
        if cmd.argv.len() == 0 && cmd.redirects.len() == 0 {
            return Err(ParseError::ExpectedCommand);
        }
        Ok(cmd)
    }

    fn redirect_target(&mut self) -> (r: Result<Vec<Part>, ParseError>)
        requires
            old(self).wf(),
        ensures
            final(self).tokens == old(self).tokens,
            final(self).wf(),
            match target_at(old(self).view(), old(self).pos as int) {
                Ok(target) => {
                    &&& r matches Ok(parts)
                    &&& part_views(parts@) == target
                    &&& final(self).pos == old(self).pos + 1
                },
                Err(e) => r == Err::<Vec<Part>, ParseError>(e),
            },
    {
        if let Some(Token::Word(parts)) = self.peek() {
            let target = clone_parts(parts.as_slice());
            self.skip();
            Ok(target)
        } else {
            Err(ParseError::MissingRedirectTarget)
        }
    }
}

/// A chain, all of it run in the background.
fn detach(chain: AndOr) -> (r: AndOr)
    ensures
        r@.first == detached(chain@.first),
        r@.rest == detached_links(chain@.rest),
{
    let mut rest: Vec<(Connector, Pipeline)> = Vec::new();
    let mut i: usize = 0;
    while i < chain.rest.len()
        invariant
            i <= chain.rest@.len(),
            rest@.len() == i,
            forall|k: int|
                0 <= k < i ==> (#[trigger] rest@[k]).0 == chain.rest@[k].0 && rest@[k].1@
                    == detached(chain.rest@[k].1@),
        decreases chain.rest.len() - i,
    {
        let mut pipeline = chain.rest[i].1.clone();
        pipeline.background = true;
        rest.push((chain.rest[i].0, pipeline));
        i += 1;
    }
    let mut first = chain.first.clone();
    first.background = true;
    let r = AndOr { first, rest };
    proof {
        assert(r@.rest =~= detached_links(chain@.rest));
    }
    r
}

/// Parse a command line.
pub fn parse(input: &str) -> (r: Result<Script, ParseError>)
    ensures
        match parsed(input@) {
            Ok(script) => r matches Ok(out) && out@ == script,
            Err(e) => r == Err::<Script, ParseError>(e),
        },
{
    match lex(input) {
        Err(e) => Err(e),
        Ok(tokens) => {
            let mut parser = Parser { tokens, pos: 0 };
            parser.script()
        },
    }
}

// ---------------------------------------------------------------------------
// Laws.

impl CommandView {
    /// A command has a word or a redirect.
    pub open spec fn wf(self) -> bool {
        self.argv.len() > 0 || self.redirects.len() > 0
    }
}

impl PipelineView {
    /// A pipeline has a command.
    pub open spec fn wf(self) -> bool {
        &&& self.cmds.len() > 0
        &&& forall|k: int| 0 <= k < self.cmds.len() ==> (#[trigger] self.cmds[k]).wf()
    }
}

impl AndOrView {
    /// The pipelines of a chain are well formed, and either all of them run
    /// in the background or none does.
    pub open spec fn wf(self) -> bool {
        &&& self.first.wf()
        &&& forall|k: int|
            0 <= k < self.rest.len() ==> (#[trigger] self.rest[k]).1.wf()
                && self.rest[k].1.background == self.first.background
    }
}

impl ScriptView {
    pub open spec fn wf(self) -> bool {
        forall|k: int| 0 <= k < self.seq.len() ==> (#[trigger] self.seq[k]).wf()
    }
}

/// What the parser accepts is well formed: no pipeline is empty, no command
/// is without words and redirects, and `&` sends a whole chain to the
/// background.
pub proof fn law_parsed_is_well_formed(line: Seq<char>)
    ensures
        parsed(line) matches Ok(script) ==> script.wf(),
{
    if let Ok(tokens) = lexed(line) {
        lemma_script_wf(bare_tokens(tokens), 0, Seq::empty());
    }
}

proof fn lemma_pipeline_more_wf(t: Seq<TokenView>, i: int, cmds: Seq<CommandView>)
    requires
        0 <= i <= t.len(),
        cmds.len() > 0,
        forall|k: int| 0 <= k < cmds.len() ==> (#[trigger] cmds[k]).wf(),
    ensures
        pipeline_more(t, i, cmds) matches Ok((out, _)) ==> out.len() > 0 && forall|k: int|
            0 <= k < out.len() ==> (#[trigger] out[k]).wf(),
    decreases t.len() - i,
{
    if i < t.len() && t[i] is Pipe {
        lemma_command_at(t, i + 1);
        if let Ok((cmd, end)) = command_at(t, i + 1) {
            lemma_pipeline_more_wf(t, end, cmds.push(cmd));
        }
    }
}

proof fn lemma_pipeline_wf(t: Seq<TokenView>, i: int)
    requires
        0 <= i <= t.len(),
    ensures
        pipeline_at(t, i) matches Ok((p, _)) ==> p.wf() && !p.background,
{
    lemma_command_at(t, i);
    if let Ok((cmd, end)) = command_at(t, i) {
        lemma_pipeline_more_wf(t, end, seq![cmd]);
    }
}

proof fn lemma_and_or_more_wf(t: Seq<TokenView>, i: int, rest: Seq<(Connector, PipelineView)>)
    requires
        0 <= i <= t.len(),
        forall|k: int|
            0 <= k < rest.len() ==> (#[trigger] rest[k]).1.wf() && !rest[k].1.background,
    ensures
        and_or_more(t, i, rest) matches Ok((out, _)) ==> forall|k: int|
            0 <= k < out.len() ==> (#[trigger] out[k]).1.wf() && !out[k].1.background,
    decreases t.len() - i,
{
    if let Some(connector) = connector_at(t, i) {
        lemma_pipeline_at(t, i + 1);
        lemma_pipeline_wf(t, i + 1);
        if let Ok((pipeline, end)) = pipeline_at(t, i + 1) {
            lemma_and_or_more_wf(t, end, rest.push((connector, pipeline)));
        }
    }
}

proof fn lemma_script_wf(t: Seq<TokenView>, i: int, done: Seq<AndOrView>)
    requires
        0 <= i <= t.len(),
        forall|k: int| 0 <= k < done.len() ==> (#[trigger] done[k]).wf(),
    ensures
        script_from(t, i, done) matches Ok(script) ==> script.wf(),
    decreases t.len() - i,
{
    if i < t.len() {
        if t[i] is Semi {
            lemma_script_wf(t, i + 1, done);
        } else if !(t[i] is Amp) {
            lemma_item_at(t, i);
            lemma_pipeline_at(t, i);
            lemma_pipeline_wf(t, i);
            if let Ok((first, end)) = pipeline_at(t, i) {
                lemma_and_or_more_wf(t, end, Seq::empty());
            }
            if let Ok((chain, end)) = item_at(t, i) {
                if let Ok((plain, _)) = and_or_at(t, i) {
                    if chain != plain {
                        assert forall|k: int| 0 <= k < chain.rest.len() implies (
                        #[trigger] chain.rest[k]).1.wf() && chain.rest[k].1.background
                            == chain.first.background by {
                            assert(plain.rest[k].1.wf());
                        }
                    }
                }
                lemma_script_wf(t, end, done.push(chain));
            }
        }
    }
}

/// `u` goes on after `t` with a `;`.
pub open spec fn goes_on(t: Seq<TokenView>, u: Seq<TokenView>) -> bool {
    &&& t.len() < u.len()
    &&& forall|k: int| 0 <= k < t.len() ==> #[trigger] u[k] == t[k]
    &&& u[t.len() as int] is Semi
}

/// A trailing `;` changes nothing: the line means what it means without it,
/// errors included.
pub proof fn law_trailing_semicolon(t: Seq<TokenView>)
    ensures
        parsed_tokens(t.push(TokenView::Semi)) == parsed_tokens(t),
{
    lemma_semi_script(t, t.push(TokenView::Semi), 0, Seq::empty());
}

proof fn lemma_semi_items(t: Seq<TokenView>, u: Seq<TokenView>, i: int, cmd: CommandView)
    requires
        0 <= i <= t.len(),
        goes_on(t, u),
    ensures
        command_items(u, i, cmd) == command_items(t, i, cmd),
    decreases t.len() - i,
{
    if i < t.len() {
        assert(target_at(u, i + 1) == target_at(t, i + 1)) by {
            if i + 1 < t.len() {
                assert(u[i + 1] == t[i + 1]);
            }
        }
        assert(u[i] == t[i]);
        match t[i] {
            TokenView::Word(parts) => lemma_semi_items(
                t,
                u,
                i + 1,
                CommandView { argv: cmd.argv.push(parts), ..cmd },
            ),
            TokenView::Out { append } => if let Ok(target) = target_at(t, i + 1) {
                lemma_semi_items(
                    t,
                    u,
                    i + 2,
                    CommandView {
                        redirects: cmd.redirects.push(RedirectView::Out { target, append }),
                        ..cmd
                    },
                );
            },
            TokenView::ErrOut { append } => if let Ok(target) = target_at(t, i + 1) {
                lemma_semi_items(
                    t,
                    u,
                    i + 2,
                    CommandView {
                        redirects: cmd.redirects.push(RedirectView::ErrOut { target, append }),
                        ..cmd
                    },
                );
            },
            TokenView::In => if let Ok(target) = target_at(t, i + 1) {
                lemma_semi_items(
                    t,
                    u,
                    i + 2,
                    CommandView { redirects: cmd.redirects.push(RedirectView::In(target)), ..cmd },
                );
            },
            _ => {},
        }
    }
}

proof fn lemma_semi_pipeline_more(
    t: Seq<TokenView>,
    u: Seq<TokenView>,
    i: int,
    cmds: Seq<CommandView>,
)
    requires
        0 <= i <= t.len(),
        goes_on(t, u),
    ensures
        pipeline_more(u, i, cmds) == pipeline_more(t, i, cmds),
    decreases t.len() - i,
{
    if i < t.len() {
        assert(u[i] == t[i]);
    }
    if i < t.len() && t[i] is Pipe {
        lemma_semi_items(t, u, i + 1, no_command());
        lemma_command_at(t, i + 1);
        if let Ok((cmd, end)) = command_at(t, i + 1) {
            lemma_semi_pipeline_more(t, u, end, cmds.push(cmd));
        }
    }
}

proof fn lemma_semi_pipeline(t: Seq<TokenView>, u: Seq<TokenView>, i: int)
    requires
        0 <= i <= t.len(),
        goes_on(t, u),
    ensures
        pipeline_at(u, i) == pipeline_at(t, i),
{
    lemma_semi_items(t, u, i, no_command());
    lemma_command_at(t, i);
    if let Ok((cmd, end)) = command_at(t, i) {
        lemma_semi_pipeline_more(t, u, end, seq![cmd]);
    }
}

proof fn lemma_semi_and_or_more(
    t: Seq<TokenView>,
    u: Seq<TokenView>,
    i: int,
    rest: Seq<(Connector, PipelineView)>,
)
    requires
        0 <= i <= t.len(),
        goes_on(t, u),
    ensures
        and_or_more(u, i, rest) == and_or_more(t, i, rest),
    decreases t.len() - i,
{
    assert(connector_at(u, i) == connector_at(t, i)) by {
        if i < t.len() {
            assert(u[i] == t[i]);
        }
    }
    if let Some(connector) = connector_at(t, i) {
        lemma_semi_pipeline(t, u, i + 1);
        lemma_pipeline_at(t, i + 1);
        if let Ok((pipeline, end)) = pipeline_at(t, i + 1) {
            lemma_semi_and_or_more(t, u, end, rest.push((connector, pipeline)));
        }
    }
}

/// What stands before the `;` is read as it is on its own; then what follows
/// it is read.
pub proof fn lemma_semi_script(
    t: Seq<TokenView>,
    u: Seq<TokenView>,
    i: int,
    done: Seq<AndOrView>,
)
    requires
        0 <= i <= t.len(),
        goes_on(t, u),
    ensures
        script_from(u, i, done) == match script_from(t, i, done) {
            Ok(script) => script_from(u, t.len() as int + 1, script.seq),
            Err(e) => Err(e),
        },
    decreases t.len() - i,
{
    if i < t.len() {
        assert(u[i] == t[i]);
    }
    if i == t.len() {
        assert(u[i] is Semi);
    } else if t[i] is Semi {
        lemma_semi_script(t, u, i + 1, done);
    } else if !(t[i] is Amp) {
        lemma_semi_pipeline(t, u, i);
        lemma_pipeline_at(t, i);
        if let Ok((_, end)) = pipeline_at(t, i) {
            lemma_semi_and_or_more(t, u, end, Seq::empty());
        }
        lemma_item_at(t, i);
        lemma_item_at(u, i);
        if let Ok((chain, end)) = and_or_at(t, i) {
            if end < t.len() {
                assert(u[end] == t[end]);
                if end + 1 < t.len() {
                    assert(u[end + 1] == t[end + 1]);
                }
            }
        }
        if let Ok((chain, end)) = item_at(t, i) {
            lemma_semi_script(t, u, end, done.push(chain));
        }
    }
}

} // verus!
