//! What a script holds of its line: every token but `;` is in it, in the order
//! in which it was read.

use vstd::prelude::*;

use crate::lexer::{bare_tokens, lexed, PartView, TokenView};
use crate::parser::{
    and_or_more, command_at, command_items, connector_at, detached_links, item_at,
    lemma_command_at, lemma_command_items, lemma_item_at, lemma_pipeline_at, no_command, parsed,
    pipeline_at, pipeline_more, script_from, target_at, AndOrView, CommandView, Connector,
    PipelineView, RedirectView,
};

verus! {

/// What is followed from a line into its script.
#[derive(Clone, Copy, PartialEq, Eq, Structural)]
pub enum Thread {
    /// The words that are arguments.
    Arguments,
    /// Redirect operators with the words that they take.
    Redirects,
    /// Redirect operators.
    RedirectOperators,
    /// `|`.
    Pipes,
    /// `&&` and `||`.
    Connectors,
    /// `&`.
    Amps,
}

/// One thing on a thread.
pub enum Bead {
    Argument(Seq<PartView>),
    Redirect(RedirectView),
    Operator(TokenView),
}

/// `>`, `>>`, `2>`, `2>>` or `<`.
pub open spec fn is_redirect(token: TokenView) -> bool {
    token is Out || token is ErrOut || token is In
}

/// The redirect that an operator and its word make.
pub open spec fn redirect_of(op: TokenView, target: Seq<PartView>) -> RedirectView {
    match op {
        TokenView::Out { append } => RedirectView::Out { target, append },
        TokenView::ErrOut { append } => RedirectView::ErrOut { target, append },
        _ => RedirectView::In(target),
    }
}

/// The operator of a redirect.
pub open spec fn operator_of(redirect: RedirectView) -> TokenView {
    match redirect {
        RedirectView::Out { append, .. } => TokenView::Out { append },
        RedirectView::ErrOut { append, .. } => TokenView::ErrOut { append },
        RedirectView::In(_) => TokenView::In,
    }
}

/// The operator of a connector.
pub open spec fn connector_token(connector: Connector) -> TokenView {
    match connector {
        Connector::And => TokenView::And,
        Connector::Or => TokenView::Or,
    }
}

/// A redirect operator stands before the token at `k`.
pub open spec fn behind_redirect(t: Seq<TokenView>, k: int) -> bool {
    0 < k <= t.len() && is_redirect(t[k - 1])
}

/// What the token at `k` puts on a thread.
pub open spec fn bead_at(t: Seq<TokenView>, k: int, thread: Thread) -> Seq<Bead> {
    match thread {
        Thread::Arguments => if t[k] is Word && !behind_redirect(t, k) {
            seq![Bead::Argument(t[k]->Word_0)]
        } else {
            Seq::empty()
        },
        Thread::Redirects => if t[k] is Word && behind_redirect(t, k) {
            seq![Bead::Redirect(redirect_of(t[k - 1], t[k]->Word_0))]
        } else {
            Seq::empty()
        },
        Thread::RedirectOperators => if is_redirect(t[k]) {
            seq![Bead::Operator(t[k])]
        } else {
            Seq::empty()
        },
        Thread::Pipes => if t[k] is Pipe {
            seq![Bead::Operator(t[k])]
        } else {
            Seq::empty()
        },
        Thread::Connectors => if t[k] is And || t[k] is Or {
            seq![Bead::Operator(t[k])]
        } else {
            Seq::empty()
        },
        Thread::Amps => if t[k] is Amp {
            seq![Bead::Operator(t[k])]
        } else {
            Seq::empty()
        },
    }
}

/// What the tokens from `i` to `j` put on a thread.
pub open spec fn beads(t: Seq<TokenView>, i: int, j: int, thread: Thread) -> Seq<Bead>
    decreases j - i,
{
    if i >= j {
        Seq::empty()
    } else {
        beads(t, i, j - 1, thread) + bead_at(t, j - 1, thread)
    }
}

/// What a command puts on a thread.
pub open spec fn command_beads(cmd: CommandView, thread: Thread) -> Seq<Bead> {
    match thread {
        Thread::Arguments => Seq::new(cmd.argv.len(), |k: int| Bead::Argument(cmd.argv[k])),
        Thread::Redirects => Seq::new(
            cmd.redirects.len(),
            |k: int| Bead::Redirect(cmd.redirects[k]),
        ),
        Thread::RedirectOperators => Seq::new(
            cmd.redirects.len(),
            |k: int| Bead::Operator(operator_of(cmd.redirects[k])),
        ),
        _ => Seq::empty(),
    }
}

/// `token` on its own thread.
pub open spec fn operator_bead(token: TokenView, own: Thread, thread: Thread) -> Seq<Bead> {
    if thread == own {
        seq![Bead::Operator(token)]
    } else {
        Seq::empty()
    }
}

/// What commands with `|` between them put on a thread.
pub open spec fn commands_beads(cmds: Seq<CommandView>, thread: Thread) -> Seq<Bead>
    decreases cmds.len(),
{
    if cmds.len() == 0 {
        Seq::empty()
    } else if cmds.len() == 1 {
        command_beads(cmds[0], thread)
    } else {
        commands_beads(cmds.drop_last(), thread) + operator_bead(
            TokenView::Pipe,
            Thread::Pipes,
            thread,
        ) + command_beads(cmds.last(), thread)
    }
}

/// What the links of a chain put on a thread.
pub open spec fn links_beads(rest: Seq<(Connector, PipelineView)>, thread: Thread) -> Seq<Bead>
    decreases rest.len(),
{
    if rest.len() == 0 {
        Seq::empty()
    } else {
        links_beads(rest.drop_last(), thread) + operator_bead(
            connector_token(rest.last().0),
            Thread::Connectors,
            thread,
        ) + commands_beads(rest.last().1.cmds, thread)
    }
}

/// What a chain puts on a thread.
pub open spec fn chain_beads(chain: AndOrView, thread: Thread) -> Seq<Bead> {
    commands_beads(chain.first.cmds, thread) + links_beads(chain.rest, thread) + if chain.first.background {
        operator_bead(TokenView::Amp, Thread::Amps, thread)
    } else {
        Seq::empty()
    }
}

/// What chains put on a thread.
pub open spec fn chains_beads(chains: Seq<AndOrView>, thread: Thread) -> Seq<Bead>
    decreases chains.len(),
{
    if chains.len() == 0 {
        Seq::empty()
    } else {
        chains_beads(chains.drop_last(), thread) + chain_beads(chains.last(), thread)
    }
}

// ---------------------------------------------------------------------------
// Proofs.

proof fn lemma_beads_split(t: Seq<TokenView>, i: int, m: int, j: int, thread: Thread)
    requires
        i <= m <= j,
    ensures
        beads(t, i, j, thread) == beads(t, i, m, thread) + beads(t, m, j, thread),
    decreases j - m,
{
    if m == j {
        assert(beads(t, i, m, thread) + beads(t, m, j, thread) =~= beads(t, i, m, thread));
    } else {
        lemma_beads_split(t, i, m, j - 1, thread);
        assert(beads(t, i, m, thread) + (beads(t, m, j - 1, thread) + bead_at(t, j - 1, thread))
            =~= (beads(t, i, m, thread) + beads(t, m, j - 1, thread)) + bead_at(t, j - 1, thread));
    }
}

proof fn lemma_bead_one(t: Seq<TokenView>, i: int, thread: Thread)
    ensures
        beads(t, i, i + 1, thread) == bead_at(t, i, thread),
{
    assert(beads(t, i, i, thread) =~= Seq::<Bead>::empty());
    assert(beads(t, i, i + 1, thread) =~= bead_at(t, i, thread));
}

proof fn lemma_beads_step(t: Seq<TokenView>, i: int, j: int, thread: Thread)
    requires
        i < j,
    ensures
        beads(t, i, j, thread) == bead_at(t, i, thread) + beads(t, i + 1, j, thread),
{
    lemma_beads_split(t, i, i + 1, j, thread);
    lemma_bead_one(t, i, thread);
}

/// A word that is an argument.
proof fn lemma_argument(t: Seq<TokenView>, i: int, cmd: CommandView, thread: Thread)
    requires
        0 <= i < t.len(),
        t[i] is Word,
        !behind_redirect(t, i),
    ensures
        command_beads(CommandView { argv: cmd.argv.push(t[i]->Word_0), ..cmd }, thread)
            == command_beads(cmd, thread) + bead_at(t, i, thread),
{
    let next = CommandView { argv: cmd.argv.push(t[i]->Word_0), ..cmd };
    assert(command_beads(next, thread) =~= command_beads(cmd, thread) + bead_at(t, i, thread));
}

/// A redirect operator and its word.
proof fn lemma_redirect(t: Seq<TokenView>, i: int, cmd: CommandView, thread: Thread)
    requires
        0 <= i,
        i + 1 < t.len(),
        is_redirect(t[i]),
        t[i + 1] is Word,
    ensures
        command_beads(
            CommandView {
                redirects: cmd.redirects.push(redirect_of(t[i], t[i + 1]->Word_0)),
                ..cmd
            },
            thread,
        ) == command_beads(cmd, thread) + (bead_at(t, i, thread) + bead_at(t, i + 1, thread)),
{
    let redirect = redirect_of(t[i], t[i + 1]->Word_0);
    let next = CommandView { redirects: cmd.redirects.push(redirect), ..cmd };
    assert(operator_of(redirect) == t[i]);
    assert(behind_redirect(t, i + 1));
    assert(command_beads(next, thread) =~= command_beads(cmd, thread) + (bead_at(t, i, thread)
        + bead_at(t, i + 1, thread)));
}

proof fn lemma_items_beads(t: Seq<TokenView>, i: int, cmd: CommandView, thread: Thread)
    requires
        0 <= i <= t.len(),
        !behind_redirect(t, i),
    ensures
        command_items(t, i, cmd) matches Ok((out, end)) ==> {
            &&& i <= end <= t.len()
            &&& !behind_redirect(t, end)
            &&& command_beads(out, thread) == command_beads(cmd, thread) + beads(
                t,
                i,
                end,
                thread,
            )
        },
    decreases t.len() - i,
{
    lemma_command_items(t, i, cmd);
    let here = command_beads(cmd, thread);
    if i < t.len() && t[i] is Word {
        let next = CommandView { argv: cmd.argv.push(t[i]->Word_0), ..cmd };
        lemma_argument(t, i, cmd, thread);
        lemma_items_beads(t, i + 1, next, thread);
        lemma_command_items(t, i + 1, next);
        if let Ok((out, end)) = command_items(t, i + 1, next) {
            lemma_beads_step(t, i, end, thread);
            assert(here + bead_at(t, i, thread) + beads(t, i + 1, end, thread) =~= here + (bead_at(
                t,
                i,
                thread,
            ) + beads(t, i + 1, end, thread)));
        }
    } else if i < t.len() && is_redirect(t[i]) {
        if let Ok(target) = target_at(t, i + 1) {
            let next = CommandView {
                redirects: cmd.redirects.push(redirect_of(t[i], target)),
                ..cmd
            };
            lemma_redirect(t, i, cmd, thread);
            lemma_items_beads(t, i + 2, next, thread);
            lemma_command_items(t, i + 2, next);
            if let Ok((out, end)) = command_items(t, i + 2, next) {
                lemma_beads_step(t, i, end, thread);
                lemma_beads_step(t, i + 1, end, thread);
                let a = bead_at(t, i, thread);
                let b = bead_at(t, i + 1, thread);
                let rest = beads(t, i + 2, end, thread);
                assert(here + (a + b) + rest =~= here + (a + (b + rest)));
            }
        }
    } else {
        assert(here + Seq::<Bead>::empty() =~= here);
    }
}

proof fn lemma_command_beads(t: Seq<TokenView>, i: int, thread: Thread)
    requires
        0 <= i <= t.len(),
        !behind_redirect(t, i),
    ensures
        command_at(t, i) matches Ok((cmd, end)) ==> {
            &&& i < end <= t.len()
            &&& !behind_redirect(t, end)
            &&& command_beads(cmd, thread) == beads(t, i, end, thread)
        },
{
    lemma_command_at(t, i);
    lemma_items_beads(t, i, no_command(), thread);
    let none = command_beads(no_command(), thread);
    assert(none =~= Seq::<Bead>::empty());
    if let Ok((_, end)) = command_at(t, i) {
        assert(none + beads(t, i, end, thread) =~= beads(t, i, end, thread));
    }
}

proof fn lemma_pipeline_more_beads(
    t: Seq<TokenView>,
    i: int,
    cmds: Seq<CommandView>,
    thread: Thread,
)
    requires
        0 <= i <= t.len(),
        !behind_redirect(t, i),
        cmds.len() > 0,
    ensures
        pipeline_more(t, i, cmds) matches Ok((out, end)) ==> {
            &&& i <= end <= t.len()
            &&& !behind_redirect(t, end)
            &&& commands_beads(out, thread) == commands_beads(cmds, thread) + beads(
                t,
                i,
                end,
                thread,
            )
        },
    decreases t.len() - i,
{
    let here = commands_beads(cmds, thread);
    if i < t.len() && t[i] is Pipe {
        assert(!behind_redirect(t, i + 1));
        lemma_command_beads(t, i + 1, thread);
        if let Ok((cmd, mid)) = command_at(t, i + 1) {
            let next = cmds.push(cmd);
            lemma_pipeline_more_beads(t, mid, next, thread);
            assert(next.drop_last() =~= cmds);
            let pipe = operator_bead(TokenView::Pipe, Thread::Pipes, thread);
            assert(pipe =~= bead_at(t, i, thread));
            if let Ok((out, end)) = pipeline_more(t, mid, next) {
                lemma_beads_split(t, i, mid, end, thread);
                lemma_beads_step(t, i, mid, thread);
                let a = beads(t, i + 1, mid, thread);
                let b = beads(t, mid, end, thread);
                assert(here + pipe + a + b =~= here + (pipe + a + b));
            }
        }
    } else {
        assert(here + Seq::<Bead>::empty() =~= here);
    }
}

proof fn lemma_pipeline_beads(t: Seq<TokenView>, i: int, thread: Thread)
    requires
        0 <= i <= t.len(),
        !behind_redirect(t, i),
    ensures
        pipeline_at(t, i) matches Ok((p, end)) ==> {
            &&& i < end <= t.len()
            &&& !behind_redirect(t, end)
            &&& !p.background
            &&& commands_beads(p.cmds, thread) == beads(t, i, end, thread)
        },
{
    lemma_pipeline_at(t, i);
    lemma_command_beads(t, i, thread);
    if let Ok((cmd, mid)) = command_at(t, i) {
        lemma_pipeline_more_beads(t, mid, seq![cmd], thread);
        if let Ok((_, end)) = pipeline_more(t, mid, seq![cmd]) {
            lemma_beads_split(t, i, mid, end, thread);
        }
    }
}

proof fn lemma_and_or_more_beads(
    t: Seq<TokenView>,
    i: int,
    rest: Seq<(Connector, PipelineView)>,
    thread: Thread,
)
    requires
        0 <= i <= t.len(),
        !behind_redirect(t, i),
    ensures
        and_or_more(t, i, rest) matches Ok((out, end)) ==> {
            &&& i <= end <= t.len()
            &&& !behind_redirect(t, end)
            &&& links_beads(out, thread) == links_beads(rest, thread) + beads(t, i, end, thread)
        },
    decreases t.len() - i,
{
    let here = links_beads(rest, thread);
    match connector_at(t, i) {
        Some(connector) => {
            assert(!behind_redirect(t, i + 1));
            lemma_pipeline_beads(t, i + 1, thread);
            if let Ok((pipeline, mid)) = pipeline_at(t, i + 1) {
                let next = rest.push((connector, pipeline));
                lemma_and_or_more_beads(t, mid, next, thread);
                assert(next.drop_last() =~= rest);
                let link = operator_bead(connector_token(connector), Thread::Connectors, thread);
                assert(link =~= bead_at(t, i, thread));
                if let Ok((out, end)) = and_or_more(t, mid, next) {
                    lemma_beads_split(t, i, mid, end, thread);
                    lemma_beads_step(t, i, mid, thread);
                    let a = beads(t, i + 1, mid, thread);
                    let b = beads(t, mid, end, thread);
                    assert(here + link + a + b =~= here + (link + a + b));
                }
            }
        },
        None => {
            assert(here + Seq::<Bead>::empty() =~= here);
        },
    }
}

proof fn lemma_detached_links(rest: Seq<(Connector, PipelineView)>, thread: Thread)
    ensures
        links_beads(detached_links(rest), thread) == links_beads(rest, thread),
    decreases rest.len(),
{
    if rest.len() > 0 {
        lemma_detached_links(rest.drop_last(), thread);
        assert(detached_links(rest).drop_last() =~= detached_links(rest.drop_last()));
    } else {
        assert(detached_links(rest) =~= rest);
    }
}

proof fn lemma_item_beads(t: Seq<TokenView>, i: int, thread: Thread)
    requires
        0 <= i <= t.len(),
        !behind_redirect(t, i),
    ensures
        item_at(t, i) matches Ok((chain, end)) ==> {
            &&& i < end <= t.len()
            &&& !behind_redirect(t, end)
            &&& chain_beads(chain, thread) == beads(t, i, end, thread)
        },
{
    lemma_item_at(t, i);
    lemma_pipeline_beads(t, i, thread);
    if let Ok((first, mid)) = pipeline_at(t, i) {
        let none = Seq::<(Connector, PipelineView)>::empty();
        lemma_and_or_more_beads(t, mid, none, thread);
        if let Ok((rest, end)) = and_or_more(t, mid, none) {
            lemma_beads_split(t, i, mid, end, thread);
            lemma_detached_links(rest, thread);
            let a = commands_beads(first.cmds, thread);
            let b = links_beads(rest, thread);
            let empty = Seq::<Bead>::empty();
            assert(empty + beads(t, mid, end, thread) =~= beads(t, mid, end, thread));
            if end < t.len() && t[end] is Amp {
                lemma_beads_split(t, i, end, end + 1, thread);
                lemma_bead_one(t, end, thread);
                assert(operator_bead(TokenView::Amp, Thread::Amps, thread) =~= bead_at(
                    t,
                    end,
                    thread,
                ));
            } else {
                assert(a + b + empty =~= a + b);
            }
        }
    }
}

proof fn lemma_script_beads(t: Seq<TokenView>, i: int, done: Seq<AndOrView>, thread: Thread)
    requires
        0 <= i <= t.len(),
        !behind_redirect(t, i),
    ensures
        script_from(t, i, done) matches Ok(script) ==> chains_beads(script.seq, thread)
            == chains_beads(done, thread) + beads(t, i, t.len() as int, thread),
    decreases t.len() - i,
{
    let n = t.len() as int;
    let here = chains_beads(done, thread);
    if i == n {
        assert(here + Seq::<Bead>::empty() =~= here);
    } else if t[i] is Semi {
        assert(!behind_redirect(t, i + 1));
        lemma_script_beads(t, i + 1, done, thread);
        lemma_beads_step(t, i, n, thread);
        assert(bead_at(t, i, thread) =~= Seq::<Bead>::empty());
        assert(bead_at(t, i, thread) + beads(t, i + 1, n, thread) =~= beads(t, i + 1, n, thread));
    } else if !(t[i] is Amp) {
        lemma_item_beads(t, i, thread);
        if let Ok((chain, end)) = item_at(t, i) {
            let next = done.push(chain);
            lemma_script_beads(t, end, next, thread);
            assert(next.drop_last() =~= done);
            lemma_beads_split(t, i, end, n, thread);
            let a = beads(t, i, end, thread);
            let b = beads(t, end, n, thread);
            assert(here + a + b =~= here + (a + b));
        }
    }
}

// ---------------------------------------------------------------------------
// Laws.

/// The tokens of a line.
pub open spec fn line_tokens(line: Seq<char>) -> Seq<TokenView> {
    match lexed(line) {
        Ok(tokens) => bare_tokens(tokens),
        Err(_) => Seq::empty(),
    }
}

/// No token is lost between lexing and parsing: the arguments, the redirects
/// with their targets, and the operators of a script are those of its line, in
/// the same order.
pub proof fn law_no_token_is_lost(line: Seq<char>, thread: Thread)
    ensures
        parsed(line) matches Ok(script) ==> chains_beads(script.seq, thread) == beads(
            line_tokens(line),
            0,
            line_tokens(line).len() as int,
            thread,
        ),
{
    if let Ok(script) = parsed(line) {
        let t = line_tokens(line);
        lemma_script_beads(t, 0, Seq::empty(), thread);
        let all = beads(t, 0, t.len() as int, thread);
        assert(Seq::<Bead>::empty() + all =~= all);
    }
}

/// How many of the first `j` tokens are words.
pub open spec fn words_upto(t: Seq<TokenView>, j: int) -> int
    decreases j,
{
    if j <= 0 {
        0
    } else {
        words_upto(t, j - 1) + if t[j - 1] is Word {
            1int
        } else {
            0
        }
    }
}

/// How many of the first `j` tokens are on a thread of operators.
pub open spec fn operators_upto(t: Seq<TokenView>, j: int, thread: Thread) -> int
    decreases j,
{
    if j <= 0 {
        0
    } else {
        let token = t[j - 1];
        operators_upto(t, j - 1, thread) + if match thread {
            Thread::RedirectOperators => is_redirect(token),
            Thread::Pipes => token is Pipe,
            Thread::Connectors => token is And || token is Or,
            Thread::Amps => token is Amp,
            _ => false,
        } {
            1int
        } else {
            0
        }
    }
}

proof fn lemma_word_counts(t: Seq<TokenView>, j: int)
    requires
        0 <= j <= t.len(),
    ensures
        words_upto(t, j) == beads(t, 0, j, Thread::Arguments).len() + beads(
            t,
            0,
            j,
            Thread::Redirects,
        ).len(),
    decreases j,
{
    if j > 0 {
        lemma_word_counts(t, j - 1);
    }
}

proof fn lemma_operator_counts(t: Seq<TokenView>, j: int, thread: Thread)
    requires
        0 <= j <= t.len(),
        !(thread is Arguments) && !(thread is Redirects),
    ensures
        operators_upto(t, j, thread) == beads(t, 0, j, thread).len(),
    decreases j,
{
    if j > 0 {
        lemma_operator_counts(t, j - 1, thread);
    }
}

/// How many arguments, redirects, `|`, connectors and `&` some commands,
/// pipelines or chains have.
pub struct Counts {
    pub arguments: int,
    pub redirects: int,
    pub pipes: int,
    pub connectors: int,
    pub background: int,
}

/// The sum of two counts.
pub open spec fn sum(a: Counts, b: Counts) -> Counts {
    Counts {
        arguments: a.arguments + b.arguments,
        redirects: a.redirects + b.redirects,
        pipes: a.pipes + b.pipes,
        connectors: a.connectors + b.connectors,
        background: a.background + b.background,
    }
}

/// Nothing counted.
pub open spec fn no_counts() -> Counts {
    Counts { arguments: 0, redirects: 0, pipes: 0, connectors: 0, background: 0 }
}

/// The arguments and redirects of commands.
pub open spec fn commands_counts(cmds: Seq<CommandView>) -> Counts
    decreases cmds.len(),
{
    if cmds.len() == 0 {
        no_counts()
    } else {
        sum(
            commands_counts(cmds.drop_last()),
            Counts {
                arguments: cmds.last().argv.len() as int,
                redirects: cmds.last().redirects.len() as int,
                ..no_counts()
            },
        )
    }
}

/// The counts of a pipeline: one `|` fewer than it has commands.
pub open spec fn pipeline_counts(p: PipelineView) -> Counts {
    Counts { pipes: p.cmds.len() - 1, ..commands_counts(p.cmds) }
}

/// The counts of the pipelines behind connectors.
pub open spec fn links_counts(rest: Seq<(Connector, PipelineView)>) -> Counts
    decreases rest.len(),
{
    if rest.len() == 0 {
        no_counts()
    } else {
        sum(links_counts(rest.drop_last()), pipeline_counts(rest.last().1))
    }
}

/// The counts of a chain.
pub open spec fn chain_counts(chain: AndOrView) -> Counts {
    let all = sum(pipeline_counts(chain.first), links_counts(chain.rest));
    Counts {
        connectors: chain.rest.len() as int,
        background: if chain.first.background {
            1
        } else {
            0
        },
        ..all
    }
}

/// The counts of chains.
pub open spec fn chains_counts(chains: Seq<AndOrView>) -> Counts
    decreases chains.len(),
{
    if chains.len() == 0 {
        no_counts()
    } else {
        sum(chains_counts(chains.drop_last()), chain_counts(chains.last()))
    }
}

proof fn lemma_commands_counted(cmds: Seq<CommandView>)
    ensures
        commands_beads(cmds, Thread::Arguments).len() == commands_counts(cmds).arguments,
        commands_beads(cmds, Thread::Redirects).len() == commands_counts(cmds).redirects,
        commands_beads(cmds, Thread::RedirectOperators).len() == commands_counts(cmds).redirects,
        cmds.len() > 0 ==> commands_beads(cmds, Thread::Pipes).len() == cmds.len() - 1,
        commands_beads(cmds, Thread::Connectors).len() == 0,
        commands_beads(cmds, Thread::Amps).len() == 0,
        commands_counts(cmds).pipes == 0,
        commands_counts(cmds).connectors == 0,
        commands_counts(cmds).background == 0,
    decreases cmds.len(),
{
    if cmds.len() > 0 {
        lemma_commands_counted(cmds.drop_last());
        if cmds.len() == 1 {
            assert(cmds.drop_last() =~= Seq::<CommandView>::empty());
        }
    }
}

proof fn lemma_links_counted(rest: Seq<(Connector, PipelineView)>)
    requires
        forall|k: int| 0 <= k < rest.len() ==> (#[trigger] rest[k]).1.cmds.len() > 0,
    ensures
        links_beads(rest, Thread::Arguments).len() == links_counts(rest).arguments,
        links_beads(rest, Thread::Redirects).len() == links_counts(rest).redirects,
        links_beads(rest, Thread::RedirectOperators).len() == links_counts(rest).redirects,
        links_beads(rest, Thread::Pipes).len() == links_counts(rest).pipes,
        links_beads(rest, Thread::Connectors).len() == rest.len(),
        links_beads(rest, Thread::Amps).len() == 0,
    decreases rest.len(),
{
    if rest.len() > 0 {
        let head = rest.drop_last();
        assert forall|k: int| 0 <= k < head.len() implies (#[trigger] head[k]).1.cmds.len()
            > 0 by {
            assert(rest[k].1.cmds.len() > 0);
        }
        lemma_links_counted(head);
        assert(rest[rest.len() - 1].1.cmds.len() > 0);
        lemma_commands_counted(rest.last().1.cmds);
    }
}

proof fn lemma_chains_counted(chains: Seq<AndOrView>)
    requires
        forall|k: int| 0 <= k < chains.len() ==> (#[trigger] chains[k]).wf(),
    ensures
        chains_beads(chains, Thread::Arguments).len() == chains_counts(chains).arguments,
        chains_beads(chains, Thread::Redirects).len() == chains_counts(chains).redirects,
        chains_beads(chains, Thread::RedirectOperators).len() == chains_counts(chains).redirects,
        chains_beads(chains, Thread::Pipes).len() == chains_counts(chains).pipes,
        chains_beads(chains, Thread::Connectors).len() == chains_counts(chains).connectors,
        chains_beads(chains, Thread::Amps).len() == chains_counts(chains).background,
    decreases chains.len(),
{
    if chains.len() > 0 {
        let head = chains.drop_last();
        assert forall|k: int| 0 <= k < head.len() implies (#[trigger] head[k]).wf() by {
            assert(chains[k].wf());
        }
        lemma_chains_counted(head);
        let chain = chains.last();
        assert(chains[chains.len() - 1].wf());
        lemma_commands_counted(chain.first.cmds);
        assert forall|k: int| 0 <= k < chain.rest.len() implies (#[trigger] chain.rest[k]).1.cmds.len()
            > 0 by {
            assert(chain.rest[k].1.wf());
        }
        lemma_links_counted(chain.rest);
    }
}

/// The counts of a script and of its line agree: every word is an argument or
/// the target of a redirect, and every operator but `;` is in the script once.
pub proof fn law_counts_agree(line: Seq<char>)
    ensures
        parsed(line) matches Ok(script) ==> {
            let t = line_tokens(line);
            let n = t.len() as int;
            let counts = chains_counts(script.seq);
            &&& counts.arguments + counts.redirects == words_upto(t, n)
            &&& counts.redirects == operators_upto(t, n, Thread::RedirectOperators)
            &&& counts.pipes == operators_upto(t, n, Thread::Pipes)
            &&& counts.connectors == operators_upto(t, n, Thread::Connectors)
            &&& counts.background == operators_upto(t, n, Thread::Amps)
        },
{
    if let Ok(script) = parsed(line) {
        let t = line_tokens(line);
        let n = t.len() as int;
        crate::parser::law_parsed_is_well_formed(line);
        lemma_chains_counted(script.seq);
        law_no_token_is_lost(line, Thread::Arguments);
        law_no_token_is_lost(line, Thread::Redirects);
        law_no_token_is_lost(line, Thread::RedirectOperators);
        law_no_token_is_lost(line, Thread::Pipes);
        law_no_token_is_lost(line, Thread::Connectors);
        law_no_token_is_lost(line, Thread::Amps);
        lemma_word_counts(t, n);
        lemma_operator_counts(t, n, Thread::RedirectOperators);
        lemma_operator_counts(t, n, Thread::Pipes);
        lemma_operator_counts(t, n, Thread::Connectors);
        lemma_operator_counts(t, n, Thread::Amps);
    }
}

/// The `&` at `k` ends the line or has a `;` after it.
pub open spec fn amp_ends(t: Seq<TokenView>, k: int) -> bool {
    t[k] is Amp ==> k + 1 == t.len() || t[k + 1] is Semi
}

proof fn lemma_no_amp(t: Seq<TokenView>, i: int, j: int)
    requires
        0 <= i <= j <= t.len(),
        beads(t, i, j, Thread::Amps).len() == 0,
    ensures
        forall|k: int| i <= k < j ==> !(#[trigger] t[k] is Amp),
    decreases j - i,
{
    if i < j {
        lemma_no_amp(t, i, j - 1);
    }
}

proof fn lemma_amps_end(t: Seq<TokenView>, i: int, done: Seq<AndOrView>)
    requires
        0 <= i <= t.len(),
        !behind_redirect(t, i),
        script_from(t, i, done) is Ok,
    ensures
        forall|k: int| i <= k < t.len() ==> #[trigger] amp_ends(t, k),
    decreases t.len() - i,
{
    if i < t.len() {
        if t[i] is Semi {
            lemma_amps_end(t, i + 1, done);
        } else {
            lemma_item_beads(t, i, Thread::Amps);
            lemma_item_at(t, i);
            lemma_pipeline_beads(t, i, Thread::Amps);
            let (chain, end) = item_at(t, i)->Ok_0;
            let (first, mid) = pipeline_at(t, i)->Ok_0;
            let none = Seq::<(Connector, PipelineView)>::empty();
            lemma_and_or_more_beads(t, mid, none, Thread::Amps);
            let (rest, stop) = and_or_more(t, mid, none)->Ok_0;
            lemma_amps_end(t, end, done.push(chain));
            lemma_commands_counted(first.cmds);
            lemma_no_amp(t, i, mid);
            lemma_rest_amps(rest);
            lemma_no_amp(t, mid, stop);
            assert forall|k: int| i <= k < t.len() implies #[trigger] amp_ends(t, k) by {
                if k < mid {
                    assert(!(t[k] is Amp));
                } else if k < stop {
                    assert(!(t[k] is Amp));
                }
            }
        }
    }
}

proof fn lemma_rest_amps(rest: Seq<(Connector, PipelineView)>)
    ensures
        links_beads(rest, Thread::Amps).len() == 0,
    decreases rest.len(),
{
    if rest.len() > 0 {
        lemma_rest_amps(rest.drop_last());
        lemma_commands_counted(rest.last().1.cmds);
    }
}

/// How many chains run in the background.
pub open spec fn background_chains(chains: Seq<AndOrView>) -> int
    decreases chains.len(),
{
    if chains.len() == 0 {
        0
    } else {
        background_chains(chains.drop_last()) + if chains.last().first.background {
            1int
        } else {
            0
        }
    }
}

proof fn lemma_background_chains(chains: Seq<AndOrView>)
    ensures
        background_chains(chains) == chains_counts(chains).background,
    decreases chains.len(),
{
    if chains.len() > 0 {
        lemma_background_chains(chains.drop_last());
    }
}

/// The background flags are the ampersands: each chain runs in the background
/// as a whole or not at all, as many do as the line has `&`, and an `&` stands
/// only at the end of the line or before a `;`.
pub proof fn law_amps_set_the_background(line: Seq<char>)
    ensures
        parsed(line) matches Ok(script) ==> {
            let t = line_tokens(line);
            &&& forall|c: int, k: int|
                0 <= c < script.seq.len() && 0 <= k < script.seq[c].rest.len() ==> (
                #[trigger] script.seq[c].rest[k]).1.background == script.seq[c].first.background
            &&& background_chains(script.seq) == operators_upto(t, t.len() as int, Thread::Amps)
            &&& forall|k: int| 0 <= k < t.len() ==> #[trigger] amp_ends(t, k)
        },
{
    if let Ok(script) = parsed(line) {
        law_counts_agree(line);
        lemma_background_chains(script.seq);
        crate::parser::law_parsed_is_well_formed(line);
        lemma_amps_end(line_tokens(line), 0, Seq::empty());
        assert forall|c: int, k: int|
            0 <= c < script.seq.len() && 0 <= k < script.seq[c].rest.len() implies (
        #[trigger] script.seq[c].rest[k]).1.background == script.seq[c].first.background by {
            assert(script.seq[c].wf());
        }
    }
}

} // verus!
