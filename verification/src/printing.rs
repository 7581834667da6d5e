//! Scripts written out as tokens: reading them gives the scripts back.

use vstd::prelude::*;

use crate::lexer::{PartView, TokenView};
use crate::parser::{
    and_or_at, and_or_more, command_at, command_items, detached, detached_links, item_at,
    no_command, parsed_tokens, pipeline_at, pipeline_more, script_from, AndOrView, CommandView,
    Connector, ParseError, PipelineView, RedirectView, ScriptView,
};

verus! {

// ---------------------------------------------------------------------------
// Writing.

/// The words of a command.
pub open spec fn words_tokens(argv: Seq<Seq<PartView>>) -> Seq<TokenView> {
    Seq::new(argv.len(), |k: int| TokenView::Word(argv[k]))
}

/// A redirect: its operator and its target.
pub open spec fn redirect_tokens(redirect: RedirectView) -> Seq<TokenView> {
    match redirect {
        RedirectView::In(target) => seq![TokenView::In, TokenView::Word(target)],
        RedirectView::Out { target, append } => seq![
            TokenView::Out { append },
            TokenView::Word(target),
        ],
        RedirectView::ErrOut { target, append } => seq![
            TokenView::ErrOut { append },
            TokenView::Word(target),
        ],
    }
}

/// Redirects, one after the other.
pub open spec fn redirects_tokens(redirects: Seq<RedirectView>) -> Seq<TokenView>
    decreases redirects.len(),
{
    if redirects.len() == 0 {
        Seq::empty()
    } else {
        redirect_tokens(redirects[0]) + redirects_tokens(redirects.skip(1))
    }
}

/// A command: its words and then its redirects.
pub open spec fn command_tokens(cmd: CommandView) -> Seq<TokenView> {
    words_tokens(cmd.argv) + redirects_tokens(cmd.redirects)
}

/// Commands, each with a `|` before it.
pub open spec fn piped_tokens(cmds: Seq<CommandView>) -> Seq<TokenView>
    decreases cmds.len(),
{
    if cmds.len() == 0 {
        Seq::empty()
    } else {
        seq![TokenView::Pipe] + (command_tokens(cmds[0]) + piped_tokens(cmds.skip(1)))
    }
}

/// A pipeline: commands with `|` between them.
pub open spec fn pipeline_tokens(cmds: Seq<CommandView>) -> Seq<TokenView> {
    command_tokens(cmds[0]) + piped_tokens(cmds.skip(1))
}

/// Pipelines, each with its connector before it.
pub open spec fn links_tokens(rest: Seq<(Connector, PipelineView)>) -> Seq<TokenView>
    decreases rest.len(),
{
    if rest.len() == 0 {
        Seq::empty()
    } else {
        seq![
            match rest[0].0 {
                Connector::And => TokenView::And,
                Connector::Or => TokenView::Or,
            },
        ] + (pipeline_tokens(rest[0].1.cmds) + links_tokens(rest.skip(1)))
    }
}

/// A chain, with `&` after it where it runs in the background.
pub open spec fn chain_tokens(chain: AndOrView) -> Seq<TokenView> {
    pipeline_tokens(chain.first.cmds) + (links_tokens(chain.rest) + (if chain.first.background {
        seq![TokenView::Amp]
    } else {
        Seq::empty()
    }))
}

/// A script: chains with a `;` after each.
pub open spec fn script_tokens(chains: Seq<AndOrView>) -> Seq<TokenView>
    decreases chains.len(),
{
    if chains.len() == 0 {
        Seq::empty()
    } else {
        chain_tokens(chains[0]) + (seq![TokenView::Semi] + script_tokens(chains.skip(1)))
    }
}

// ---------------------------------------------------------------------------
// Reading.

/// `w` stands in `t` at `off`.
spec fn stands(t: Seq<TokenView>, off: int, w: Seq<TokenView>) -> bool {
    &&& 0 <= off
    &&& off + w.len() <= t.len()
    &&& forall|k: int| 0 <= k < w.len() ==> t[off + k] == #[trigger] w[k]
}

proof fn lemma_stands(t: Seq<TokenView>, off: int, a: Seq<TokenView>, b: Seq<TokenView>)
    requires
        stands(t, off, a + b),
    ensures
        stands(t, off, a),
        stands(t, off + a.len(), b),
{
    let w = a + b;
    assert forall|k: int| 0 <= k < a.len() implies t[off + k] == #[trigger] a[k] by {
        assert(t[off + k] == w[k]);
    }
    assert forall|k: int| 0 <= k < b.len() implies t[off + a.len() + k] == #[trigger] b[k] by {
        assert(t[off + (a.len() + k)] == w[a.len() + k]);
    }
}

/// A token that ends a command.
spec fn ends_command(t: Seq<TokenView>, i: int) -> bool {
    i < t.len() ==> !(t[i] is Word || t[i] is In || t[i] is Out || t[i] is ErrOut)
}

/// A token that ends a pipeline.
spec fn ends_pipeline(t: Seq<TokenView>, i: int) -> bool {
    ends_command(t, i) && (i < t.len() ==> !(t[i] is Pipe))
}

/// A token that ends a chain.
spec fn ends_chain(t: Seq<TokenView>, i: int) -> bool {
    ends_pipeline(t, i) && (i < t.len() ==> !(t[i] is And || t[i] is Or))
}

proof fn lemma_words(t: Seq<TokenView>, off: int, argv: Seq<Seq<PartView>>, k: int)
    requires
        stands(t, off, words_tokens(argv)),
        0 <= k <= argv.len(),
    ensures
        command_items(
            t,
            off + k,
            CommandView { argv: argv.take(k), redirects: Seq::empty() },
        ) == command_items(
            t,
            off + argv.len(),
            CommandView { argv, redirects: Seq::empty() },
        ),
    decreases argv.len() - k,
{
    if k < argv.len() {
        assert(t[off + k] == words_tokens(argv)[k]);
        lemma_words(t, off, argv, k + 1);
        assert(argv.take(k).push(argv[k]) =~= argv.take(k + 1));
    } else {
        assert(argv.take(k) =~= argv);
    }
}

proof fn lemma_redirects(
    t: Seq<TokenView>,
    off: int,
    argv: Seq<Seq<PartView>>,
    done: Seq<RedirectView>,
    redirects: Seq<RedirectView>,
)
    requires
        stands(t, off, redirects_tokens(redirects)),
    ensures
        command_items(t, off, CommandView { argv, redirects: done }) == command_items(
            t,
            off + redirects_tokens(redirects).len(),
            CommandView { argv, redirects: done + redirects },
        ),
    decreases redirects.len(),
{
    if redirects.len() == 0 {
        assert(done + redirects =~= done);
    } else {
        let rest = redirects.skip(1);
        let here = redirect_tokens(redirects[0]);
        lemma_stands(t, off, here, redirects_tokens(rest));
        assert(t[off + 0] == here[0]);
        assert(t[off + 1] == here[1]);
        lemma_redirects(t, off + 2, argv, done.push(redirects[0]), rest);
        assert(done.push(redirects[0]) + rest =~= done + redirects);
    }
}

proof fn lemma_command(t: Seq<TokenView>, off: int, cmd: CommandView)
    requires
        cmd.wf(),
        stands(t, off, command_tokens(cmd)),
        ends_command(t, off + command_tokens(cmd).len()),
    ensures
        command_at(t, off) == Ok::<(CommandView, int), ParseError>(
            (cmd, off + command_tokens(cmd).len()),
        ),
{
    let end = off + command_tokens(cmd).len();
    lemma_stands(t, off, words_tokens(cmd.argv), redirects_tokens(cmd.redirects));
    lemma_words(t, off, cmd.argv, 0);
    assert(cmd.argv.take(0) =~= Seq::<Seq<PartView>>::empty());
    let none = Seq::<RedirectView>::empty();
    lemma_redirects(t, off + cmd.argv.len(), cmd.argv, none, cmd.redirects);
    assert(none + cmd.redirects =~= cmd.redirects);
    assert(command_items(t, end, cmd) == Ok::<(CommandView, int), ParseError>((cmd, end)));
    assert(command_items(t, off, no_command()) == Ok::<(CommandView, int), ParseError>((cmd, end)));
}

proof fn lemma_piped(
    t: Seq<TokenView>,
    off: int,
    done: Seq<CommandView>,
    cmds: Seq<CommandView>,
)
    requires
        forall|k: int| 0 <= k < cmds.len() ==> (#[trigger] cmds[k]).wf(),
        stands(t, off, piped_tokens(cmds)),
        ends_pipeline(t, off + piped_tokens(cmds).len()),
    ensures
        pipeline_more(t, off, done) == Ok::<(Seq<CommandView>, int), ParseError>(
            (done + cmds, off + piped_tokens(cmds).len()),
        ),
    decreases cmds.len(),
{
    if cmds.len() == 0 {
        assert(done + cmds =~= done);
    } else {
        let rest = cmds.skip(1);
        let here = command_tokens(cmds[0]);
        let more = piped_tokens(rest);
        lemma_stands(t, off, seq![TokenView::Pipe], here + more);
        lemma_stands(t, off + 1, here, more);
        assert(t[off + 0] == seq![TokenView::Pipe][0]);
        assert(cmds[0].wf());
        let end = off + 1 + here.len();
        assert(ends_command(t, end)) by {
            if rest.len() > 0 {
                assert(t[end + 0] == more[0]);
            }
        }
        lemma_command(t, off + 1, cmds[0]);
        assert forall|k: int| 0 <= k < rest.len() implies (#[trigger] rest[k]).wf() by {
            assert(cmds[k + 1].wf());
        }
        lemma_piped(t, end, done.push(cmds[0]), rest);
        assert(done.push(cmds[0]) + rest =~= done + cmds);
    }
}

proof fn lemma_pipeline(t: Seq<TokenView>, off: int, cmds: Seq<CommandView>)
    requires
        cmds.len() > 0,
        forall|k: int| 0 <= k < cmds.len() ==> (#[trigger] cmds[k]).wf(),
        stands(t, off, pipeline_tokens(cmds)),
        ends_pipeline(t, off + pipeline_tokens(cmds).len()),
    ensures
        pipeline_at(t, off) == Ok::<(PipelineView, int), ParseError>(
            (PipelineView { cmds, background: false }, off + pipeline_tokens(cmds).len()),
        ),
{
    let rest = cmds.skip(1);
    let here = command_tokens(cmds[0]);
    let more = piped_tokens(rest);
    lemma_stands(t, off, here, more);
    let end = off + here.len();
    assert(ends_command(t, end)) by {
        if rest.len() > 0 {
            assert(t[end + 0] == more[0]);
        }
    }
    assert(cmds[0].wf());
    lemma_command(t, off, cmds[0]);
    assert forall|k: int| 0 <= k < rest.len() implies (#[trigger] rest[k]).wf() by {
        assert(cmds[k + 1].wf());
    }
    lemma_piped(t, end, seq![cmds[0]], rest);
    assert(seq![cmds[0]] + rest =~= cmds);
}

/// The links, none of them in the background.
spec fn attached(rest: Seq<(Connector, PipelineView)>) -> Seq<(Connector, PipelineView)> {
    Seq::new(rest.len(), |k: int| (rest[k].0, PipelineView { background: false, ..rest[k].1 }))
}

proof fn lemma_links(
    t: Seq<TokenView>,
    off: int,
    done: Seq<(Connector, PipelineView)>,
    rest: Seq<(Connector, PipelineView)>,
)
    requires
        forall|k: int| 0 <= k < rest.len() ==> (#[trigger] rest[k]).1.wf(),
        stands(t, off, links_tokens(rest)),
        ends_chain(t, off + links_tokens(rest).len()),
    ensures
        and_or_more(t, off, done) == Ok::<(Seq<(Connector, PipelineView)>, int), ParseError>(
            (done + attached(rest), off + links_tokens(rest).len()),
        ),
    decreases rest.len(),
{
    if rest.len() == 0 {
        assert(done + attached(rest) =~= done);
    } else {
        let tail = rest.skip(1);
        let cmds = rest[0].1.cmds;
        let op = match rest[0].0 {
            Connector::And => TokenView::And,
            Connector::Or => TokenView::Or,
        };
        let here = pipeline_tokens(cmds);
        let more = links_tokens(tail);
        lemma_stands(t, off, seq![op], here + more);
        lemma_stands(t, off + 1, here, more);
        assert(t[off + 0] == seq![op][0]);
        assert(rest[0].1.wf());
        let end = off + 1 + here.len();
        assert(ends_pipeline(t, end)) by {
            if tail.len() > 0 {
                assert(t[end + 0] == more[0]);
            }
        }
        lemma_pipeline(t, off + 1, cmds);
        assert forall|k: int| 0 <= k < tail.len() implies (#[trigger] tail[k]).1.wf() by {
            assert(rest[k + 1].1.wf());
        }
        let link = (rest[0].0, PipelineView { cmds, background: false });
        lemma_links(t, end, done.push(link), tail);
        assert(done.push(link) + attached(tail) =~= done + attached(rest));
    }
}

proof fn lemma_chain(t: Seq<TokenView>, off: int, chain: AndOrView)
    requires
        chain.wf(),
        stands(t, off, chain_tokens(chain)),
        off + chain_tokens(chain).len() < t.len(),
        t[off + chain_tokens(chain).len()] is Semi,
    ensures
        item_at(t, off) == Ok::<(AndOrView, int), ParseError>(
            (chain, off + chain_tokens(chain).len()),
        ),
{
    let cmds = chain.first.cmds;
    let links = links_tokens(chain.rest);
    let amp = if chain.first.background {
        seq![TokenView::Amp]
    } else {
        Seq::empty()
    };
    let here = pipeline_tokens(cmds);
    lemma_stands(t, off, here, links + amp);
    let mid = off + here.len();
    lemma_stands(t, mid, links, amp);
    let end = mid + links.len();
    if chain.first.background {
        assert(t[end + 0] == amp[0]);
    }
    assert(ends_pipeline(t, mid)) by {
        if chain.rest.len() > 0 {
            assert(t[mid + 0] == links[0]);
        }
    }
    assert forall|k: int| 0 <= k < cmds.len() implies (#[trigger] cmds[k]).wf() by {
        assert(chain.first.cmds[k].wf());
    }
    lemma_pipeline(t, off, cmds);
    assert forall|k: int| 0 <= k < chain.rest.len() implies (#[trigger] chain.rest[k]).1.wf() by {}
    let none = Seq::<(Connector, PipelineView)>::empty();
    lemma_links(t, mid, none, chain.rest);
    assert(none + attached(chain.rest) =~= attached(chain.rest));
    let plain = AndOrView {
        first: PipelineView { cmds, background: false },
        rest: attached(chain.rest),
    };
    assert(and_or_at(t, off) == Ok::<(AndOrView, int), ParseError>((plain, end)));
    if chain.first.background {
        assert(detached(plain.first) == chain.first);
        assert(detached_links(plain.rest) =~= chain.rest) by {
            assert forall|k: int| 0 <= k < chain.rest.len() implies detached_links(plain.rest)[k]
                == #[trigger] chain.rest[k] by {
                assert(chain.rest[k].1.background);
            }
        }
    } else {
        assert(attached(chain.rest) =~= chain.rest) by {
            assert forall|k: int| 0 <= k < chain.rest.len() implies attached(chain.rest)[k]
                == #[trigger] chain.rest[k] by {
                assert(!chain.rest[k].1.background);
            }
        }
    }
}

proof fn lemma_starts(chain: AndOrView)
    requires
        chain.wf(),
    ensures
        chain_tokens(chain).len() > 0,
        !(chain_tokens(chain)[0] is Semi || chain_tokens(chain)[0] is Amp),
{
    let cmd = chain.first.cmds[0];
    assert(cmd.wf());
    if cmd.argv.len() > 0 {
        assert(command_tokens(cmd)[0] == words_tokens(cmd.argv)[0]);
    } else {
        assert(command_tokens(cmd)[0] == redirects_tokens(cmd.redirects)[0]);
        assert(redirects_tokens(cmd.redirects)[0] == redirect_tokens(cmd.redirects[0])[0]);
    }
    assert(chain_tokens(chain)[0] == command_tokens(cmd)[0]);
}

proof fn lemma_script(t: Seq<TokenView>, off: int, done: Seq<AndOrView>, chains: Seq<AndOrView>)
    requires
        forall|k: int| 0 <= k < chains.len() ==> (#[trigger] chains[k]).wf(),
        stands(t, off, script_tokens(chains)),
        off + script_tokens(chains).len() == t.len(),
    ensures
        script_from(t, off, done) == Ok::<ScriptView, ParseError>(
            ScriptView { seq: done + chains },
        ),
    decreases chains.len(),
{
    if chains.len() == 0 {
        assert(done + chains =~= done);
    } else {
        let rest = chains.skip(1);
        let here = chain_tokens(chains[0]);
        let semi = seq![TokenView::Semi];
        lemma_stands(t, off, here, semi + script_tokens(rest));
        let end = off + here.len();
        lemma_stands(t, end, semi, script_tokens(rest));
        assert(t[end + 0] == semi[0]);
        assert(chains[0].wf());
        lemma_starts(chains[0]);
        assert(t[off + 0] == here[0]);
        lemma_chain(t, off, chains[0]);
        assert forall|k: int| 0 <= k < rest.len() implies (#[trigger] rest[k]).wf() by {
            assert(chains[k + 1].wf());
        }
        lemma_script(t, end + 1, done.push(chains[0]), rest);
        assert(done.push(chains[0]) + rest =~= done + chains);
        assert(script_from(t, end, done.push(chains[0])) == script_from(
            t,
            end + 1,
            done.push(chains[0]),
        ));
    }
}

// ---------------------------------------------------------------------------
// Laws.

/// Writing a script out as tokens and reading them gives the script back:
/// words make up commands, `|` pipelines, `&&` and `||` chains with their
/// connectors, `;` scripts, redirects keep their kind, their target and whether
/// they append, and `&` sends its chain to the background.
pub proof fn law_scripts_read_back(script: ScriptView)
    requires
        script.wf(),
    ensures
        parsed_tokens(script_tokens(script.seq)) == Ok::<ScriptView, ParseError>(script),
{
    let t = script_tokens(script.seq);
    assert(stands(t, 0, t));
    assert forall|k: int| 0 <= k < script.seq.len() implies (#[trigger] script.seq[k]).wf() by {}
    let none = Seq::<AndOrView>::empty();
    lemma_script(t, 0, none, script.seq);
    assert(none + script.seq =~= script.seq);
}

/// A redirect operator needs a word after it.
pub proof fn law_redirects_need_targets(
    argv: Seq<Seq<PartView>>,
    op: TokenView,
    rest: Seq<TokenView>,
)
    requires
        op is In || op is Out || op is ErrOut,
        rest.len() > 0 ==> !(rest[0] is Word),
    ensures
        parsed_tokens(words_tokens(argv) + seq![op] + rest) == Err::<ScriptView, ParseError>(
            ParseError::MissingRedirectTarget,
        ),
{
    let t = words_tokens(argv) + seq![op] + rest;
    let n = argv.len() as int;
    assert(stands(t, 0, words_tokens(argv)));
    lemma_words(t, 0, argv, 0);
    assert(argv.take(0) =~= Seq::<Seq<PartView>>::empty());
    assert(t[n] == op);
    if rest.len() > 0 {
        assert(t[n + 1] == rest[0]);
    }
    if n > 0 {
        assert(t[0] == words_tokens(argv)[0]);
    }
    assert(command_items(t, 0, no_command()) == Err::<(CommandView, int), ParseError>(
        ParseError::MissingRedirectTarget,
    ));
}

/// An operator between commands needs a command before it and one after it:
/// `|`, `&&` and `||` at the start or at the end are errors, and so are two of
/// them in a row. An `&` at the start is one of its own.
pub proof fn law_operators_need_commands(cmd: CommandView, op: TokenView, rest: Seq<TokenView>)
    requires
        cmd.wf(),
        op is Pipe || op is And || op is Or,
        rest.len() > 0 ==> rest[0] is Pipe || rest[0] is And || rest[0] is Or || rest[0] is Semi
            || rest[0] is Amp,
    ensures
        parsed_tokens(seq![op] + rest) == Err::<ScriptView, ParseError>(
            ParseError::ExpectedCommand,
        ),
        parsed_tokens(command_tokens(cmd) + seq![op] + rest) == Err::<ScriptView, ParseError>(
            ParseError::ExpectedCommand,
        ),
        parsed_tokens(seq![TokenView::Amp] + rest) == Err::<ScriptView, ParseError>(
            ParseError::UnexpectedAmp,
        ),
{
    let a = seq![op] + rest;
    assert(a[0] == op);
    assert(command_items(a, 0, no_command()) == Ok::<(CommandView, int), ParseError>(
        (no_command(), 0),
    ));
    let here = command_tokens(cmd);
    let t = here + seq![op] + rest;
    let n = here.len() as int;
    assert(stands(t, 0, here));
    assert(t[n] == op);
    if rest.len() > 0 {
        assert(t[n + 1] == rest[0]);
    }
    lemma_command(t, 0, cmd);
    assert(command_items(t, n + 1, no_command()) == Ok::<(CommandView, int), ParseError>(
        (no_command(), n + 1),
    ));
    let first = PipelineView { cmds: seq![cmd], background: false };
    let chain = AndOrView { first, rest: Seq::empty() };
    lemma_starts(chain);
    let none = Seq::<CommandView>::empty();
    assert(seq![cmd].skip(1) =~= none);
    assert(piped_tokens(none) =~= Seq::<TokenView>::empty());
    assert(links_tokens(chain.rest) =~= Seq::<TokenView>::empty());
    assert(chain_tokens(chain)[0] == here[0]);
    assert(t[0] == here[0]);
    if op is Pipe {
        assert(pipeline_more(t, n, seq![cmd]) is Err);
    } else {
        assert(pipeline_at(t, 0) == Ok::<(PipelineView, int), ParseError>((first, n)));
        assert(and_or_more(t, n, Seq::empty()) is Err);
    }
    let b = seq![TokenView::Amp] + rest;
    assert(b[0] is Amp);
}

/// An `&` behind a chain ends it: only `;` or the end of the line may follow.
pub proof fn law_amp_ends_a_chain(chain: AndOrView, rest: Seq<TokenView>)
    requires
        chain.wf(),
        !chain.first.background,
        rest.len() > 0,
        !(rest[0] is Semi),
    ensures
        parsed_tokens(chain_tokens(chain) + seq![TokenView::Amp] + rest) == Err::<
            ScriptView,
            ParseError,
        >(ParseError::UnexpectedAmp),
{
    let cmds = chain.first.cmds;
    let here = pipeline_tokens(cmds);
    let links = links_tokens(chain.rest);
    let none = Seq::<TokenView>::empty();
    assert(links + none =~= links);
    assert(chain_tokens(chain) =~= here + links);
    let t = chain_tokens(chain) + seq![TokenView::Amp] + rest;
    let mid = here.len() as int;
    let end = mid + links.len();
    assert(stands(t, 0, here + links));
    lemma_stands(t, 0, here, links);
    assert(t[end] is Amp);
    assert(t[end + 1] == rest[0]);
    assert(ends_pipeline(t, mid)) by {
        if chain.rest.len() > 0 {
            assert(t[mid + 0] == links[0]);
        }
    }
    assert forall|k: int| 0 <= k < cmds.len() implies (#[trigger] cmds[k]).wf() by {
        assert(chain.first.cmds[k].wf());
    }
    lemma_pipeline(t, 0, cmds);
    assert forall|k: int| 0 <= k < chain.rest.len() implies (#[trigger] chain.rest[k]).1.wf() by {}
    let gone = Seq::<(Connector, PipelineView)>::empty();
    lemma_links(t, mid, gone, chain.rest);
    assert(and_or_at(t, 0) is Ok);
    lemma_starts(chain);
    assert(t[0] == chain_tokens(chain)[0]);
    assert(item_at(t, 0) == Err::<(AndOrView, int), ParseError>(ParseError::UnexpectedAmp));
}

} // verus!
