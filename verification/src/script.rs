//! Running a script: which pipeline runs next, and with what status it ends.

use vstd::prelude::*;

use crate::parser::{link_views, Connector, Pipeline, PipelineView, Script, ScriptView};
use crate::shell::Shell;

verus! {

/// Whether a pipeline behind `connector` runs after the status `status`.
pub open spec fn admits(connector: Connector, status: i32) -> bool {
    match connector {
        Connector::And => status == 0,
        Connector::Or => status != 0,
    }
}

/// The next link at or after `k` that runs after the status `status`. A
/// request to exit is honored once a link has been passed over.
pub open spec fn next_link(
    rest: Seq<(Connector, PipelineView)>,
    k: int,
    status: i32,
    exiting: bool,
) -> Option<int>
    decreases rest.len() - k,
{
    if !(0 <= k < rest.len()) {
        None
    } else if admits(rest[k].0, status) {
        Some(k)
    } else if exiting {
        None
    } else {
        next_link(rest, k + 1, status, exiting)
    }
}

/// Where a run of a script stands: at the first pipeline of a chain (`link`
/// 0) or at link `link - 1` of its rest, with the status so far.
#[derive(Debug, Clone, Copy, PartialEq, Eq, Structural)]
pub struct ScriptRun {
    pub chain: usize,
    pub link: usize,
    pub status: i32,
}

/// What a run of a script does next.
pub enum ScriptAction<'a> {
    /// Run this pipeline and come back with its status.
    Run(&'a Pipeline),
    /// The script is done, with this status.
    Done(i32),
}

/// Model of [`ScriptAction`].
pub enum ScriptActionView {
    Run(PipelineView),
    Done(i32),
}

impl<'a> View for ScriptAction<'a> {
    type V = ScriptActionView;

    open spec fn view(&self) -> ScriptActionView {
        match self {
            ScriptAction::Run(pipeline) => ScriptActionView::Run(pipeline@),
            ScriptAction::Done(status) => ScriptActionView::Done(*status),
        }
    }
}

/// The run stands at a pipeline of the script, or at its end.
pub open spec fn run_wf(script: ScriptView, run: ScriptRun) -> bool {
    &&& run.chain <= script.seq.len()
    &&& run.chain == script.seq.len() ==> run.link == 0
    &&& run.chain < script.seq.len() ==> run.link <= script.seq[run.chain as int].rest.len()
}

/// The pipeline that the run stands at.
pub open spec fn pipeline_of(script: ScriptView, run: ScriptRun) -> PipelineView {
    let chain = script.seq[run.chain as int];
    if run.link == 0 {
        chain.first
    } else {
        chain.rest[run.link - 1].1
    }
}

/// What the run does where it stands.
pub open spec fn action_at(script: ScriptView, run: ScriptRun) -> ScriptActionView {
    if run.chain < script.seq.len() {
        ScriptActionView::Run(pipeline_of(script, run))
    } else {
        ScriptActionView::Done(run.status)
    }
}

/// Where the run goes when the pipeline that it stands at ended with `status`:
/// to the next link of the chain that runs, else to the next chain, or to the
/// end when the shell is to exit.
pub open spec fn advanced(
    script: ScriptView,
    run: ScriptRun,
    status: i32,
    exiting: bool,
) -> ScriptRun {
    let rest = script.seq[run.chain as int].rest;
    let next = if run.link > 0 && exiting {
        None
    } else {
        next_link(rest, run.link as int, status, exiting)
    };
    match next {
        Some(k) => ScriptRun { link: (k + 1) as usize, status, ..run },
        None => ScriptRun {
            chain: if exiting {
                script.seq.len() as usize
            } else {
                (run.chain + 1) as usize
            },
            link: 0,
            status,
        },
    }
}

impl ScriptRun {
    /// At the first pipeline of a script.
    pub fn new() -> (r: ScriptRun)
        ensures
            r == (ScriptRun { chain: 0, link: 0, status: 0 }),
    {
        ScriptRun { chain: 0, link: 0, status: 0 }
    }
}

/// The next link at or after `k` that runs.
fn find_link(rest: &[(Connector, Pipeline)], k: usize, status: i32, exiting: bool) -> (r: Option<
    usize,
>)
    requires
        k <= rest@.len(),
    ensures
        match next_link(link_views(rest@), k as int, status, exiting) {
            Some(i) => r matches Some(j) && j == i && k <= j < rest@.len(),
            None => r is None,
        },
{
    let ghost all = link_views(rest@);
    let mut i: usize = k;
    while i < rest.len()
        invariant
            all == link_views(rest@),
            k <= i <= rest@.len(),
            next_link(all, k as int, status, exiting) == next_link(
                all,
                i as int,
                status,
                exiting,
            ),
        decreases rest.len() - i,
    {
        let runs = match rest[i].0 {
            Connector::And => status == 0,
            Connector::Or => status != 0,
        };
        if runs {
            return Some(i);
        }
        if exiting {
            return None;
        }
        i += 1;
    }
    None
}

/// Run a script step by step. `finished` is `None` to start, and then the
/// status of the pipeline that the last step asked to run. The shell's last
/// status becomes the script's when it is done.
pub fn execute_script<'a>(
    shell: &mut Shell,
    script: &'a Script,
    run: &mut ScriptRun,
    finished: Option<i32>,
) -> (r: ScriptAction<'a>)
    requires
        run_wf(script@, *old(run)),
        finished is Some ==> old(run).chain < script@.seq.len(),
    ensures
        run_wf(script@, *final(run)),
        *final(run) == match finished {
            Some(status) => advanced(script@, *old(run), status, old(shell).should_exit),
            None => *old(run),
        },
        r@ == action_at(script@, *final(run)),
        final(shell).env == old(shell).env,
        final(shell).should_exit == old(shell).should_exit,
        final(shell).history == old(shell).history,
        final(shell).jobs == old(shell).jobs,
        final(shell).capture == old(shell).capture,
        final(shell).last_status == match r@ {
            ScriptActionView::Done(status) => status,
            ScriptActionView::Run(_) => old(shell).last_status,
        },
{
    let ghost all = script@.seq;
    if let Some(status) = finished {
        let exiting = shell.should_exit;
        let chain = &script.seq[run.chain];
        let links: usize = chain.rest.len();
        let chains: usize = script.seq.len();
        proof {
            assert(run.chain < chains);
            assert(all[run.chain as int] == chain@);
            assert(chain@.rest == link_views(chain.rest@));
        }
        let next = if run.link > 0 && exiting {
            None
        } else {
            find_link(chain.rest.as_slice(), run.link, status, exiting)
        };
        run.status = status;
        match next {
            Some(k) => {
                assert(k < links);
                run.link = k + 1;
            },
            None => {
                run.link = 0;
                run.chain = if exiting {
                    chains
                } else {
                    run.chain + 1
                };
            },
        }
    }
    if run.chain < script.seq.len() {
        let chain = &script.seq[run.chain];
        proof {
            assert(all[run.chain as int] == chain@);
        }
        if run.link == 0 {
            ScriptAction::Run(&chain.first)
        } else {
            ScriptAction::Run(&chain.rest[run.link - 1].1)
        }
    } else {
        shell.last_status = run.status;
        ScriptAction::Done(run.status)
    }
}

// ---------------------------------------------------------------------------
// Laws.

/// `&&` runs what follows on success only, `||` on failure only.
pub proof fn law_connectors(status: i32)
    ensures
        admits(Connector::And, status) <==> status == 0,
        admits(Connector::Or, status) <==> status != 0,
        admits(Connector::And, status) != admits(Connector::Or, status),
{
}

/// The link that runs next is the first one that the status admits: those in
/// between are skipped.
pub proof fn law_next_link_is_first(
    rest: Seq<(Connector, PipelineView)>,
    k: int,
    status: i32,
    exiting: bool,
)
    requires
        0 <= k <= rest.len(),
    ensures
        match next_link(rest, k, status, exiting) {
            Some(i) => {
                &&& k <= i < rest.len()
                &&& admits(rest[i].0, status)
                &&& forall|j: int| k <= j < i ==> !admits((#[trigger] rest[j]).0, status)
            },
            None => !exiting ==> forall|j: int|
                k <= j < rest.len() ==> !admits((#[trigger] rest[j]).0, status),
        },
    decreases rest.len() - k,
{
    if k < rest.len() && !admits(rest[k].0, status) && !exiting {
        law_next_link_is_first(rest, k + 1, status, exiting);
    }
}

/// Every step goes forward, so a script ends after at most as many steps as
/// it has pipelines.
pub proof fn law_runs_go_forward(script: ScriptView, run: ScriptRun, status: i32, exiting: bool)
    requires
        script.seq.len() <= usize::MAX,
        forall|c: int| 0 <= c < script.seq.len() ==> (#[trigger] script.seq[c]).rest.len() < usize::MAX,
        run_wf(script, run),
        run.chain < script.seq.len(),
    ensures
        ({
            let next = advanced(script, run, status, exiting);
            &&& run_wf(script, next)
            &&& next.chain > run.chain || (next.chain == run.chain && next.link > run.link)
        }),
{
    law_next_link_is_first(script.seq[run.chain as int].rest, run.link as int, status, exiting);
    assert(script.seq[run.chain as int].rest.len() < usize::MAX);
}

/// A request to exit ends the script: once a link has run, or where no link
/// follows, nothing runs any more.
pub proof fn law_exit_ends_the_script(script: ScriptView, run: ScriptRun, status: i32)
    requires
        script.seq.len() <= usize::MAX,
        run_wf(script, run),
        run.chain < script.seq.len(),
        run.link > 0 || script.seq[run.chain as int].rest.len() == 0,
    ensures
        action_at(script, advanced(script, run, status, true)) == ScriptActionView::Done(status),
{
}

/// A script of one pipeline comes to the pipeline's status.
pub proof fn law_one_pipeline_decides(script: ScriptView, status: i32, exiting: bool)
    requires
        script.seq.len() == 1,
        script.seq[0].rest.len() == 0,
    ensures
        ({
            let start = ScriptRun { chain: 0, link: 0, status: 0 };
            &&& action_at(script, start) == ScriptActionView::Run(script.seq[0].first)
            &&& action_at(script, advanced(script, start, status, exiting))
                == ScriptActionView::Done(status)
        }),
{
}

/// The run goes on at the next link that its connector lets run, passing over
/// the others; without one it goes on with the next chain. The status is that of
/// the pipeline that ended.
pub proof fn law_chains_go_on(script: ScriptView, run: ScriptRun, status: i32, k: int)
    requires
        script.seq.len() <= usize::MAX,
        forall|c: int| 0 <= c < script.seq.len() ==> (#[trigger] script.seq[c]).rest.len() < usize::MAX,
        run_wf(script, run),
        run.chain < script.seq.len(),
        run.link <= k <= script.seq[run.chain as int].rest.len(),
        forall|j: int|
            run.link <= j < k ==> (if status == 0 {
                (#[trigger] script.seq[run.chain as int].rest[j]).0 is Or
            } else {
                script.seq[run.chain as int].rest[j].0 is And
            }),
        k < script.seq[run.chain as int].rest.len() ==> if status == 0 {
            script.seq[run.chain as int].rest[k].0 is And
        } else {
            script.seq[run.chain as int].rest[k].0 is Or
        },
    ensures
        ({
            let rest = script.seq[run.chain as int].rest;
            let next = advanced(script, run, status, false);
            &&& next.status == status
            &&& k < rest.len() ==> {
                &&& next.chain == run.chain
                &&& next.link == k + 1
                &&& action_at(script, next) == ScriptActionView::Run(rest[k].1)
            }
            &&& k == rest.len() ==> {
                &&& next.chain == run.chain + 1
                &&& next.link == 0
                &&& action_at(script, next) == if next.chain < script.seq.len() {
                    ScriptActionView::Run(script.seq[next.chain as int].first)
                } else {
                    ScriptActionView::Done(status)
                }
            }
        }),
{
    let rest = script.seq[run.chain as int].rest;
    assert(rest.len() < usize::MAX);
    law_next_link_is_first(rest, run.link as int, status, false);
    if let Some(i) = next_link(rest, run.link as int, status, false) {
        if i < k {
            assert(!admits(rest[i].0, status));
        }
        if k < i {
            assert(!admits(rest[k].0, status));
        }
    } else if k < rest.len() {
        assert(!admits(rest[k].0, status));
    }
}

/// Where the first pipeline of a chain asked to exit, the link right behind it
/// still runs if its connector lets it; else the script is over.
pub proof fn law_exit_in_the_first_pipeline(script: ScriptView, run: ScriptRun, status: i32)
    requires
        script.seq.len() <= usize::MAX,
        run_wf(script, run),
        run.chain < script.seq.len(),
        run.link == 0,
        script.seq[run.chain as int].rest.len() > 0,
    ensures
        ({
            let link = script.seq[run.chain as int].rest[0];
            action_at(script, advanced(script, run, status, true)) == if (status == 0 && link.0 is And)
                || (status != 0 && link.0 is Or) {
                ScriptActionView::Run(link.1)
            } else {
                ScriptActionView::Done(status)
            }
        }),
{
    let rest = script.seq[run.chain as int].rest;
    assert(rest[0] == script.seq[run.chain as int].rest[0]);
    assert(next_link(rest, 0, status, true) == if admits(rest[0].0, status) {
        Some(0int)
    } else {
        None
    });
}

} // verus!
