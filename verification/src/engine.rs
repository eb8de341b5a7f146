//! The decision engine and update executor: walks the filtered map one
//! dependency at a time, routes each to an upgrade either unconditionally
//! (automatic mode) or by an operator decision (interactive mode), and ends
//! a run that was not quit with exactly one consistency-restore step.
//!
//! The engine only decides; the caller performs the upgrade and restore
//! commands it hands out and feeds operator input back in.

use vstd::prelude::*;

use crate::aggregate::{clone_projects, entries_view, AggMap};
use crate::dep::{DepView, Dependency};
use crate::text::{trim_bounds, trim_ws};

verus! {

/// One operator decision, read from the interactive channel.
#[derive(Clone, Copy, Debug, PartialEq, Eq, Structural)]
pub enum Action {
    /// Upgrade this dependency in every owning project.
    Confirm,
    /// Leave this dependency alone.
    Deny,
    /// Abandon the rest of the run, skipping the restore step.
    Quit,
    /// Anything unrecognized: ask again.
    Other,
}

/// Case-insensitive match of `a` against a lowercase ASCII letter `b`.
pub open spec fn eqi_char(a: char, b: char) -> bool {
    a == b || (0x41 <= a as int <= 0x5A && a as int + 0x20 == b as int)
}

/// Case-insensitive match of `s` against a lowercase ASCII keyword `t`.
pub open spec fn eqi(s: Seq<char>, t: Seq<char>) -> bool {
    s.len() == t.len() && forall|i: int| 0 <= i < s.len() ==> eqi_char(s[i], t[i])
}

/// The decision an input line denotes: surrounding whitespace is ignored,
/// case is folded, `y`/`yes` confirm, `n`/`no` deny, `q`/`quit` quit, and
/// anything else is unrecognized.
pub open spec fn decision_of(input: Seq<char>) -> Action {
    let s = trim_ws(input);
    if eqi(s, "y"@) || eqi(s, "yes"@) {
        Action::Confirm
    } else if eqi(s, "n"@) || eqi(s, "no"@) {
        Action::Deny
    } else if eqi(s, "q"@) || eqi(s, "quit"@) {
        Action::Quit
    } else {
        Action::Other
    }
}

/// Case-insensitive comparison of `s[start..end]` with the keyword `kw`.
fn matches_kw(s: &str, start: usize, end: usize, kw: &str) -> (r: bool)
    requires
        start <= end <= s@.len(),
    ensures
        r == eqi(s@.subrange(start as int, end as int), kw@),
{
    let m = kw.unicode_len();
    let ghost sub = s@.subrange(start as int, end as int);
    if end - start != m {
        return false;
    }
    let mut t: usize = 0;
    while t < m
        invariant
            m == kw@.len(),
            start <= end <= s@.len(),
            end - start == m,
            t <= m,
            sub == s@.subrange(start as int, end as int),
            forall|u: int| 0 <= u < t ==> eqi_char(sub[u], kw@[u]),
        decreases m - t,
    {
        let a = s.get_char(start + t) as u32;
        let b = kw.get_char(t) as u32;
        proof {
            assert(sub[t as int] == s@[start + t]);
        }
        if !(a == b || (0x41 <= a && a <= 0x5A && a + 0x20 == b)) {
            proof {
                assert(!eqi_char(sub[t as int], kw@[t as int]));
            }
            return false;
        }
        t += 1;
    }
    true
}

impl Action {
    /// Classifies one line of operator input.
    pub fn from_input(line: &str) -> (a: Action)
        ensures
            a == decision_of(line@),
    {
        let bounds = trim_bounds(line);
        let i = bounds.0;
        let j = bounds.1;
        if matches_kw(line, i, j, "y") || matches_kw(line, i, j, "yes") {
            Action::Confirm
        } else if matches_kw(line, i, j, "n") || matches_kw(line, i, j, "no") {
            Action::Deny
        } else if matches_kw(line, i, j, "q") || matches_kw(line, i, j, "quit") {
            Action::Quit
        } else {
            Action::Other
        }
    }
}

/// One upgrade operation to hand to the external tool: bump `dependency` to
/// `version` in `project`, skipping the tool's own consistency pre-check.
pub struct UpgradeCommand {
    pub project: String,
    pub dependency: String,
    pub version: String,
}

/// Mathematical image of an [`UpgradeCommand`].
pub struct UpgradeCommandV {
    pub project: Seq<char>,
    pub dependency: Seq<char>,
    pub version: Seq<char>,
}

impl View for UpgradeCommand {
    type V = UpgradeCommandV;

    open spec fn view(&self) -> UpgradeCommandV {
        UpgradeCommandV {
            project: self.project@,
            dependency: self.dependency@,
            version: self.version@,
        }
    }
}

/// The views of a sequence of owned upgrade commands.
pub open spec fn cmds_view(v: Seq<UpgradeCommand>) -> Seq<UpgradeCommandV> {
    v.map_values(|c: UpgradeCommand| c@)
}

/// The upgrade commands one map entry calls for: one per owning project, in
/// order, each bumping the dependency to its latest version.
pub open spec fn cmds_of(e: (DepView, Seq<Seq<char>>)) -> Seq<UpgradeCommandV> {
    Seq::new(
        e.1.len(),
        |i: int| UpgradeCommandV { project: e.1[i], dependency: e.0.name, version: e.0.latest },
    )
}

/// Builds the upgrade commands for one dependency marked for upgrade: one
/// per owning project, in order, at the dependency's latest version.
pub fn update_dependency(dependency: &Dependency, projects: &Vec<String>) -> (cmds: Vec<
    UpgradeCommand,
>)
    ensures
        cmds_view(cmds@) == cmds_of((dependency@, projects.deep_view())),
{
    let n = projects.len();
    let mut cmds: Vec<UpgradeCommand> = Vec::new();
    let mut i: usize = 0;
    while i < n
        invariant
            n == projects@.len(),
            i <= n,
            cmds@.len() == i,
            forall|t: int|
                0 <= t < i ==> (#[trigger] cmds@[t])@ == (UpgradeCommandV {
                    project: projects@[t]@,
                    dependency: dependency@.name,
                    version: dependency@.latest,
                }),
        decreases n - i,
    {
        cmds.push(
            UpgradeCommand {
                project: projects[i].clone(),
                dependency: dependency.name.clone(),
                version: dependency.latest.clone(),
            },
        );
        i += 1;
    }
    proof {
        assert(cmds_view(cmds@) =~~= cmds_of((dependency@, projects.deep_view())));
    }
    cmds
}

/// What the engine shows at an interactive prompt: the dependency's name,
/// its resolved and latest versions, and the owning projects.
pub struct PromptInfo {
    pub name: String,
    pub resolved: String,
    pub latest: String,
    pub projects: Vec<String>,
}

/// Mathematical image of a [`PromptInfo`].
pub struct PromptInfoV {
    pub name: Seq<char>,
    pub resolved: Seq<char>,
    pub latest: Seq<char>,
    pub projects: Seq<Seq<char>>,
}

impl View for PromptInfo {
    type V = PromptInfoV;

    open spec fn view(&self) -> PromptInfoV {
        PromptInfoV {
            name: self.name@,
            resolved: self.resolved@,
            latest: self.latest@,
            projects: self.projects.deep_view(),
        }
    }
}

/// The prompt for one map entry.
pub open spec fn prompt_of(e: (DepView, Seq<Seq<char>>)) -> PromptInfoV {
    PromptInfoV { name: e.0.name, resolved: e.0.resolved, latest: e.0.latest, projects: e.1 }
}

/// What the caller must do next to advance the run.
pub enum Step {
    /// Run these upgrade commands, then step again.
    Upgrade(Vec<UpgradeCommand>),
    /// Show this prompt, read a decision, and hand it to `decide`.
    Prompt(PromptInfo),
    /// Run the consistency-restore operation, then step again.
    Restore,
    /// The run is over: either everything was processed or it was quit.
    Done,
}

/// Mathematical image of a [`Step`].
pub enum StepV {
    Upgrade(Seq<UpgradeCommandV>),
    Prompt(PromptInfoV),
    Restore,
    Done,
}

impl View for Step {
    type V = StepV;

    open spec fn view(&self) -> StepV {
        match self {
            Step::Upgrade(cmds) => StepV::Upgrade(cmds_view(cmds@)),
            Step::Prompt(p) => StepV::Prompt(p@),
            Step::Restore => StepV::Restore,
            Step::Done => StepV::Done,
        }
    }
}

/// What one decision did with the current dependency.
pub enum Outcome {
    /// Confirmed: run these upgrade commands.
    Install(Vec<UpgradeCommand>),
    /// Denied: nothing to run, the walk moves on.
    Skipped,
    /// Quit: the run is abandoned, restore included.
    Halted,
    /// Unrecognized input: show the same prompt again.
    Reprompt,
}

/// Mathematical image of an [`Outcome`].
pub enum OutcomeV {
    Install(Seq<UpgradeCommandV>),
    Skipped,
    Halted,
    Reprompt,
}

impl View for Outcome {
    type V = OutcomeV;

    open spec fn view(&self) -> OutcomeV {
        match self {
            Outcome::Install(cmds) => OutcomeV::Install(cmds_view(cmds@)),
            Outcome::Skipped => OutcomeV::Skipped,
            Outcome::Halted => OutcomeV::Halted,
            Outcome::Reprompt => OutcomeV::Reprompt,
        }
    }
}

/// Mathematical image of an [`Engine`].
pub struct EngineV {
    pub entries: Seq<(DepView, Seq<Seq<char>>)>,
    pub automatic: bool,
    pub idx: int,
    pub quit: bool,
    pub restored: bool,
}

/// The engine's position stays within its entries.
pub open spec fn engine_wf(e: EngineV) -> bool {
    0 <= e.idx <= e.entries.len()
}

/// The engine sits at a prompt: interactive, not finished, not quit.
pub open spec fn prompting(e: EngineV) -> bool {
    !e.quit && !e.restored && !e.automatic && e.idx < e.entries.len()
}

/// What `step` hands the caller in state `e`.
pub open spec fn step_view(e: EngineV) -> StepV {
    if e.quit || e.restored {
        StepV::Done
    } else if e.idx >= e.entries.len() {
        StepV::Restore
    } else if e.automatic {
        StepV::Upgrade(cmds_of(e.entries[e.idx]))
    } else {
        StepV::Prompt(prompt_of(e.entries[e.idx]))
    }
}

/// The state after `step` in state `e`: automatic mode advances past the
/// upgraded entry, the restore happens at most once, and a prompt waits for
/// a decision.
pub open spec fn step_next(e: EngineV) -> EngineV {
    if e.quit || e.restored {
        e
    } else if e.idx >= e.entries.len() {
        EngineV { restored: true, ..e }
    } else if e.automatic {
        EngineV { idx: e.idx + 1, ..e }
    } else {
        e
    }
}

/// The state after deciding `a` at a prompt: confirm and deny move past the
/// entry, quit ends the run, and anything else stays at the prompt. Outside
/// a prompt a decision changes nothing.
pub open spec fn decide_next(e: EngineV, a: Action) -> EngineV {
    if !prompting(e) {
        e
    } else {
        match a {
            Action::Confirm => EngineV { idx: e.idx + 1, ..e },
            Action::Deny => EngineV { idx: e.idx + 1, ..e },
            Action::Quit => EngineV { quit: true, ..e },
            Action::Other => e,
        }
    }
}

/// What `decide` hands the caller for decision `a` in state `e`.
pub open spec fn decide_outcome(e: EngineV, a: Action) -> OutcomeV {
    if !prompting(e) {
        OutcomeV::Reprompt
    } else {
        match a {
            Action::Confirm => OutcomeV::Install(cmds_of(e.entries[e.idx])),
            Action::Deny => OutcomeV::Skipped,
            Action::Quit => OutcomeV::Halted,
            Action::Other => OutcomeV::Reprompt,
        }
    }
}

/// Walks the selected dependencies in map order and decides each one's
/// fate; the caller performs the commands.
pub struct Engine {
    pub entries: Vec<(Dependency, Vec<String>)>,
    pub automatic: bool,
    pub idx: usize,
    pub quit: bool,
    pub restored: bool,
}

impl View for Engine {
    type V = EngineV;

    open spec fn view(&self) -> EngineV {
        EngineV {
            entries: entries_view(self.entries@),
            automatic: self.automatic,
            idx: self.idx as int,
            quit: self.quit,
            restored: self.restored,
        }
    }
}

impl Engine {
    /// Starts a run over the selected dependencies, in map order.
    pub fn new(m: AggMap, automatic: bool) -> (e: Engine)
        ensures
            e@ == (EngineV {
                entries: m@,
                automatic: automatic,
                idx: 0,
                quit: false,
                restored: false,
            }),
            engine_wf(e@),
    {
        Engine { entries: m.entries, automatic, idx: 0, quit: false, restored: false }
    }

    /// What the caller must do next; advances the engine past automatic
    /// upgrades and marks the one restore as issued when it hands it out.
    pub fn step(&mut self) -> (s: Step)
        ensures
            final(self)@ == step_next(old(self)@),
            s@ == step_view(old(self)@),
    {
        if self.quit || self.restored {
            Step::Done
        } else if self.idx >= self.entries.len() {
            self.restored = true;
            Step::Restore
        } else if self.automatic {
            let e = &self.entries[self.idx];
            let cmds = update_dependency(&e.0, &e.1);
            proof {
                assert(self@.entries[self.idx as int] == (e.0@, e.1.deep_view()));
            }
            self.idx = self.idx + 1;
            Step::Upgrade(cmds)
        } else {
            let e = &self.entries[self.idx];
            let info = PromptInfo {
                name: e.0.name.clone(),
                resolved: e.0.resolved.clone(),
                latest: e.0.latest.clone(),
                projects: clone_projects(&e.1),
            };
            proof {
                assert(self@.entries[self.idx as int] == (e.0@, e.1.deep_view()));
            }
            Step::Prompt(info)
        }
    }

    /// Applies one operator decision to the dependency currently prompted.
    pub fn decide(&mut self, a: Action) -> (o: Outcome)
        ensures
            final(self)@ == decide_next(old(self)@, a),
            o@ == decide_outcome(old(self)@, a),
    {
        let at_prompt = !self.quit && !self.restored && !self.automatic && self.idx
            < self.entries.len();
        if !at_prompt {
            return Outcome::Reprompt;
        }
        match a {
            Action::Confirm => {
                let e = &self.entries[self.idx];
                let cmds = update_dependency(&e.0, &e.1);
                proof {
                    assert(self@.entries[self.idx as int] == (e.0@, e.1.deep_view()));
                }
                self.idx = self.idx + 1;
                Outcome::Install(cmds)
            },
            Action::Deny => {
                self.idx = self.idx + 1;
                Outcome::Skipped
            },
            Action::Quit => {
                self.quit = true;
                Outcome::Halted
            },
            Action::Other => Outcome::Reprompt,
        }
    }
}

/// Everything the external tool is asked to do over the rest of a run: the
/// upgrade commands, in order, and how many restore operations happen.
pub struct TraceV {
    pub upgrades: Seq<UpgradeCommandV>,
    pub restores: int,
}

/// Decreases measure for a run: the engine can only move toward its end.
pub open spec fn trace_measure(e: EngineV) -> int {
    if e.quit || e.restored {
        0
    } else if e.idx <= e.entries.len() {
        1 + (e.entries.len() - e.idx)
    } else {
        1
    }
}

/// The trace of a run driven from state `e`, with `actions` the operator's
/// future inputs, consumed one per prompt; a run that exhausts the inputs at
/// a prompt simply stops there.
pub open spec fn run_trace(e: EngineV, actions: Seq<Action>) -> TraceV
    decreases actions.len(), trace_measure(e),
{
    if e.quit || e.restored {
        TraceV { upgrades: Seq::empty(), restores: 0 }
    } else if e.idx < 0 || e.idx >= e.entries.len() {
        let rest = run_trace(EngineV { restored: true, ..e }, actions);
        TraceV { upgrades: rest.upgrades, restores: rest.restores + 1 }
    } else if e.automatic {
        let rest = run_trace(EngineV { idx: e.idx + 1, ..e }, actions);
        TraceV { upgrades: cmds_of(e.entries[e.idx]) + rest.upgrades, restores: rest.restores }
    } else if actions.len() == 0 {
        TraceV { upgrades: Seq::empty(), restores: 0 }
    } else {
        let a = actions[0];
        match a {
            Action::Confirm => {
                let rest = run_trace(EngineV { idx: e.idx + 1, ..e }, actions.skip(1));
                TraceV {
                    upgrades: cmds_of(e.entries[e.idx]) + rest.upgrades,
                    restores: rest.restores,
                }
            },
            Action::Deny => run_trace(EngineV { idx: e.idx + 1, ..e }, actions.skip(1)),
            Action::Quit => TraceV { upgrades: Seq::empty(), restores: 0 },
            Action::Other => run_trace(e, actions.skip(1)),
        }
    }
}

/// After a quit, nothing more happens: no upgrade command is issued and the
/// restore is skipped, whatever the operator enters afterwards.
pub proof fn lemma_after_quit(e: EngineV, actions: Seq<Action>)
    requires
        e.quit,
    ensures
        run_trace(e, actions).upgrades.len() == 0,
        run_trace(e, actions).restores == 0,
{
}

/// Entering quit at a prompt halts the entire run: zero further upgrade
/// commands and zero restore operations, whatever the operator enters for
/// the dependencies that remain.
pub proof fn lemma_quit_halts(e: EngineV, rest: Seq<Action>)
    requires
        engine_wf(e),
        prompting(e),
    ensures
        run_trace(e, seq![Action::Quit] + rest).upgrades.len() == 0,
        run_trace(e, seq![Action::Quit] + rest).restores == 0,
{
    let actions = seq![Action::Quit] + rest;
    assert(actions[0] == Action::Quit);
}

/// An interactive run whose every remaining dependency is resolved through
/// confirm or deny ends with exactly one restore.
pub proof fn lemma_resolved_run_restores_once(e: EngineV, actions: Seq<Action>)
    requires
        engine_wf(e),
        !e.quit,
        !e.restored,
        !e.automatic,
        actions.len() >= e.entries.len() - e.idx,
        forall|i: int|
            0 <= i < actions.len() ==> actions[i] == Action::Confirm || actions[i] == Action::Deny,
    ensures
        run_trace(e, actions).restores == 1,
    decreases e.entries.len() - e.idx,
{
    if e.idx >= e.entries.len() {
        assert(run_trace(EngineV { restored: true, ..e }, actions) == (TraceV {
            upgrades: Seq::empty(),
            restores: 0,
        }));
    } else {
        assert(actions.len() > 0);
        assert(actions[0] == Action::Confirm || actions[0] == Action::Deny);
        assert forall|i: int|
            0 <= i < actions.skip(1).len() implies actions.skip(1)[i] == Action::Confirm
            || actions.skip(1)[i] == Action::Deny by {
            assert(actions.skip(1)[i] == actions[i + 1]);
        }
        lemma_resolved_run_restores_once(EngineV { idx: e.idx + 1, ..e }, actions.skip(1));
    }
}

/// The upgrade commands of every entry from position `idx` on, in order.
pub open spec fn all_cmds(entries: Seq<(DepView, Seq<Seq<char>>)>, idx: int) -> Seq<UpgradeCommandV>
    decreases entries.len() - idx,
{
    if idx < 0 || idx >= entries.len() {
        Seq::empty()
    } else {
        cmds_of(entries[idx]) + all_cmds(entries, idx + 1)
    }
}

/// An automatic run upgrades every remaining entry, in map order, and then
/// restores exactly once.
pub proof fn lemma_auto_run(e: EngineV, actions: Seq<Action>)
    requires
        engine_wf(e),
        e.automatic,
        !e.quit,
        !e.restored,
    ensures
        run_trace(e, actions).upgrades == all_cmds(e.entries, e.idx),
        run_trace(e, actions).restores == 1,
    decreases e.entries.len() - e.idx,
{
    if e.idx >= e.entries.len() {
        assert(run_trace(EngineV { restored: true, ..e }, actions) == (TraceV {
            upgrades: Seq::empty(),
            restores: 0,
        }));
        assert(all_cmds(e.entries, e.idx) =~= Seq::<UpgradeCommandV>::empty());
    } else {
        lemma_auto_run(EngineV { idx: e.idx + 1, ..e }, actions);
        assert(run_trace(e, actions).upgrades == cmds_of(e.entries[e.idx]) + run_trace(
            EngineV { idx: e.idx + 1, ..e },
            actions,
        ).upgrades);
    }
}

} // verus!
