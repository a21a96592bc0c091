//! Running a plan: the lines to print and the commands to run, in
//! execution order.
use vstd::prelude::*;

use crate::config::{entries_map, entry_names, Config, Node};
use crate::graph::ImpactPlan;
use crate::render::named_command;
use crate::text::{contains_white_space, has_white_space, push_char, views};

verus! {

// ------------------------------------------------------------------
// Commands
// ------------------------------------------------------------------

/// What `format!("{s:?}")` gives for a string: the string quoted and
/// escaped as Rust's `Debug` writes it.
pub uninterp spec fn debug_text(s: Seq<char>) -> Seq<char>;

/// `<str as Debug>::fmt` through `format!("{s:?}")`.
#[verifier::external_body]
fn debug_quote(s: &str) -> (res: String)
    ensures
        res@ == debug_text(s@),
{
    format!("{s:?}")
}

/// An argument as shown: quoted when it holds whitespace.
pub open spec fn display_arg(a: Seq<char>) -> Seq<char> {
    if has_white_space(a) {
        debug_text(a)
    } else {
        a
    }
}

/// A command line as shown: its arguments separated by single spaces.
pub open spec fn command_text(args: Seq<Seq<char>>) -> Seq<char>
    decreases args.len(),
{
    if args.len() == 0 {
        Seq::empty()
    } else if args.len() == 1 {
        display_arg(args[0])
    } else {
        command_text(args.drop_last()).push(' ') + display_arg(args.last())
    }
}

/// Shows an argument vector as one line, quoting arguments that hold
/// whitespace.
pub fn display_command(command: &[String]) -> (res: String)
    ensures
        res@ == command_text(views(command@)),
{
    let mut out = String::new();
    let mut i: usize = 0;
    while i < command.len()
        invariant
            i <= command@.len(),
            out@ == command_text(views(command@.take(i as int))),
        decreases command@.len() - i,
    {
        let arg = &command[i];
        if i > 0 {
            push_char(&mut out, ' ');
        }
        if contains_white_space(arg.as_str()) {
            let quoted = debug_quote(arg.as_str());
            out.append(quoted.as_str());
        } else {
            out.append(arg.as_str());
        }
        proof {
            let t = views(command@.take(i + 1));
            assert(t.drop_last() =~= views(command@.take(i as int)));
            assert(t.last() == arg@);
            if i == 0 {
                assert(out@ =~= display_arg(arg@));
            }
        }
        i = i + 1;
    }
    assert(command@.take(command@.len() as int) =~= command@);
    out
}

// ------------------------------------------------------------------
// Steps
// ------------------------------------------------------------------

/// One step of running a plan.
/// Law: the command line shows the arguments in order, separated by one
/// space: the display of two lists one after the other is the display of
/// each, joined by a space; an argument is shown as it is unless it holds
/// whitespace, and quoted otherwise.
pub proof fn law_command_text(a: Seq<Seq<char>>, b: Seq<Seq<char>>, x: Seq<char>)
    requires
        a.len() > 0,
        b.len() > 0,
    ensures
        command_text(a + b) == command_text(a).push(' ') + command_text(b),
        command_text(seq![x]) == if has_white_space(x) { debug_text(x) } else { x },
    decreases b.len(),
{
    if b.len() == 1 {
        assert((a + b).drop_last() =~= a);
        assert((a + b).last() == b[0]);
    } else {
        law_command_text(a, b.drop_last(), x);
        assert((a + b).drop_last() =~= a + b.drop_last());
        assert((a + b).last() == b.last());
        let ca = command_text(a).push(' ');
        let cb = command_text(b.drop_last());
        assert((ca + cb).push(' ') + display_arg(b.last()) =~= ca + (cb.push(' ') + display_arg(b.last())));
    }
}

#[derive(Debug)]
pub enum RunStep {
    /// Print a line.
    Say(String),
    /// Print `line`, then run `argv` for `node`; a failure stops the run.
    Run { node: String, line: String, argv: Vec<String> },
}

/// `label: name: command`.
pub open spec fn step_line(label: Seq<char>, name: Seq<char>, cmd: Seq<char>) -> Seq<char> {
    label + name + ": "@ + cmd
}

/// The step for node `name`: the line of a dry run, or the line and the
/// command of a real one.
pub open spec fn step_ok(entries: Seq<(String, Node)>, dry_run: bool, name: Seq<char>, step: RunStep) -> bool {
    if dry_run {
        step matches RunStep::Say(m) && m@ == step_line("dry-run: "@, name, named_command(entries, name))
    } else {
        step matches RunStep::Run { node, line, argv } && node@ == name && line@ == step_line(
            "running: "@,
            name,
            named_command(entries, name),
        ) && argv@ == entries_map(entries)[name].command@
    }
}

/// The steps of running a plan: a notice when nothing is impacted;
/// otherwise one step per node, in execution order.
pub open spec fn run_steps_ok(entries: Seq<(String, Node)>, plan: ImpactPlan, dry_run: bool, steps: Seq<RunStep>) -> bool {
    let order = views(plan.execution_order@);
    if order.len() == 0 {
        &&& steps.len() == 1
        &&& steps[0] matches RunStep::Say(m) && m@ == "No impacted commands to run."@
    } else {
        &&& steps.len() == order.len()
        &&& forall|k: int| 0 <= k < order.len() ==> step_ok(entries, dry_run, order[k], #[trigger] steps[k])
    }
}

/// The steps of running a plan, in execution order.
pub fn run_steps(config: &Config, plan: &ImpactPlan, dry_run: bool) -> (res: Vec<RunStep>)
    requires
        forall|k: int| 0 <= k < plan.execution_order@.len() ==> entry_names(config@).contains(#[trigger] plan.execution_order@[k]@),
    ensures
        run_steps_ok(config@, *plan, dry_run, res@),
{
    let order = &plan.execution_order;
    let mut steps: Vec<RunStep> = Vec::new();
    if order.len() == 0 {
        steps.push(RunStep::Say(String::from_str("No impacted commands to run.")));
        return steps;
    }
    let mut i: usize = 0;
    while i < order.len()
        invariant
            order == plan.execution_order,
            forall|k: int| 0 <= k < plan.execution_order@.len() ==> entry_names(config@).contains(#[trigger] plan.execution_order@[k]@),
            i <= order@.len(),
            steps@.len() == i,
            forall|k: int| 0 <= k < i ==> step_ok(config@, dry_run, order@[k]@, #[trigger] steps@[k]),
        decreases order@.len() - i,
    {
        let name = &order[i];
        let node = crate::render::node_of(config, name.as_str());
        let command = display_command(node.command.as_slice());
        if dry_run {
            let mut line = String::from_str("dry-run: ");
            line.append(name.as_str());
            line.append(": ");
            line.append(command.as_str());
            steps.push(RunStep::Say(line));
        } else {
            let mut line = String::from_str("running: ");
            line.append(name.as_str());
            line.append(": ");
            line.append(command.as_str());
            steps.push(RunStep::Run { node: name.clone(), line, argv: copy_strings(&node.command) });
        }
        i = i + 1;
    }
    steps
}

/// A copy of a list of strings.
fn copy_strings(v: &Vec<String>) -> (res: Vec<String>)
    ensures
        res@ == v@,
{
    let mut out: Vec<String> = Vec::new();
    let mut k: usize = 0;
    while k < v.len()
        invariant
            k <= v@.len(),
            out@ == v@.take(k as int),
        decreases v@.len() - k,
    {
        out.push(v[k].clone());
        assert(v@.take(k + 1) =~= v@.take(k as int).push(v@[k as int]));
        k = k + 1;
    }
    assert(v@.take(v@.len() as int) =~= v@);
    out
}

/// What a failed command reports: the node and the exit status (a number,
/// or `signal`).
pub fn command_failure_message(node: &str, status: &str) -> (res: String)
    ensures
        res@ == "command for node '"@ + node@ + "' failed with status "@ + status@,
{
    let mut s = String::from_str("command for node '");
    s.append(node);
    s.append("' failed with status ");
    s.append(status);
    s
}

/// Law: a real run of a plan that impacts something has one step per node
/// of the execution order, in that order, and each step runs the command of
/// the configured node it names, under that node's name; a dry run has one
/// message per node of the execution order, naming that node.
pub proof fn law_each_step_runs_its_own_node(entries: Seq<(String, Node)>, plan: ImpactPlan, dry_run: bool, steps: Seq<RunStep>)
    requires
        run_steps_ok(entries, plan, dry_run, steps),
        plan.execution_order@.len() > 0,
    ensures
        steps.len() == plan.execution_order@.len(),
        forall|k: int| 0 <= k < steps.len() ==> (#[trigger] steps[k] is Run <==> !dry_run),
        forall|k: int|
            0 <= k < steps.len() && #[trigger] steps[k] is Run ==> steps[k]->Run_node@ == plan.execution_order@[k]@
                && steps[k]->Run_argv@ == entries_map(entries)[steps[k]->Run_node@].command@
                && steps[k]->Run_line@ == "running: "@ + steps[k]->Run_node@ + ": "@ + command_text(
                views(entries_map(entries)[steps[k]->Run_node@].command@),
            ),
        forall|k: int|
            0 <= k < steps.len() && #[trigger] steps[k] is Say ==> steps[k]->Say_0@ == "dry-run: "@
                + plan.execution_order@[k]@ + ": "@ + command_text(
                views(entries_map(entries)[plan.execution_order@[k]@].command@),
            ),
{
    let order = views(plan.execution_order@);
    assert forall|k: int| 0 <= k < steps.len() implies #[trigger] step_ok(entries, dry_run, order[k], steps[k])
        && order[k] == plan.execution_order@[k]@ by {}
}

/// How a command of a run ended: successfully, with a failing exit code
/// (as text), by a signal, or without starting.
#[derive(Debug)]
pub enum CommandEnd {
    Success,
    Exit(String),
    Signal,
    NotStarted,
}

/// The message for a command of `node` that could not be started.
pub fn start_failure_message(node: &str) -> (res: String)
    ensures
        res@ == "failed to start command for node '"@ + node@ + "'"@,
{
    let mut s = String::from_str("failed to start command for node '");
    s.append(node);
    s.append("'");
    s
}

/// The failure that a command of `node` ending as `end` stops a run with,
/// if any.
pub open spec fn end_failure(node: Seq<char>, end: CommandEnd) -> Option<Seq<char>> {
    match end {
        CommandEnd::Success => None,
        CommandEnd::Exit(code) => Some("command for node '"@ + node + "' failed with status "@ + code@),
        CommandEnd::Signal => Some("command for node '"@ + node + "' failed with status "@ + "signal"@),
        CommandEnd::NotStarted => Some("failed to start command for node '"@ + node + "'"@),
    }
}

/// What follows a command of `node`: the run goes on after a success, and
/// stops with the failure message otherwise, naming the exit code,
/// `signal`, or that the command did not start.
pub fn after_command(node: &str, end: &CommandEnd) -> (res: Result<(), String>)
    ensures
        match res {
            Ok(()) => end_failure(node@, *end) is None,
            Err(m) => end_failure(node@, *end) == Some(m@),
        },
{
    match end {
        CommandEnd::Success => Ok(()),
        CommandEnd::Exit(code) => Err(command_failure_message(node, code.as_str())),
        CommandEnd::Signal => Err(command_failure_message(node, "signal")),
        CommandEnd::NotStarted => Err(start_failure_message(node)),
    }
}

/// The failure that a step ending as `end` stops a run with: a message
/// step never fails; a command step fails as `end_failure` says.
pub open spec fn step_failure(step: RunStep, end: CommandEnd) -> Option<Seq<char>> {
    match step {
        RunStep::Say(_) => None,
        RunStep::Run { node, .. } => end_failure(node@, end),
    }
}

/// Where a run of `steps` stands once its steps ended as `ends`, one end
/// for each step it carried out: how many steps are done, and the failure
/// that stopped it. A run carries its steps out in order and stops at the
/// first that fails; ends given after it stopped change nothing.
pub open spec fn run_trace(steps: Seq<RunStep>, ends: Seq<CommandEnd>) -> (int, Option<Seq<char>>)
    decreases ends.len(),
{
    if ends.len() == 0 {
        (0, None)
    } else {
        let prev = run_trace(steps, ends.drop_last());
        if prev.1 is Some || prev.0 >= steps.len() {
            prev
        } else {
            (prev.0 + 1, step_failure(steps[prev.0], ends.last()))
        }
    }
}

/// The failure message of a run, as text.
pub open spec fn failure_text(f: Option<String>) -> Option<Seq<char>> {
    match f {
        Some(m) => Some(m@),
        None => None,
    }
}

struct RunState {
    done: usize,
    failure: Option<String>,
    ends: Ghost<Seq<CommandEnd>>,
}

/// A run in progress: the steps to carry out, one after the other, until
/// all are done or one fails.
pub struct RunProgress {
    steps: Vec<RunStep>,
    state: RunState,
}

impl RunProgress {
    #[verifier::type_invariant]
    spec fn inv(self) -> bool {
        &&& self.state.done <= self.steps@.len()
        &&& run_trace(self.steps@, self.state.ends@) == (self.state.done as int, failure_text(self.state.failure))
    }

    /// The steps of the run.
    pub closed spec fn steps(&self) -> Seq<RunStep> {
        self.steps@
    }

    /// How each step carried out so far ended, in order.
    pub closed spec fn ends(&self) -> Seq<CommandEnd> {
        self.state.ends@
    }

    /// Where the run stands: `run_trace` of its steps and ends.
    pub open spec fn status(&self) -> (int, Option<Seq<char>>) {
        run_trace(self.steps(), self.ends())
    }

    /// The run is over: a step failed, or every step is done.
    pub open spec fn is_over(&self) -> bool {
        self.status().1 is Some || self.status().0 >= self.steps().len()
    }

    /// Starts the run of a plan: the steps of `run_steps`, none done yet.
    pub fn new(config: &Config, plan: &ImpactPlan, dry_run: bool) -> (res: RunProgress)
        requires
            forall|k: int| 0 <= k < plan.execution_order@.len() ==> entry_names(config@).contains(#[trigger] plan.execution_order@[k]@),
        ensures
            run_steps_ok(config@, *plan, dry_run, res.steps()),
            res.ends() == Seq::<CommandEnd>::empty(),
    {
        let steps = run_steps(config, plan, dry_run);
        RunProgress { steps, state: RunState { done: 0, failure: None, ends: Ghost(Seq::empty()) } }
    }

    /// The step to carry out next, or `None` once the run is over.
    pub fn current(&self) -> (res: Option<&RunStep>)
        ensures
            match res {
                Some(step) => !self.is_over() && 0 <= self.status().0 < self.steps().len() && *step
                    == self.steps()[self.status().0],
                None => self.is_over(),
            },
    {
        proof {
            use_type_invariant(self);
        }
        if self.state.failure.is_some() || self.state.done >= self.steps.len() {
            None
        } else {
            Some(&self.steps[self.state.done])
        }
    }

    /// Records how the current step ended.
    pub fn record(&mut self, end: CommandEnd)
        requires
            !old(self).is_over(),
        ensures
            final(self).steps() == old(self).steps(),
            final(self).ends() == old(self).ends().push(end),
    {
        proof {
            use_type_invariant(&*self);
            assert(self.state.done < self.steps@.len());
            assert(self.state.done < self.steps.len());
        }
        let done = self.state.done + 1;
        let ghost ends = self.state.ends@;
        let failure = match &self.steps[self.state.done] {
            RunStep::Say(_) => None,
            RunStep::Run { node, .. } => match after_command(node.as_str(), &end) {
                Ok(()) => None,
                Err(m) => Some(m),
            },
        };
        proof {
            assert(ends.push(end).drop_last() =~= ends);
        }
        self.state = RunState { done, failure, ends: Ghost(ends.push(end)) };
    }

    /// How the run ended: `Ok` when no step failed, the first failure
    /// otherwise.
    pub fn result(&self) -> (res: Result<(), String>)
        requires
            self.is_over(),
        ensures
            match res {
                Ok(()) => self.status().1 is None,
                Err(m) => self.status().1 == Some(m@),
            },
    {
        proof {
            use_type_invariant(self);
        }
        match &self.state.failure {
            Some(m) => Err(m.clone()),
            None => Ok(()),
        }
    }
}

/// Law: a run carries its steps out in order and stops at the first that
/// fails. After the ends `ends`, the steps done are the first ones, one per
/// end, none of them failing but possibly the last; the run failed exactly
/// when that last one failed, with its failure; and it is over, or asks for
/// the next step, as the steps left say. So a run succeeds only when every
/// step is carried out and none fails, and no step starts after a failure.
pub proof fn law_run_stops_at_first_failure(steps: Seq<RunStep>, ends: Seq<CommandEnd>)
    ensures
        0 <= run_trace(steps, ends).0 <= ends.len(),
        run_trace(steps, ends).0 <= steps.len(),
        forall|k: int| 0 <= k < run_trace(steps, ends).0 - 1 ==> step_failure(#[trigger] steps[k], ends[k]) is None,
        run_trace(steps, ends).1 is None ==> {
            &&& run_trace(steps, ends).0 == if ends.len() < steps.len() { ends.len() as int } else { steps.len() as int }
            &&& forall|k: int| 0 <= k < run_trace(steps, ends).0 ==> step_failure(#[trigger] steps[k], ends[k]) is None
        },
        run_trace(steps, ends).1 is Some ==> {
            &&& run_trace(steps, ends).0 >= 1
            &&& run_trace(steps, ends).1 == step_failure(
                steps[run_trace(steps, ends).0 - 1],
                ends[run_trace(steps, ends).0 - 1],
            )
        },
    decreases ends.len(),
{
    if ends.len() > 0 {
        let e0 = ends.drop_last();
        law_run_stops_at_first_failure(steps, e0);
        assert forall|k: int| 0 <= k < e0.len() implies e0[k] == ends[k] by {}
    }
}

} // verus!
