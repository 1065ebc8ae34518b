//! `cid project`: build the directory you are standing in, and install what it
//! needs, without knowing beforehand what it is written in.
//!
//! What is decided here is what to say and what to run; the caller reads the
//! directory, runs the commands, and hands back what each of them came to.

use vstd::prelude::*;

use crate::duration::Duration;
use crate::escapes::{plain, stripped};
use crate::project::report;
use crate::project::report::{
    a_row_is_cut_where_its_text_is, activity, activity_text, greatest, layout, listing, name_ends, plain_row, plain_slot,
    plan_listing, prefix_text, prefixes, status_is_its_parts, status_line, status_text, summary,
    summary_text, the_greatest_is_one_of_them, tree_line, tree_row, tree_text, truncated, Doing, Node, Outcome, Slot, Status, DIM, INDENT,
};
use crate::project::{commands, mise_exec, steps_of, through_mise, Command, Plan, Step};
use crate::term::{paint, painted, styled};
use crate::text::{join, joined, padded, spaces, texts, views};
use crate::width::str_cells;

verus! {

/// What a directory is recognised by. Of all toolchains, only mise changes how
/// the others are run.
#[derive(Debug, Clone, Copy, PartialEq, Eq, Structural)]
pub enum Toolchain {
    Mise,
    Other,
}

/// What is said in a directory holding nothing any toolchain recognises.
pub open spec fn unrecognised_text(dir: Seq<char>, color: bool) -> Seq<char> {
    painted("nothing recognisable in "@ + dir, DIM, color)
}

/// What is said in a directory holding nothing any toolchain recognises. Not a
/// failure: asking is how you find out.
pub fn unrecognised(dir: &str, color: bool) -> (line: String)
    ensures
        line@ == unrecognised_text(dir@, color),
{
    let mut text = "nothing recognisable in ".to_string();
    text.append(dir);
    paint(text.as_str(), DIM, color)
}

/// What installing a project's dependencies comes to.
pub enum Deps {
    /// There is nothing to install, and this to say on stderr.
    Unrecognised(String),
    /// The dependencies that the manifests name are to be listed.
    Dump,
    /// The commands are not to be run, but printed.
    Print(Vec<String>),
    /// The plan is to be run.
    Run(Plan),
}

/// `cid project deps` in `dir`: install every detected toolchain's
/// dependencies, by `plan`.
///
/// `dump` reads the manifests instead of running anything, and `dry_run` names
/// the commands the run would have been.
pub fn deps(
    dir: &str,
    detections: &[Toolchain],
    plan: Plan,
    dry_run: bool,
    dump: bool,
    color: bool,
) -> (deps: Deps)
    ensures
        match deps {
            Deps::Unrecognised(line) => detections@.len() == 0 && line@ == unrecognised_text(
                dir@,
                color,
            ),
            Deps::Dump => detections@.len() > 0 && dump,
            Deps::Print(lines) => detections@.len() > 0 && !dump && dry_run && texts(lines@)
                == listing(commands(plan.all()), color),
            Deps::Run(run) => detections@.len() > 0 && !dump && !dry_run && run == plan,
        },
{
    if detections.is_empty() {
        return Deps::Unrecognised(unrecognised(dir, color));
    }
    if dump {
        return Deps::Dump;
    }
    if dry_run {
        return Deps::Print(plan_listing(plan.steps().as_slice(), color));
    }
    Deps::Run(plan)
}

/// What a project is built with.
pub enum Build {
    /// More than one file says how, and nothing says which to follow.
    Ambiguous(Vec<String>),
    Steps(Vec<Step>),
}

/// What building a project comes to.
pub enum Building {
    /// The commands are not to be run, but printed.
    Print(Vec<String>),
    /// The steps are to be run one after the other.
    Run(Vec<Step>),
}

/// Why a project that `files` say how to build is not built.
pub open spec fn ambiguous_text(files: Seq<Seq<char>>) -> Seq<char> {
    joined(files, " and "@) + " both build this project — run the one you meant"@
}

/// Whether the project pins its tools with mise.
pub open spec fn pinned(detections: Seq<Toolchain>) -> bool {
    detections.contains(Toolchain::Mise)
}

/// The steps of a build as they are run.
pub open spec fn build_steps(
    steps: Seq<Command>,
    detections: Seq<Toolchain>,
    mise_on_path: bool,
) -> Seq<Command> {
    if pinned(detections) && mise_on_path {
        steps.map_values(|step: Command| mise_exec(step))
    } else {
        steps
    }
}

/// Run every build step through `mise exec` when the project pins its tools
/// with mise and mise is installed: the same resolution an activated shell
/// would have done, for one that has not activated it.
pub fn under_mise(steps: Vec<Step>, detections: &[Toolchain], mise_on_path: bool) -> (run: Vec<Step>)
    ensures
        commands(run@) == build_steps(commands(steps@), detections@, mise_on_path),
{
    let mut pinned = false;
    let mut i: usize = 0;
    while i < detections.len()
        invariant
            i <= detections@.len(),
            pinned == detections@.take(i as int).contains(Toolchain::Mise),
        decreases detections.len() - i,
    {
        let ghost seen = detections@.take(i as int);
        assert(detections@.take(i + 1) =~= seen.push(detections@[i as int]));
        proof {
            lemma_contains_push(seen, detections@[i as int], Toolchain::Mise);
        }
        if detections[i] == Toolchain::Mise {
            pinned = true;
        }
        i += 1;
    }
    assert(detections@.take(i as int) =~= detections@);
    if !pinned || !mise_on_path {
        return steps;
    }
    let run = all_through_mise(steps);
    assert(commands(run@) =~= commands(steps@).map_values(|step: Command| mise_exec(step)));
    run
}

proof fn lemma_contains_push(seen: Seq<Toolchain>, next: Toolchain, wanted: Toolchain)
    ensures
        seen.push(next).contains(wanted) <==> seen.contains(wanted) || next == wanted,
{
    let all = seen.push(next);
    if seen.contains(wanted) {
        let i = choose|i: int| 0 <= i < seen.len() && seen[i] == wanted;
        assert(all[i] == wanted);
    }
    if next == wanted {
        assert(all[seen.len() as int] == wanted);
    }
    if all.contains(wanted) && next != wanted {
        let i = choose|i: int| 0 <= i < all.len() && all[i] == wanted;
        assert(seen[i] == wanted);
    }
}

/// Every one of `steps`, run by mise.
fn all_through_mise(steps: Vec<Step>) -> (run: Vec<Step>)
    ensures
        run@.len() == steps@.len(),
        forall|i: int|
            0 <= i < run@.len() ==> (#[trigger] run@[i])@ == mise_exec(steps@[i]@) && run@[i].name
                == steps@[i].name,
{
    let ghost given = steps@;
    let mut run: Vec<Step> = Vec::new();
    for step in it: steps
        invariant
            it.seq() == given,
            run@.len() == it.index(),
            forall|k: int|
                0 <= k < run@.len() ==> (#[trigger] run@[k])@ == mise_exec(given[k]@)
                    && run@[k].name == given[k].name,
    {
        run.push(through_mise(step));
    }
    run
}

/// `cid project build`: run whatever building this project means, which `plan`
/// says. What cannot be built is an error, with the reason why not.
pub fn build(
    plan: Build,
    detections: &[Toolchain],
    mise_on_path: bool,
    dry_run: bool,
    color: bool,
) -> (building: Result<Building, String>)
    ensures
        match plan {
            Build::Ambiguous(files) => building matches Err(reason) && reason@ == ambiguous_text(
                texts(files@),
            ),
            Build::Steps(steps) => match building {
                Err(reason) => steps@.len() == 0 && reason@
                    == "nothing here builds: no task runner, and nothing detected that builds on its own"@,
                Ok(Building::Print(lines)) => steps@.len() > 0 && dry_run && texts(lines@)
                    == listing(
                    build_steps(commands(steps@), detections@, mise_on_path),
                    color,
                ),
                Ok(Building::Run(run)) => steps@.len() > 0 && !dry_run && commands(run@)
                    == build_steps(commands(steps@), detections@, mise_on_path),
            },
        },
{
    let steps = match plan {
        Build::Ambiguous(files) => {
            let mut reason = join(files.as_slice(), " and ");
            reason.append(" both build this project — run the one you meant");
            return Err(reason);
        },
        Build::Steps(steps) => {
            if steps.is_empty() {
                return Err(
                    "nothing here builds: no task runner, and nothing detected that builds on its own".to_string(),
                );
            }
            under_mise(steps, detections, mise_on_path)
        },
    };
    if dry_run {
        let all = references(&steps);
        return Ok(Building::Print(plan_listing(all.as_slice(), color)));
    }
    Ok(Building::Run(steps))
}

/// A reference to each of `steps`.
fn references(steps: &Vec<Step>) -> (all: Vec<&Step>)
    ensures
        steps_of(all@) == steps@,
{
    let mut all: Vec<&Step> = Vec::new();
    let mut i: usize = 0;
    while i < steps.len()
        invariant
            i <= steps@.len(),
            all@.len() == i,
            forall|k: int| 0 <= k < i ==> *(#[trigger] all@[k]) == steps@[k],
        decreases steps.len() - i,
    {
        all.push(&steps[i]);
        i += 1;
    }
    assert(steps_of(all@) =~= steps@);
    all
}

/// What is said before a command is run.
pub open spec fn announced(step: Command, color: bool) -> Seq<char> {
    painted("$ "@ + step.line(), DIM, color)
}

/// What is said before a command is run.
pub fn announce(step: &Step, color: bool) -> (line: String)
    ensures
        line@ == announced(step@, color),
{
    let mut text = "$ ".to_string();
    text.append(step.command_line().as_str());
    paint(text.as_str(), DIM, color)
}

/// What a build step that was handed the terminal came to.
#[derive(Debug, Clone, Copy, PartialEq, Eq)]
pub enum Ran {
    Exited { success: bool, code: Option<i32> },
    /// There is no such program.
    NotFound,
    /// It was not started for another reason.
    NotStarted,
}

/// How a build fails.
#[derive(Debug, PartialEq, Eq)]
pub enum Failure {
    /// With a message of its own.
    Message(String),
    /// With what kept the step from starting, which this says the context of.
    Context(String),
    /// With the status of a command that has said all there is to say.
    Reported(i32),
}

/// Whether `failed` is how a build fails on `step`, and none where it did not.
pub open spec fn build_failure(step: Step, ran: Ran, failed: Option<Failure>) -> bool {
    match ran {
        Ran::Exited { success: true, code } => failed is None,
        Ran::Exited { success: false, code } => failed matches Some(Failure::Reported(status))
            && status == (match code {
            Some(code) => code,
            None => 1,
        }),
        Ran::NotFound => failed matches Some(Failure::Message(text)) && text@ == "`"@
            + step.program@ + "` was not found on PATH"@,
        Ran::NotStarted => failed matches Some(Failure::Context(text)) && text@ == "running "@
            + step@.line(),
    }
}

/// The error that a result may be.
pub open spec fn failure_of(result: Result<(), Failure>) -> Option<Failure> {
    match result {
        Ok(_) => None,
        Err(failure) => Some(failure),
    }
}

/// Pass on the status of a build step that had the terminal handed to it.
pub fn inherit(step: &Step, ran: Ran) -> (result: Result<(), Failure>)
    ensures
        build_failure(*step, ran, failure_of(result)),
{
    match ran {
        Ran::Exited { success, code } => {
            if success {
                return Ok(());
            }
            let status: i32 = match code {
                Some(code) => code,
                None => 1,
            };
            Err(Failure::Reported(status))
        },
        Ran::NotFound => {
            let mut text = "`".to_string();
            text.append(step.program.as_str());
            text.append("` was not found on PATH");
            Err(Failure::Message(text))
        },
        Ran::NotStarted => {
            let mut text = "running ".to_string();
            text.append(step.command_line().as_str());
            Err(Failure::Context(text))
        },
    }
}

/// A build while it runs: its steps one after the other, since two of them
/// writing at once is unreadable. The first failure ends the run, since what
/// follows would be built against what did not.
pub struct BuildRun {
    steps: Vec<Step>,
    next: usize,
    failed: bool,
}

impl BuildRun {
    #[verifier::type_invariant]
    spec fn well_formed(self) -> bool {
        self.next <= self.steps@.len()
    }

    /// The steps of the build.
    pub closed spec fn steps(&self) -> Seq<Step> {
        self.steps@
    }

    /// How many of the steps have run.
    pub closed spec fn done(&self) -> nat {
        self.next as nat
    }

    /// Whether a step has failed.
    pub closed spec fn failed(&self) -> bool {
        self.failed
    }

    /// The step to run next; none when all have run, or one has failed.
    pub open spec fn current(&self) -> Option<Step> {
        if self.failed() || self.done() >= self.steps().len() {
            None
        } else {
            Some(self.steps()[self.done() as int])
        }
    }

    /// A build that none of its steps has run of.
    pub fn new(steps: Vec<Step>) -> (run: BuildRun)
        ensures
            run.steps() == steps@,
            run.done() == 0,
            !run.failed(),
    {
        BuildRun { steps, next: 0, failed: false }
    }

    /// The step to run next; none when all have run, or one has failed.
    pub fn step(&self) -> (step: Option<&Step>)
        ensures
            match step {
                Some(step) => self.current() == Some(*step),
                None => self.current() is None,
            },
    {
        if self.failed || self.next >= self.steps.len() {
            None
        } else {
            Some(&self.steps[self.next])
        }
    }

    /// Take what the step to run next came to. A build that is over stays so.
    pub fn ended(&mut self, ran: Ran) -> (result: Result<(), Failure>)
        ensures
            final(self).steps() == old(self).steps(),
            match old(self).current() {
                Some(step) => build_failure(step, ran, failure_of(result)) && final(self).done()
                    == old(self).done() + 1 && final(self).failed() == (result is Err),
                None => result is Ok && final(self).done() == old(self).done()
                    && final(self).failed() == old(self).failed(),
            },
    {
        proof {
            use_type_invariant(&*self);
        }
        if self.failed || self.next >= self.steps.len() {
            return Ok(());
        }
        let result = inherit(&self.steps[self.next], ran);
        if result.is_err() {
            self.failed = true;
        }
        self.next = self.next + 1;
        result
    }
}

/// What a command whose output was read came to.
#[derive(Debug)]
pub enum Finished {
    Exited { success: bool, code: Option<i32>, output: String },
    /// There is no such program.
    NotFound,
    /// It was not started, or not waited for, and `error` says why.
    Failed { error: String },
}

/// Whether `outcome` is what it means for `step` that its command came to
/// `finished`.
pub open spec fn outcome_of(step: Step, finished: Finished, outcome: Outcome) -> bool {
    &&& outcome.name == step.name
    &&& match finished {
        Finished::Exited { success: true, code, output } => outcome.status == Status::Done
            && outcome.output == output,
        Finished::Exited { success: false, code, output } => outcome.status == (Status::Failed {
            code,
        }) && outcome.output == output,
        Finished::NotFound => (outcome.status matches Status::Skipped { reason } && reason@
            == step.program@ + " not found"@) && outcome.output@.len() == 0,
        Finished::Failed { error } => outcome.status == (Status::Failed { code: None })
            && outcome.output == error,
    }
}

/// What it means for `step` that its command came to `finished`.
pub fn outcome(step: &Step, duration: Duration, finished: Finished) -> (outcome: Outcome)
    ensures
        outcome_of(*step, finished, outcome),
        outcome.duration == duration,
{
    let (status, output) = match finished {
        Finished::Exited { success, code, output } => {
            if success {
                (Status::Done, output)
            } else {
                (Status::Failed { code }, output)
            }
        },
        // A tool the project asks for and the machine does not have. Reported
        // rather than failed: it is a machine to install it on, not a run that
        // went wrong.
        Finished::NotFound => {
            let mut reason = step.program.clone();
            reason.append(" not found");
            (Status::Skipped { reason }, String::new())
        },
        Finished::Failed { error } => (Status::Failed { code: None }, error),
    };
    Outcome { name: step.name, status, output, duration }
}

/// A command is skipped only for want of its program, fails in every other way
/// of not succeeding, and what it wrote is kept as it wrote it.
pub proof fn only_a_missing_program_is_skipped(step: Step, finished: Finished, outcome: Outcome)
    requires
        outcome_of(step, finished, outcome),
    ensures
        outcome.status is Skipped <==> finished is NotFound,
        outcome.status is Done <==> (finished matches Finished::Exited { success, code, output }
            && success),
        finished matches Finished::Exited { success, code, output } ==> outcome.output == output,
{
}

/// What is said of a failed step: a heading that names it, and what it had to
/// say. Nothing of the others.
pub open spec fn detail(outcome: Outcome) -> Seq<Seq<char>> {
    if outcome.status is Failed && outcome.output@.len() > 0 {
        seq![""@, "── "@ + outcome.name@ + " ──"@, outcome.output@]
    } else {
        Seq::empty()
    }
}

/// What each failed step had to say, in plan order.
pub open spec fn details_text(outcomes: Seq<Outcome>) -> Seq<Seq<char>> {
    outcomes.map_values(|outcome: Outcome| detail(outcome)).flatten()
}

/// What each failed step had to say, under a heading naming it. Written as the
/// command wrote it, colour included, since it is the same output the user
/// would have seen had they run it themselves.
pub fn details(outcomes: &[Outcome]) -> (lines: Vec<String>)
    ensures
        texts(lines@) == details_text(outcomes@),
{
    let ghost all = outcomes@.map_values(|outcome: Outcome| detail(outcome));
    let mut lines: Vec<String> = Vec::new();
    let mut i: usize = 0;
    assert(all.take(0) =~= Seq::empty());
    assert(texts(lines@) =~= all.take(0).flatten());
    while i < outcomes.len()
        invariant
            i <= outcomes@.len(),
            all == outcomes@.map_values(|outcome: Outcome| detail(outcome)),
            texts(lines@) == all.take(i as int).flatten(),
        decreases outcomes.len() - i,
    {
        let ghost given = texts(lines@);
        let outcome = &outcomes[i];
        if outcome.failed() && !outcome.output.as_str().is_empty() {
            let mut heading = "── ".to_string();
            heading.append(outcome.name);
            heading.append(" ──");
            lines.push("".to_string());
            lines.push(heading);
            lines.push(outcome.output.clone());
        }
        proof {
            assert(texts(lines@) =~= given + detail(*outcome));
            assert(all.take(i + 1) =~= all.take(i as int).push(all[i as int]));
            all.take(i as int).lemma_flatten_push(all[i as int]);
        }
        i += 1;
    }
    assert(all.take(i as int) =~= all);
    lines
}

/// A run in which nothing failed has nothing to show again, whatever its steps
/// wrote.
pub proof fn no_failure_no_details(outcomes: Seq<Outcome>)
    requires
        forall|i: int| 0 <= i < outcomes.len() ==> !((#[trigger] outcomes[i]).status is Failed),
    ensures
        details_text(outcomes).len() == 0,
    decreases outcomes.len(),
{
    let all = outcomes.map_values(|outcome: Outcome| detail(outcome));
    if outcomes.len() > 0 {
        let before = outcomes.drop_last();
        assert forall|i: int| 0 <= i < before.len() implies !((
        #[trigger] before[i]).status is Failed) by {
            assert(before[i] == outcomes[i]);
        }
        no_failure_no_details(before);
        assert(all =~= before.map_values(|outcome: Outcome| detail(outcome)).push(
            detail(outcomes.last()),
        ));
        before.map_values(|outcome: Outcome| detail(outcome)).lemma_flatten_push(
            detail(outcomes.last()),
        );
    }
}

/// The place in the plan of the first step that waits for mise's.
pub open spec fn offset(plan: Plan) -> nat {
    if plan.mise is Some {
        1
    } else {
        0
    }
}

/// Whether the rest of a plan is run by mise. Only a mise that actually
/// installed can resolve it: wrapping it after a failed install replaces each
/// tool's own error with mise's.
pub open spec fn resolved(mise: Option<&Outcome>) -> bool {
    mise matches Some(outcome) && outcome.status is Done
}

/// What is run side by side once mise's own step, where the plan has one, came
/// to `mise`: each step with its place in the plan.
pub fn remaining(plan: Plan, mise: Option<&Outcome>) -> (steps: Vec<(usize, Step)>)
    ensures
        steps@.len() == plan.parallel@.len(),
        forall|i: int|
            0 <= i < steps@.len() ==> (#[trigger] steps@[i]).0 == offset(plan) + i
                && steps@[i].1@ == (if resolved(mise) {
                mise_exec(plan.parallel@[i]@)
            } else {
                plan.parallel@[i]@
            }),
{
    let offset: usize = if plan.mise.is_some() {
        1
    } else {
        0
    };
    let resolved = match mise {
        Some(outcome) => matches!(outcome.status, Status::Done),
        None => false,
    };
    let run = if resolved {
        all_through_mise(plan.parallel)
    } else {
        plan.parallel
    };
    let ghost given = run@;
    let count = run.len();
    let mut steps: Vec<(usize, Step)> = Vec::new();
    for step in it: run
        invariant
            it.seq() == given,
            given.len() == count,
            offset <= 1,
            steps@.len() == it.index(),
            forall|k: int|
                0 <= k < steps@.len() ==> (#[trigger] steps@[k]).0 == offset + k && steps@[k].1
                    == given[k],
    {
        let index = steps.len();
        assert(index < count);
        steps.push((offset + index, step));
    }
    steps
}

/// What is left to say when every step has finished, and the status to exit
/// with where it is not success.
#[derive(Debug)]
pub struct Conclusion {
    pub lines: Vec<String>,
    pub status: Option<i32>,
}

/// What a run comes to. What failed steps had to say is shown unless it was
/// `streamed`, and so has been seen already.
pub fn conclude(outcomes: &[Outcome], streamed: bool, elapsed: Duration, color: bool) -> (end:
    Conclusion)
    ensures
        texts(end.lines@) == (if streamed {
            Seq::empty()
        } else {
            details_text(outcomes@)
        }) + seq![""@] + summary_text(outcomes@, elapsed@, color),
        end.status == (if exists|i: int|
            0 <= i < outcomes@.len() && (#[trigger] outcomes@[i]).status is Failed {
            Some(1i32)
        } else {
            None
        }),
{
    let mut lines = if streamed {
        Vec::new()
    } else {
        details(outcomes)
    };
    let ghost shown = texts(lines@);
    assert(shown =~= if streamed {
        Seq::empty()
    } else {
        details_text(outcomes@)
    });
    lines.push("".to_string());
    let mut total = summary(outcomes, elapsed, color);
    let ghost said = texts(total@);
    lines.append(&mut total);
    assert(texts(lines@) =~= shown + seq![""@] + said);
    let mut status: Option<i32> = None;
    let mut i: usize = 0;
    while i < outcomes.len()
        invariant
            i <= outcomes@.len(),
            status == (if exists|k: int|
                0 <= k < i && (#[trigger] outcomes@[k]).status is Failed {
                Some(1i32)
            } else {
                None
            }),
        decreases outcomes.len() - i,
    {
        if outcomes[i].failed() {
            assert(outcomes@[i as int].status is Failed);
            status = Some(1);
        }
        i += 1;
    }
    Conclusion { lines, status }
}

/// A step's place in the tree, as the run has it so far. Times are counted from
/// one moment of the caller's choice.
pub enum Row {
    Waiting { after: Option<&'static str> },
    Running { started: Duration, activity: String },
    Finished(Outcome),
}

/// What a [`Row`] holds.
pub ghost enum Progress {
    Waiting { after: Option<&'static str> },
    Running { started: nat, activity: Seq<char> },
    Finished(Outcome),
}

impl View for Row {
    type V = Progress;

    open spec fn view(&self) -> Progress {
        match *self {
            Row::Waiting { after } => Progress::Waiting { after },
            Row::Running { started, activity } => Progress::Running {
                started: started@,
                activity: activity@,
            },
            Row::Finished(outcome) => Progress::Finished(outcome),
        }
    }
}

/// What each of `rows` holds.
pub open spec fn progress(rows: Seq<Row>) -> Seq<Progress> {
    rows.map_values(|row: Row| row@)
}

/// How long it is from `started` to `now`.
pub open spec fn since(started: nat, now: nat) -> nat {
    if now > started {
        (now - started) as nat
    } else {
        0
    }
}

/// What `row` says at `now`.
pub open spec fn doing_at(row: Progress, now: nat) -> Doing {
    match row {
        Progress::Waiting { after: Some(after) } => Doing::Waiting { after: Some(after@) },
        Progress::Waiting { after: None } => Doing::Waiting { after: None },
        Progress::Running { started, activity } => Doing::Running {
            elapsed: since(started, now),
            activity,
        },
        Progress::Finished(outcome) => Doing::Finished(outcome),
    }
}

impl Row {
    /// The row as it is drawn at `now`.
    pub fn at(&self, now: Duration) -> (drawn: report::Row<'_>)
        ensures
            drawn@ == doing_at(self@, now@),
    {
        match self {
            Row::Waiting { after } => report::Row::Waiting { after: *after },
            Row::Running { started, activity } => report::Row::Running {
                elapsed: now.saturating_sub(*started),
                activity: activity.as_str(),
            },
            Row::Finished(outcome) => report::Row::Finished(outcome),
        }
    }
}

/// The line of `row` in the tree at `now`.
pub open spec fn drawn_text(
    slot: Slot,
    row: Progress,
    now: nat,
    frame: Seq<char>,
    columns: nat,
    color: bool,
) -> Seq<char> {
    tree_row(slot, doing_at(row, now), frame, columns, color)
}

/// How a run is reported while it happens.
pub ghost enum Shown {
    /// The whole plan drawn before anything runs, each line turning into a
    /// spinner with the step's latest output as it starts and settling on its
    /// result as it ends. Output is held back and shown only for a failure.
    Tree { slots: Seq<Slot>, rows: Seq<Progress> },
    /// Every line of every step written as it arrives, behind the step's
    /// coloured prefix.
    Stream { prefixes: Seq<Seq<char>> },
}

impl Shown {
    /// How many steps are reported.
    pub open spec fn len(self) -> nat {
        match self {
            Shown::Tree { slots, rows } => rows.len(),
            Shown::Stream { prefixes } => prefixes.len(),
        }
    }

    /// With `row` in the place of the step at `index`, where there are rows.
    pub open spec fn with(self, index: int, row: Progress) -> Shown {
        match self {
            Shown::Tree { slots, rows } => Shown::Tree { slots, rows: rows.update(index, row) },
            Shown::Stream { prefixes } => self,
        }
    }
}

enum Mode {
    Tree { slots: Vec<Slot>, rows: Vec<Row> },
    Stream { prefixes: Vec<String> },
}

/// How a run is reported while it happens.
pub struct Report {
    mode: Mode,
    color: bool,
}

impl View for Report {
    type V = Shown;

    closed spec fn view(&self) -> Shown {
        match self.mode {
            Mode::Tree { slots, rows } => Shown::Tree { slots: slots@, rows: progress(rows@) },
            Mode::Stream { prefixes } => Shown::Stream { prefixes: texts(prefixes@) },
        }
    }
}

/// The names of the steps of a plan.
pub open spec fn plan_names(plan: Plan) -> Seq<Seq<char>> {
    plan.all().map_values(|step: Step| step.name@)
}

/// What is said before a run whose output is streamed: which step each step
/// waits for, behind its prefix.
pub open spec fn opening(plan: Plan, count: nat, color: bool) -> Seq<Seq<char>>
    decreases count,
{
    if count == 0 {
        Seq::empty()
    } else {
        let index = count - 1;
        let before = opening(plan, index as nat, color);
        match plan.held_by(index) {
            Some(after) => before.push(
                prefix_text(plan_names(plan), index, color) + painted(
                    "waiting for "@ + after@,
                    DIM,
                    color,
                ),
            ),
            None => before,
        }
    }
}

/// Whether `slot` is the place in the tree of the step of `plan` at `index`.
pub open spec fn placed(plan: Plan, index: int, slot: Slot) -> bool {
    let indent = if plan.held_by(index) is Some {
        INDENT@
    } else {
        ""@
    };
    &&& slot.indent@ == indent
    &&& slot.name@ == padded(plan.all()[index].name@, plan_width(plan) - indent.len())
}

/// Where the name of each step of `plan` ends in the tree, behind its indent.
pub open spec fn plan_ends(plan: Plan) -> Seq<nat> {
    Seq::new(
        plan.all().len(),
        |i: int|
            plan.all()[i].name@.len() + (if plan.held_by(i) is Some {
                INDENT@.len()
            } else {
                0
            }),
    )
}

/// The column that every name in the tree of `plan` is padded to.
pub open spec fn plan_width(plan: Plan) -> nat {
    greatest(plan_ends(plan))
}

/// Whether `prefixes` are those of the steps of `plan`.
pub open spec fn prefixed(plan: Plan, prefixes: Seq<Seq<char>>, color: bool) -> bool {
    forall|i: int|
        0 <= i < prefixes.len() ==> #[trigger] prefixes[i] == prefix_text(
            plan_names(plan),
            i,
            color,
        )
}

/// Whether `slots` and `rows` are the tree of `plan` before anything runs.
pub open spec fn laid_out(plan: Plan, slots: Seq<Slot>, rows: Seq<Progress>) -> bool {
    &&& slots.len() == rows.len()
    &&& forall|i: int| 0 <= i < slots.len() ==> placed(plan, i, #[trigger] slots[i])
    &&& forall|i: int|
        0 <= i < rows.len() ==> #[trigger] rows[i] == (Progress::Waiting { after: plan.held_by(i) })
}

impl Report {
    #[verifier::type_invariant]
    spec fn well_formed(self) -> bool {
        self.mode matches Mode::Tree { slots, rows } ==> slots@.len() == rows@.len()
    }

    /// Whether what is reported is coloured.
    pub closed spec fn color(&self) -> bool {
        self.color
    }

    /// Lay out the whole plan before anything runs, so every step is on screen
    /// from the start, the ones held back by mise included; and the lines to
    /// open the report with.
    pub fn new(plan: &Plan, streaming: bool, color: bool) -> (opened: (Report, Vec<String>))
        ensures
            opened.0.color() == color,
            opened.0@.len() == plan.all().len(),
            opened.0@ is Stream <==> streaming,
            match opened.0@ {
                Shown::Stream { prefixes } => prefixed(*plan, prefixes, color) && texts(opened.1@)
                    == opening(*plan, plan.all().len(), color),
                Shown::Tree { slots, rows } => laid_out(*plan, slots, rows) && opened.1@.len() == 0,
            },
    {
        let dependencies = plan.dependencies();
        if streaming {
            let mut names: Vec<&str> = Vec::new();
            let mut i: usize = 0;
            while i < dependencies.len()
                invariant
                    i <= dependencies@.len(),
                    dependencies@.len() == plan.all().len(),
                    forall|k: int|
                        0 <= k < dependencies@.len() ==> *(#[trigger] dependencies@[k]).0
                            == plan.all()[k] && dependencies@[k].1 == plan.held_by(k),
                    names@.len() == i,
                    forall|k: int|
                        0 <= k < i ==> (#[trigger] names@[k])@ == plan.all()[k].name@,
                decreases dependencies.len() - i,
            {
                names.push(dependencies[i].0.name);
                i += 1;
            }
            assert(views(names@) =~= plan_names(*plan));
            let prefixes = prefixes(names.as_slice(), color);
            let mut lines: Vec<String> = Vec::new();
            let mut i: usize = 0;
            assert(texts(lines@) =~= Seq::empty());
            while i < dependencies.len()
                invariant
                    i <= dependencies@.len(),
                    dependencies@.len() == plan.all().len(),
                    prefixes@.len() == dependencies@.len(),
                    forall|k: int|
                        0 <= k < dependencies@.len() ==> *(#[trigger] dependencies@[k]).0
                            == plan.all()[k] && dependencies@[k].1 == plan.held_by(k),
                    forall|k: int|
                        0 <= k < prefixes@.len() ==> (#[trigger] prefixes@[k])@ == prefix_text(
                            plan_names(*plan),
                            k,
                            color,
                        ),
                    texts(lines@) == opening(*plan, i as nat, color),
                decreases dependencies.len() - i,
            {
                let ghost given = texts(lines@);
                assert(dependencies@[i as int].1 == plan.held_by(i as int));
                if let Some(after) = dependencies[i].1 {
                    let mut waiting = "waiting for ".to_string();
                    waiting.append(after);
                    let mut line = prefixes[i].clone();
                    line.append(paint(waiting.as_str(), DIM, color).as_str());
                    lines.push(line);
                    assert(texts(lines@) =~= given.push(line@));
                }
                i += 1;
            }
            return (Report { mode: Mode::Stream { prefixes }, color }, lines);
        }
        let mut nodes: Vec<Node<'_>> = Vec::new();
        let mut rows: Vec<Row> = Vec::new();
        let mut i: usize = 0;
        while i < dependencies.len()
            invariant
                i <= dependencies@.len(),
                dependencies@.len() == plan.all().len(),
                forall|k: int|
                    0 <= k < dependencies@.len() ==> *(#[trigger] dependencies@[k]).0
                        == plan.all()[k] && dependencies@[k].1 == plan.held_by(k),
                nodes@.len() == i,
                rows@.len() == i,
                forall|k: int|
                    0 <= k < i ==> (#[trigger] nodes@[k]).name@ == plan.all()[k].name@
                        && nodes@[k].after == plan.held_by(k),
                forall|k: int|
                    0 <= k < i ==> #[trigger] rows@[k] == (Row::Waiting {
                        after: plan.held_by(k),
                    }),
            decreases dependencies.len() - i,
        {
            let (step, after) = dependencies[i];
            nodes.push(Node { name: step.name, after });
            rows.push(Row::Waiting { after });
            i += 1;
        }
        let slots = layout(nodes.as_slice());
        proof {
            reveal_strlit("");
            assert(name_ends(nodes@) =~= plan_ends(*plan));
        }
        (Report { mode: Mode::Tree { slots, rows }, color }, Vec::new())
    }

    /// Put `row` in the place of the step at `index`.
    fn set(&mut self, index: usize, row: Row)
        requires
            index < old(self)@.len(),
        ensures
            final(self)@ == old(self)@.with(index as int, row@),
            final(self).color() == old(self).color(),
    {
        proof {
            use_type_invariant(&*self);
        }
        let mut mode = Mode::Stream { prefixes: Vec::new() };
        std::mem::swap(&mut mode, &mut self.mode);
        match mode {
            Mode::Tree { slots, rows } => {
                let mut rows = rows;
                let ghost before = progress(rows@);
                rows.set(index, row);
                assert(progress(rows@) =~= before.update(index as int, row@));
                self.mode = Mode::Tree { slots, rows };
            },
            Mode::Stream { prefixes } => {
                self.mode = Mode::Stream { prefixes };
            },
        }
    }

    /// `text` behind the prefix of the step at `index`, where output is
    /// streamed.
    fn behind_prefix(&self, index: usize, text: &str) -> (line: Option<String>)
        requires
            index < self@.len(),
        ensures
            match self@ {
                Shown::Tree { slots, rows } => line is None,
                Shown::Stream { prefixes } => line matches Some(line) && line@
                    == prefixes[index as int] + text@,
            },
    {
        match &self.mode {
            Mode::Tree { slots, rows } => None,
            Mode::Stream { prefixes } => {
                let mut line = prefixes[index].clone();
                line.append(text);
                Some(line)
            },
        }
    }

    /// The step at `index` starts. Gives the line to print for it, where output
    /// is streamed.
    pub fn start(&mut self, index: usize, step: &Step, now: Duration) -> (line: Option<String>)
        requires
            index < old(self)@.len(),
        ensures
            final(self).color() == old(self).color(),
            final(self)@ == old(self)@.with(
                index as int,
                Progress::Running { started: now@, activity: Seq::empty() },
            ),
            match old(self)@ {
                Shown::Tree { slots, rows } => line is None,
                Shown::Stream { prefixes } => line matches Some(line) && line@
                    == prefixes[index as int] + announced(step@, old(self).color()),
            },
    {
        let line = self.behind_prefix(index, announce(step, self.color).as_str());
        self.set(index, Row::Running { started: now, activity: String::new() });
        line
    }

    /// The step at `index`, which started at `started`, wrote `text`. Gives the
    /// line to print for it, where output is streamed.
    pub fn heard(&mut self, index: usize, started: Duration, text: &str) -> (line: Option<String>)
        requires
            index < old(self)@.len(),
        ensures
            final(self).color() == old(self).color(),
            final(self)@ == (match activity_text(text@) {
                Some(shown) => old(self)@.with(
                    index as int,
                    Progress::Running { started: started@, activity: shown },
                ),
                None => old(self)@,
            }),
            match old(self)@ {
                Shown::Tree { slots, rows } => line is None,
                Shown::Stream { prefixes } => line matches Some(line) && line@
                    == prefixes[index as int] + text@,
            },
    {
        let line = self.behind_prefix(index, text);
        if line.is_none() {
            if let Some(activity) = activity(text) {
                self.set(index, Row::Running { started, activity });
            }
        }
        line
    }

    /// The step at `index` came to `outcome`. Gives the line to print for it:
    /// its status where there is no tree `on_screen` to show it in, and, where
    /// output is streamed, why it was skipped.
    pub fn ended(&mut self, index: usize, outcome: &Outcome, on_screen: bool) -> (line: Option<
        String,
    >)
        requires
            index < old(self)@.len(),
        ensures
            final(self).color() == old(self).color(),
            final(self)@ == old(self)@.with(index as int, Progress::Finished(*outcome)),
            match old(self)@ {
                Shown::Tree { slots, rows } => if on_screen {
                    line is None
                } else {
                    line matches Some(line) && line@ == status_text(
                        *outcome,
                        slots[index as int],
                        old(self).color(),
                    )
                },
                Shown::Stream { prefixes } => match outcome.status {
                    Status::Skipped { reason } => line matches Some(line) && line@
                        == prefixes[index as int] + painted(
                        "skipped: "@ + reason@,
                        DIM,
                        old(self).color(),
                    ),
                    _ => line is None,
                },
            },
    {
        proof {
            use_type_invariant(&*self);
        }
        let line = match &self.mode {
            Mode::Tree { slots, rows } => {
                if on_screen {
                    None
                } else {
                    Some(status_line(outcome, &slots[index], self.color))
                }
            },
            Mode::Stream { prefixes } => {
                match &outcome.status {
                    Status::Skipped { reason } => {
                        let mut text = "skipped: ".to_string();
                        text.append(reason.as_str());
                        let text = paint(text.as_str(), DIM, self.color);
                        self.behind_prefix(index, text.as_str())
                    },
                    _ => None,
                }
            },
        };
        self.set(index, Row::Finished(outcome.clone()));
        line
    }

    /// The lines of the tree at `now`, each no wider than `columns`; none where
    /// output is streamed. `frame` is the spinner's current glyph.
    pub fn render(&self, frame: &str, columns: usize, now: Duration) -> (lines: Vec<String>)
        ensures
            match self@ {
                Shown::Tree { slots, rows } => lines@.len() == rows.len() && forall|i: int|
                    0 <= i < lines@.len() ==> (#[trigger] lines@[i])@ == drawn_text(
                        slots[i],
                        rows[i],
                        now@,
                        frame@,
                        columns as nat,
                        self.color(),
                    ) && ((self.color() ==> plain_slot(slots[i]) && plain(frame@) && plain_row(
                        doing_at(rows[i], now@),
                    )) ==> str_cells(
                        if self.color() {
                            stripped(lines@[i]@)
                        } else {
                            lines@[i]@
                        },
                    ) <= columns),
                Shown::Stream { prefixes } => lines@.len() == 0,
            },
    {
        proof {
            use_type_invariant(self);
        }
        let mut lines: Vec<String> = Vec::new();
        if let Mode::Tree { slots, rows } = &self.mode {
            let mut i: usize = 0;
            while i < rows.len()
                invariant
                    i <= rows@.len(),
                    slots@.len() == rows@.len(),
                    lines@.len() == i,
                    forall|k: int|
                        0 <= k < i ==> (#[trigger] lines@[k])@ == drawn_text(
                            slots@[k],
                            rows@[k]@,
                            now@,
                            frame@,
                            columns as nat,
                            self.color,
                        ) && ((self.color ==> plain_slot(slots@[k]) && plain(frame@) && plain_row(
                            doing_at(rows@[k]@, now@),
                        )) ==> str_cells(
                            if self.color {
                                stripped(lines@[k]@)
                            } else {
                                lines@[k]@
                            },
                        ) <= columns),
                decreases rows.len() - i,
            {
                let drawn = rows[i].at(now);
                lines.push(tree_line(&slots[i], &drawn, frame, columns, self.color));
                i += 1;
            }
        }
        lines
    }

    /// Whether the output was streamed, and so has been seen already.
    pub fn finish(self) -> (streamed: bool)
        ensures
            streamed == (self@ is Stream),
    {
        matches!(self.mode, Mode::Stream { .. })
    }
}

/// The line of a finished step stays as it is: neither the time nor the spinner
/// changes it. Where it fits, it is the line that is printed without a tree.
pub proof fn a_finished_line_stays(
    slot: Slot,
    outcome: Outcome,
    color: bool,
    columns: nat,
    now: nat,
    frame: Seq<char>,
    later: nat,
    next_frame: Seq<char>,
)
    ensures
        drawn_text(slot, Progress::Finished(outcome), now, frame, columns, color) == drawn_text(
            slot,
            Progress::Finished(outcome),
            later,
            next_frame,
            columns,
            color,
        ),
        str_cells(status_text(outcome, slot, false)) <= columns ==> drawn_text(
            slot,
            Progress::Finished(outcome),
            now,
            frame,
            columns,
            color,
        ) == status_text(outcome, slot, color),
{
    status_is_its_parts(outcome, slot, color);
    status_is_its_parts(outcome, slot, false);
}

/// What one step does changes nothing of the line of another.
pub proof fn steps_keep_to_their_lines(shown: Shown, index: int, row: Progress, other: int)
    requires
        shown is Tree,
        0 <= index < shown.len(),
        0 <= other < shown.len(),
        index != other,
    ensures
        shown.with(index, row)->rows[other] == shown->rows[other],
        shown.with(index, row)->rows[index] == row,
        shown.with(index, row)->slots == shown->slots,
        shown.with(index, row).len() == shown.len(),
{
}

/// What is said of a directory that nothing recognises names the directory.
pub proof fn an_unrecognised_directory_is_named(dir: Seq<char>)
    ensures
        unrecognised_text(dir, false) == "nothing recognisable in "@ + dir,
        unrecognised_text(dir, true) == styled(
            "nothing recognisable in "@ + dir,
            Some(8u8),
            false,
            true,
        ),
{
}

/// The files that both say how to build are all named, with `and` between every
/// two.
pub proof fn ambiguous_files_are_all_named(files: Seq<Seq<char>>, one: Seq<char>, other: Seq<char>)
    ensures
        ambiguous_text(files) == joined(files, " and "@)
            + " both build this project — run the one you meant"@,
        ambiguous_text(seq![one, other]) == one + " and "@ + other
            + " both build this project — run the one you meant"@,
{
    assert(seq![one, other].drop_last() =~= seq![one]);
    assert(joined(seq![one], " and "@) == one);
}

/// A mise among the detections counts wherever it stands: where it is installed
/// too, every command of the build is the planned one run by mise, and
/// otherwise every command is the planned one.
pub proof fn a_pinned_mise_counts_wherever_it_stands(
    steps: Seq<Command>,
    detections: Seq<Toolchain>,
    mise_on_path: bool,
    i: int,
    k: int,
)
    requires
        0 <= k < steps.len(),
    ensures
        build_steps(steps, detections, mise_on_path).len() == steps.len(),
        0 <= i < detections.len() && detections[i] == Toolchain::Mise && mise_on_path
            ==> build_steps(steps, detections, mise_on_path)[k] == mise_exec(steps[k]),
        (forall|j: int|
            0 <= j < detections.len() ==> #[trigger] detections[j] != Toolchain::Mise)
            ==> build_steps(steps, detections, mise_on_path)[k] == steps[k],
        !mise_on_path ==> build_steps(steps, detections, mise_on_path)[k] == steps[k],
{
    if 0 <= i < detections.len() && detections[i] == Toolchain::Mise {
        assert(detections.contains(Toolchain::Mise));
    }
}

/// A command is announced by what would be typed, behind a prompt sign.
pub proof fn a_command_is_announced_as_typed(step: Command)
    ensures
        announced(step, false) == "$ "@ + joined(step.words, " "@),
        announced(step, true) == styled("$ "@ + joined(step.words, " "@), Some(8u8), false, true),
{
}

/// A build fails exactly where its command did not succeed: with the status of
/// the command, or 1 where it has none, and with a message that names what was
/// not found or not started.
pub proof fn a_build_passes_on_what_its_command_came_to(
    step: Step,
    code: Option<i32>,
    failed: Option<Failure>,
    failure: Failure,
)
    ensures
        build_failure(step, Ran::Exited { success: true, code }, failed) <==> failed is None,
        code matches Some(status) ==> (build_failure(
            step,
            Ran::Exited { success: false, code },
            failed,
        ) <==> failed == Some(Failure::Reported(status))),
        code is None ==> (build_failure(step, Ran::Exited { success: false, code }, failed)
            <==> failed == Some(Failure::Reported(1))),
        build_failure(step, Ran::NotFound, failed) <==> (failed matches Some(Failure::Message(text))
            && text@ == "`"@ + step.program@ + "` was not found on PATH"@),
        build_failure(step, Ran::NotStarted, failed) <==> (failed matches Some(
            Failure::Context(text),
        ) && text@ == "running "@ + joined(
            seq![step.program@] + texts(step.args@),
            " "@,
        )),
        failure_of(Ok(())) is None,
        failure_of(Err(failure)) == Some(failure),
{
}

/// The steps of a build are run in their order, from the first to the last, and
/// none once one has failed.
pub proof fn a_build_runs_its_steps_in_order(run: BuildRun)
    ensures
        !run.failed() && run.done() < run.steps().len() ==> run.current() == Some(
            run.steps()[run.done() as int],
        ),
        run.failed() ==> run.current() is None,
        run.done() >= run.steps().len() ==> run.current() is None,
{
}

/// An outcome names its step, and tells what its command came to: done where it
/// succeeded, failed with its status where it did not, skipped for want of the
/// program, and failed without a status where it did not run; with what it
/// wrote, or why it did not run.
pub proof fn an_outcome_tells_what_a_command_came_to(
    step: Step,
    code: Option<i32>,
    output: String,
    outcome: Outcome,
)
    ensures
        outcome_of(step, Finished::Exited { success: true, code, output }, outcome)
            <==> outcome.name == step.name && outcome.status == Status::Done && outcome.output
            == output,
        outcome_of(step, Finished::Exited { success: false, code, output }, outcome)
            <==> outcome.name == step.name && outcome.status == (Status::Failed { code })
            && outcome.output == output,
        outcome_of(step, Finished::NotFound, outcome) <==> outcome.name == step.name && (
        outcome.status matches Status::Skipped { reason } && reason@ == step.program@
            + " not found"@) && outcome.output@.len() == 0,
        outcome_of(step, Finished::Failed { error: output }, outcome) <==> outcome.name == step.name
            && outcome.status == (Status::Failed { code: None }) && outcome.output == output,
{
}

/// The details of two runs in a row are those of the one and then those of the
/// other; of a step alone there are three lines where it failed and had
/// something to say, and none otherwise.
pub proof fn every_failure_that_spoke_is_shown(
    outcomes: Seq<Outcome>,
    more: Seq<Outcome>,
    outcome: Outcome,
)
    ensures
        details_text(outcomes + more) == details_text(outcomes) + details_text(more),
        outcome.status is Failed && outcome.output@.len() > 0 ==> details_text(seq![outcome])
            == seq![""@, "── "@ + outcome.name@ + " ──"@, outcome.output@],
        !(outcome.status is Failed) || outcome.output@.len() == 0 ==> details_text(
            seq![outcome],
        ).len() == 0,
        details_text(Seq::empty()).len() == 0,
    decreases more.len(),
{
    let of = |outcome: Outcome| detail(outcome);
    let none = Seq::<Outcome>::empty().map_values(of);
    assert(none =~= Seq::empty());
    let one = seq![outcome].map_values(of);
    assert(one =~= Seq::empty().push(detail(outcome)));
    Seq::<Seq<Seq<char>>>::empty().lemma_flatten_push(detail(outcome));
    assert(Seq::<Seq<Seq<char>>>::empty().flatten() =~= Seq::empty());
    assert(details_text(seq![outcome]) =~= detail(outcome));
    if more.len() == 0 {
        assert(outcomes + more =~= outcomes);
        assert(more.map_values(of) =~= Seq::empty());
        assert(details_text(outcomes) + details_text(more) =~= details_text(outcomes));
    } else {
        let earlier = more.drop_last();
        let last = detail(more.last());
        every_failure_that_spoke_is_shown(outcomes, earlier, outcome);
        assert((outcomes + more).map_values(of) =~= (outcomes + earlier).map_values(of).push(last));
        assert(more.map_values(of) =~= earlier.map_values(of).push(last));
        (outcomes + earlier).map_values(of).lemma_flatten_push(last);
        earlier.map_values(of).lemma_flatten_push(last);
        assert(details_text(outcomes + more) =~= details_text(outcomes) + details_text(more));
    }
}

/// The first step that waits is behind mise's own where there is one, and is run
/// by mise exactly where that one is done.
pub proof fn the_rest_goes_through_a_mise_that_installed(plan: Plan, outcome: &Outcome)
    ensures
        plan.mise is Some ==> offset(plan) == 1,
        plan.mise is None ==> offset(plan) == 0,
        resolved(Some(outcome)) <==> outcome.status == Status::Done,
        !resolved(None),
{
}

/// Before a streamed run every step that is held back says what it waits for,
/// behind its prefix, and no other says anything.
pub proof fn a_streamed_run_opens_with_what_waits(plan: Plan, count: nat, color: bool)
    requires
        count <= plan.all().len(),
    ensures
        plan.mise is None ==> opening(plan, count, color).len() == 0,
        plan.mise matches Some(mise) ==> opening(plan, count, color).len() == (if count == 0 {
            0
        } else {
            count - 1
        }) && forall|i: int|
            0 <= i < opening(plan, count, color).len() ==> #[trigger] opening(plan, count, color)[i]
                == prefix_text(
                plan.all().map_values(|step: Step| step.name@),
                i + 1,
                color,
            ) + styled("waiting for "@ + mise.name@, Some(8u8), false, color),
    decreases count,
{
    if count > 0 {
        let index = (count - 1) as nat;
        a_streamed_run_opens_with_what_waits(plan, index, color);
        let lines = opening(plan, count, color);
        let before = opening(plan, index, color);
        if plan.mise is Some && index > 0 {
            assert(lines.len() == count - 1);
            assert forall|i: int| 0 <= i < lines.len() implies #[trigger] lines[i] == prefix_text(
                plan.all().map_values(|step: Step| step.name@),
                i + 1,
                color,
            ) + styled("waiting for "@ + plan.mise->0.name@, Some(8u8), false, color) by {
                if i < before.len() {
                    assert(lines[i] == before[i]);
                }
            }
        }
    }
}

/// Before anything runs, every step of the tree waits for the one that holds it
/// back; it is indented by two spaces exactly where one does, and indent and
/// padded name are as wide together as those of every other step, with one that
/// has no padding.
pub proof fn a_laid_out_plan_waits_in_columns(
    plan: Plan,
    slots: Seq<Slot>,
    rows: Seq<Progress>,
    i: int,
)
    requires
        laid_out(plan, slots, rows),
        slots.len() == plan.all().len(),
        0 <= i < slots.len(),
    ensures
        rows.len() == slots.len(),
        rows[i] == (Progress::Waiting { after: plan.held_by(i) }),
        plan.held_by(i) is Some ==> slots[i].indent@ == spaces(2),
        plan.held_by(i) is None ==> slots[i].indent@.len() == 0,
        slots[i].name@ == padded(plan.all()[i].name@, plan_width(plan) - slots[i].indent@.len()),
        slots[i].indent@.len() + slots[i].name@.len() == plan_width(plan),
        exists|k: int|
            0 <= k < plan.all().len() && plan_width(plan) == (#[trigger] plan.all()[k]).name@.len()
                + (if plan.held_by(k) is Some {
                2nat
            } else {
                0
            }),
{
    reveal_strlit("  ");
    reveal_strlit("");
    assert(INDENT@ =~= spaces(2));
    let ends = plan_ends(plan);
    the_greatest_is_one_of_them(ends);
    assert(placed(plan, i, slots[i]));
    assert(ends[i] <= greatest(ends));
    let k = choose|k: int| 0 <= k < ends.len() && ends[k] == greatest(ends);
    assert(plan.all()[k].name@.len() + (if plan.held_by(k) is Some {
        2nat
    } else {
        0
    }) == plan_width(plan));
}

/// The prefixes of a streamed run are those of its steps, by their names.
pub proof fn a_streamed_run_has_the_prefixes_of_its_steps(
    plan: Plan,
    prefixes: Seq<Seq<char>>,
    color: bool,
    i: int,
)
    requires
        prefixed(plan, prefixes, color),
        0 <= i < prefixes.len(),
    ensures
        prefixes[i] == prefix_text(plan.all().map_values(|step: Step| step.name@), i, color),
{
}

/// A row is drawn as what it is: a running step has run since it started, never
/// for less than nothing, and says what it said last.
pub proof fn a_row_is_drawn_as_what_it_is(
    after: Option<&'static str>,
    started: nat,
    activity: Seq<char>,
    outcome: Outcome,
    now: nat,
)
    ensures
        since(started, started + now) == now,
        now <= started ==> since(started, now) == 0,
        doing_at(Progress::Running { started, activity }, started + now) == (Doing::Running {
            elapsed: now,
            activity,
        }),
        now <= started ==> doing_at(Progress::Running { started, activity }, now)
            == (Doing::Running { elapsed: 0, activity }),
        doing_at(Progress::Finished(outcome), now) == Doing::Finished(outcome),
        after matches Some(name) ==> doing_at(Progress::Waiting { after }, now) == (
        Doing::Waiting { after: Some(name@) }),
        after is None ==> doing_at(Progress::Waiting { after }, now) == (Doing::Waiting {
            after: None,
        }),
{
}

/// The line of a step in the tree is that of what the step is doing.
pub proof fn a_drawn_line_is_a_row_of_the_tree(
    slot: Slot,
    row: Progress,
    now: nat,
    frame: Seq<char>,
    columns: nat,
    color: bool,
)
    ensures
        drawn_text(slot, row, now, frame, columns, color) == tree_row(
            slot,
            doing_at(row, now),
            frame,
            columns,
            color,
        ),
        str_cells(tree_text(slot, doing_at(row, now), frame, columns, false)) <= columns
            ==> drawn_text(slot, row, now, frame, columns, color) == tree_text(
            slot,
            doing_at(row, now),
            frame,
            columns,
            color,
        ),
        drawn_text(slot, row, now, frame, columns, false) == truncated(
            tree_text(slot, doing_at(row, now), frame, columns, false),
            columns,
        ),
{
    a_row_is_cut_where_its_text_is(slot, doing_at(row, now), frame, columns, color);
}

/// Where output is streamed there are no rows to change, and changing a row
/// leaves as many steps as there were.
pub proof fn a_stream_has_no_rows(shown: Shown, index: int, row: Progress, rows: Seq<Row>, i: int)
    requires
        0 <= i < rows.len(),
    ensures
        shown is Stream ==> shown.with(index, row) == shown,
        shown is Stream ==> shown.len() == shown->prefixes.len(),
        shown is Tree ==> shown.len() == shown->rows.len(),
        0 <= index < shown.len() ==> shown.with(index, row).len() == shown.len(),
        progress(rows).len() == rows.len(),
        progress(rows)[i] == rows[i]@,
{
}

/// A row holds what the run has of its step so far.
pub proof fn a_row_holds_what_the_run_has(
    after: Option<&'static str>,
    started: Duration,
    activity: String,
    outcome: Outcome,
)
    ensures
        (Row::Waiting { after })@ == (Progress::Waiting { after }),
        (Row::Running { started, activity })@ == (Progress::Running {
            started: started@,
            activity: activity@,
        }),
        Row::Finished(outcome)@ == Progress::Finished(outcome),
{
}

} // verus!
