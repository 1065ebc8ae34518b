//! The commands that a project is installed or built with.

use vstd::prelude::*;

use crate::text::{join, joined, texts, views};

pub mod report;
pub mod scan;

verus! {

/// One command to run in the project, and why.
#[derive(Debug)]
pub struct Step {
    /// What the step is called, which tells it from the others of its plan.
    pub name: &'static str,
    /// The files that selected it.
    pub evidence: String,
    pub program: String,
    pub args: Vec<String>,
}

/// What a [`Step`] says: the words of its command are the program and its
/// arguments, one after the other.
pub ghost struct Command {
    pub name: Seq<char>,
    pub evidence: Seq<char>,
    pub words: Seq<Seq<char>>,
}

impl View for Step {
    type V = Command;

    open spec fn view(&self) -> Command {
        Command {
            name: self.name@,
            evidence: self.evidence@,
            words: seq![self.program@] + texts(self.args@),
        }
    }
}

impl Command {
    /// The command as it would be typed.
    pub open spec fn line(self) -> Seq<char> {
        joined(self.words, " "@)
    }
}

impl Step {
    /// The step called `name`, selected by `evidence`, that runs `program` with
    /// `args`.
    pub fn new(name: &'static str, evidence: String, program: &str, args: &[&str]) -> (step: Step)
        ensures
            step.name == name,
            step.evidence == evidence,
            step.program@ == program@,
            texts(step.args@) == views(args@),
    {
        let mut owned: Vec<String> = Vec::new();
        let mut i: usize = 0;
        while i < args.len()
            invariant
                i <= args@.len(),
                owned@.len() == i,
                forall|k: int| 0 <= k < i ==> (#[trigger] owned@[k])@ == args@[k]@,
            decreases args.len() - i,
        {
            owned.push(args[i].to_string());
            i += 1;
        }
        assert(texts(owned@) =~= views(args@));
        Step { name, evidence, program: program.to_string(), args: owned }
    }

    /// The command as it would be typed.
    pub fn command_line(&self) -> (line: String)
        ensures
            line@ == self@.line(),
    {
        let mut words: Vec<String> = Vec::new();
        words.push(self.program.clone());
        let mut i: usize = 0;
        while i < self.args.len()
            invariant
                i <= self.args@.len(),
                words@.len() == i + 1,
                words@[0]@ == self.program@,
                forall|k: int| 0 < k <= i ==> (#[trigger] words@[k])@ == self.args@[k - 1]@,
            decreases self.args.len() - i,
        {
            words.push(self.args[i].clone());
            i += 1;
        }
        assert(texts(words@) =~= self@.words);
        join(words.as_slice(), " ")
    }
}

/// What each of `steps` says.
pub open spec fn commands(steps: Seq<Step>) -> Seq<Command> {
    steps.map_values(|step: Step| step@)
}

/// The steps that a list of references refers to.
pub open spec fn steps_of(steps: Seq<&Step>) -> Seq<Step> {
    steps.map_values(|step: &Step| *step)
}

/// `step` run by mise, with the tools the project pins.
pub open spec fn mise_exec(step: Command) -> Command {
    Command { words: seq!["mise"@, "exec"@, "--"@] + step.words, ..step }
}

/// The step that has mise run `step` with the tools the project pins.
pub fn through_mise(step: Step) -> (wrapped: Step)
    ensures
        wrapped@ == mise_exec(step@),
        wrapped.name == step.name,
{
    let mut args: Vec<String> = Vec::new();
    args.push("exec".to_string());
    args.push("--".to_string());
    args.push(step.program);
    let mut rest = step.args;
    args.append(&mut rest);
    let wrapped = Step {
        name: step.name,
        evidence: step.evidence,
        program: "mise".to_string(),
        args,
    };
    assert(wrapped@.words =~= seq!["mise"@, "exec"@, "--"@] + step@.words);
    wrapped
}

/// Running a step through mise types `mise exec -- ` before its command line
/// and changes nothing of it.
pub proof fn mise_types_before_the_command(step: Command)
    requires
        step.words.len() > 0,
    ensures
        mise_exec(step).line() == "mise exec -- "@ + step.line(),
        mise_exec(step).name == step.name,
        mise_exec(step).evidence == step.evidence,
{
    let head = seq!["mise"@, "exec"@, "--"@];
    lemma_joined_behind(head, step.words, " "@);
    reveal_strlit("mise");
    reveal_strlit("exec");
    reveal_strlit("--");
    reveal_strlit(" ");
    reveal_strlit("mise exec -- ");
    assert(head.drop_last() =~= seq!["mise"@, "exec"@]);
    assert(head.drop_last().drop_last() =~= seq!["mise"@]);
    reveal_with_fuel(joined, 3);
    assert(joined(head, " "@) + " "@ =~= "mise exec -- "@);
}

/// Joining two lists of parts in a row is joining each, with one separator
/// between the two.
proof fn lemma_joined_behind(head: Seq<Seq<char>>, tail: Seq<Seq<char>>, separator: Seq<char>)
    requires
        head.len() > 0,
        tail.len() > 0,
    ensures
        joined(head + tail, separator) == joined(head, separator) + separator + joined(
            tail,
            separator,
        ),
    decreases tail.len(),
{
    let all = head + tail;
    assert(all.last() == tail.last());
    if tail.len() == 1 {
        assert(all.drop_last() =~= head);
    } else {
        assert(all.drop_last() =~= head + tail.drop_last());
        lemma_joined_behind(head, tail.drop_last(), separator);
        assert(joined(all, separator) =~= joined(head, separator) + separator + joined(
            tail,
            separator,
        ));
    }
}

/// The steps that install a project: mise's own first, as what it installs can
/// be what the others need, and then the rest side by side.
pub struct Plan {
    pub mise: Option<Step>,
    pub parallel: Vec<Step>,
}

impl Plan {
    /// Every step, in plan order.
    pub open spec fn all(&self) -> Seq<Step> {
        match self.mise {
            Some(step) => seq![step] + self.parallel@,
            None => self.parallel@,
        }
    }

    /// The step that the one at `index` waits for: mise's, unless it is that
    /// one.
    pub open spec fn held_by(&self, index: int) -> Option<&'static str> {
        match self.mise {
            Some(step) if index > 0 => Some(step.name),
            _ => None,
        }
    }

    /// Every step, in plan order.
    pub fn steps(&self) -> (steps: Vec<&Step>)
        ensures
            steps_of(steps@) == self.all(),
    {
        let mut steps: Vec<&Step> = Vec::new();
        if let Some(step) = &self.mise {
            steps.push(step);
        }
        let ghost first = steps@.len();
        let mut i: usize = 0;
        while i < self.parallel.len()
            invariant
                i <= self.parallel@.len(),
                first == (if self.mise is Some {
                    1nat
                } else {
                    0
                }),
                steps@.len() == first + i,
                self.mise is Some ==> *steps@[0] == self.mise->0,
                forall|k: int|
                    first <= k < steps@.len() ==> *(#[trigger] steps@[k]) == self.parallel@[k
                        - first],
            decreases self.parallel.len() - i,
        {
            steps.push(&self.parallel[i]);
            i += 1;
        }
        assert(steps_of(steps@) =~= self.all());
        steps
    }

    /// Every step, in plan order, with the name of the step it waits for.
    pub fn dependencies(&self) -> (dependencies: Vec<(&Step, Option<&'static str>)>)
        ensures
            dependencies@.len() == self.all().len(),
            forall|i: int|
                0 <= i < dependencies@.len() ==> *(#[trigger] dependencies@[i]).0 == self.all()[i]
                    && dependencies@[i].1 == self.held_by(i),
    {
        let steps = self.steps();
        let ghost all = steps_of(steps@);
        let mut dependencies: Vec<(&Step, Option<&'static str>)> = Vec::new();
        let mut i: usize = 0;
        while i < steps.len()
            invariant
                i <= steps@.len(),
                all == steps_of(steps@),
                all == self.all(),
                dependencies@.len() == i,
                forall|k: int|
                    0 <= k < i ==> *(#[trigger] dependencies@[k]).0 == all[k] && dependencies@[k].1
                        == self.held_by(k),
            decreases steps.len() - i,
        {
            let after: Option<&'static str> = match &self.mise {
                Some(step) => if i > 0 {
                    Some(step.name)
                } else {
                    None
                },
                None => None,
            };
            assert(all[i as int] == *steps@[i as int]);
            dependencies.push((steps[i], after));
            i += 1;
        }
        dependencies
    }
}

/// mise runs a step by its own words behind `mise exec --`, under the same name
/// and for the same reason.
pub proof fn mise_runs_the_words_of_a_step(step: Command)
    ensures
        mise_exec(step).words.len() == step.words.len() + 3,
        mise_exec(step).words[0] == "mise"@,
        mise_exec(step).words[1] == "exec"@,
        mise_exec(step).words[2] == "--"@,
        mise_exec(step).words.skip(3) == step.words,
        mise_exec(step).name == step.name,
        mise_exec(step).evidence == step.evidence,
{
    assert(mise_exec(step).words.skip(3) =~= step.words);
}

/// A command is typed with one space between every two of its words.
pub proof fn a_command_line_is_its_words(step: Command, word: Seq<char>)
    requires
        step.words.len() > 0,
    ensures
        step.words.len() == 1 ==> step.line() == step.words[0],
        (Command { words: step.words.push(word), ..step }).line() == step.line() + " "@ + word,
{
    assert(step.words.push(word).drop_last() =~= step.words);
}

/// A plan with a step of mise's has it first, and all others wait for it; one
/// without it has the others alone, and none waits.
pub proof fn the_steps_of_a_plan_wait_for_mise(plan: Plan, i: int)
    requires
        0 <= i < plan.parallel@.len(),
    ensures
        plan.mise matches Some(mise) ==> plan.all().len() == plan.parallel@.len() + 1
            && plan.all()[0] == mise && plan.all()[i + 1] == plan.parallel@[i] && plan.held_by(0)
            is None && plan.held_by(i + 1) == Some(mise.name),
        plan.mise is None ==> plan.all().len() == plan.parallel@.len() && plan.all()[i]
            == plan.parallel@[i] && plan.held_by(i) is None,
{
}

/// mise's own step waits for none, even where nothing waits for it.
pub proof fn mise_waits_for_none(plan: Plan)
    ensures
        plan.held_by(0) is None,
        plan.mise matches Some(mise) ==> plan.all().len() > 0 && plan.all()[0] == mise,
        plan.mise is None && plan.parallel@.len() == 0 ==> plan.all().len() == 0,
{
}

/// Each step is listed by what it says, in its place.
pub proof fn steps_are_listed_in_their_places(steps: Seq<Step>, refs: Seq<&Step>, i: int)
    requires
        0 <= i < steps.len(),
        0 <= i < refs.len(),
    ensures
        commands(steps).len() == steps.len(),
        commands(steps)[i].name == steps[i].name@,
        commands(steps)[i].evidence == steps[i].evidence@,
        commands(steps)[i].words == seq![steps[i].program@] + texts(steps[i].args@),
        steps_of(refs).len() == refs.len(),
        steps_of(refs)[i] == *refs[i],
{
}

} // verus!
