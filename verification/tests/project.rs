use cid::cmd::project::{
    announce, build, conclude, deps, details, inherit, outcome, remaining, under_mise,
    unrecognised, Build, BuildRun, Building, Deps, Failure, Finished, Ran, Report, Row, Toolchain,
};
use cid::duration::Duration;
use cid::project::report::{self, Outcome, Status};
use cid::project::{through_mise, Plan, Step};

fn step(name: &'static str, program: &str, args: &[&str]) -> Step {
    Step::new(name, format!("{name}.lock"), program, args)
}

fn plan(mise: bool) -> Plan {
    Plan {
        mise: mise.then(|| step("mise", "mise", &["install"])),
        parallel: vec![step("bun", "bun", &["install"]), step("terraform", "terraform", &["init"])],
    }
}

fn done(name: &'static str) -> Outcome {
    Outcome {
        name,
        status: Status::Done,
        output: "said".to_string(),
        duration: Duration::from_millis(120),
    }
}

fn failed(name: &'static str, output: &str) -> Outcome {
    Outcome {
        name,
        status: Status::Failed { code: Some(1) },
        output: output.to_string(),
        duration: Duration::from_millis(120),
    }
}

fn command_lines(steps: &[Step]) -> Vec<String> {
    steps.iter().map(Step::command_line).collect()
}

#[test]
fn a_command_line_is_the_program_and_its_arguments() {
    assert_eq!(step("bun", "bun", &[]).command_line(), "bun");
    assert_eq!(step("bun", "bun", &["install", "--frozen"]).command_line(), "bun install --frozen");
}

#[test]
fn mise_runs_a_step_as_it_is() {
    let wrapped = through_mise(step("bun", "bun", &["install"]));
    assert_eq!(wrapped.name, "bun");
    assert_eq!(wrapped.evidence, "bun.lock");
    assert_eq!(wrapped.program, "mise");
    assert_eq!(wrapped.args, ["exec", "--", "bun", "install"]);
    assert_eq!(wrapped.command_line(), "mise exec -- bun install");
}

#[test]
fn the_steps_of_a_plan_wait_for_mise() {
    let held = |plan: &Plan| -> Vec<(String, Option<&'static str>)> {
        plan.dependencies().iter().map(|(step, after)| (step.name.to_string(), *after)).collect()
    };
    assert_eq!(
        held(&plan(true)),
        [
            ("mise".to_string(), None),
            ("bun".to_string(), Some("mise")),
            ("terraform".to_string(), Some("mise")),
        ]
    );
    assert_eq!(held(&plan(false)), [("bun".to_string(), None), ("terraform".to_string(), None)]);
    assert_eq!(plan(true).steps().len(), 3);
}

#[test]
fn a_directory_without_a_toolchain_is_no_failure() {
    let Deps::Unrecognised(line) = deps("/tmp/x", &[], plan(false), true, true, false) else {
        panic!("something was recognised");
    };
    assert_eq!(line, "nothing recognisable in /tmp/x");
    assert_eq!(unrecognised("/tmp/x", true), "\x1b[38;5;8mnothing recognisable in /tmp/x\x1b[0m");
}

#[test]
fn a_dump_goes_before_a_dry_run_and_that_before_a_run() {
    let found = [Toolchain::Other];
    assert!(matches!(deps("/", &found, plan(true), true, true, false), Deps::Dump));
    assert!(matches!(deps("/", &found, plan(true), false, true, false), Deps::Dump));
    let Deps::Print(lines) = deps("/", &found, plan(true), true, false, false) else {
        panic!("the plan was not printed");
    };
    assert_eq!(
        lines,
        [
            "mise       mise.lock       $ mise install",
            "bun        bun.lock        $ bun install",
            "terraform  terraform.lock  $ terraform init",
        ]
    );
    let Deps::Run(run) = deps("/", &found, plan(true), false, false, false) else {
        panic!("the plan was not run");
    };
    assert_eq!(run.steps().len(), 3);
}

#[test]
fn a_project_with_two_task_runners_is_not_built() {
    let files = vec!["Makefile".to_string(), "justfile".to_string()];
    let Err(reason) = build(Build::Ambiguous(files), &[], true, true, false) else {
        panic!("one of the two was picked");
    };
    assert_eq!(reason, "Makefile and justfile both build this project — run the one you meant");
}

#[test]
fn a_project_that_nothing_builds_is_an_error() {
    let Err(reason) = build(Build::Steps(Vec::new()), &[Toolchain::Mise], true, true, false) else {
        panic!("nothing was built");
    };
    assert_eq!(
        reason,
        "nothing here builds: no task runner, and nothing detected that builds on its own"
    );
}

#[test]
fn a_build_runs_through_mise_where_it_is_pinned_and_installed() {
    let steps = || vec![step("go", "go", &["build"]), step("bun", "bun", &["run", "build"])];
    let pinned = [Toolchain::Other, Toolchain::Mise, Toolchain::Other];
    let wrapped = ["mise exec -- go build", "mise exec -- bun run build"];
    let bare = ["go build", "bun run build"];
    assert_eq!(command_lines(&under_mise(steps(), &pinned, true)), wrapped);
    assert_eq!(command_lines(&under_mise(steps(), &pinned, false)), bare);
    assert_eq!(command_lines(&under_mise(steps(), &[Toolchain::Other], true)), bare);
    assert_eq!(command_lines(&under_mise(steps(), &[], true)), bare);

    let Ok(Building::Run(run)) = build(Build::Steps(steps()), &pinned, true, false, false) else {
        panic!("the build was not run");
    };
    assert_eq!(command_lines(&run), wrapped);
    let Ok(Building::Print(lines)) = build(Build::Steps(steps()), &pinned, true, true, false) else {
        panic!("the build was not printed");
    };
    assert_eq!(
        lines,
        ["go   go.lock   $ mise exec -- go build", "bun  bun.lock  $ mise exec -- bun run build"]
    );
}

#[test]
fn a_command_is_announced_before_it_runs() {
    let step = step("go", "go", &["build"]);
    assert_eq!(announce(&step, false), "$ go build");
    assert_eq!(announce(&step, true), "\x1b[38;5;8m$ go build\x1b[0m");
}

#[test]
fn a_build_passes_the_status_of_its_command_on() {
    let step = step("go", "go", &["build"]);
    let ran = |success, code| inherit(&step, Ran::Exited { success, code });
    assert_eq!(ran(true, Some(0)), Ok(()));
    assert_eq!(ran(false, Some(2)), Err(Failure::Reported(2)));
    assert_eq!(ran(false, None), Err(Failure::Reported(1)));
    assert_eq!(
        inherit(&step, Ran::NotFound),
        Err(Failure::Message("`go` was not found on PATH".to_string()))
    );
    assert_eq!(
        inherit(&step, Ran::NotStarted),
        Err(Failure::Context("running go build".to_string()))
    );
}

#[test]
fn the_first_failure_ends_a_build() {
    let succeeded = Ran::Exited { success: true, code: Some(0) };
    let steps = || vec![step("a", "a", &[]), step("b", "b", &[]), step("c", "c", &[])];
    let name = |run: &BuildRun| run.step().map(|step| step.name);

    let mut run = BuildRun::new(steps());
    assert_eq!(name(&run), Some("a"));
    assert_eq!(run.ended(succeeded), Ok(()));
    assert_eq!(name(&run), Some("b"));
    assert_eq!(run.ended(Ran::Exited { success: false, code: Some(3) }), Err(Failure::Reported(3)));
    assert_eq!(name(&run), None);
    assert_eq!(run.ended(succeeded), Ok(()));
    assert_eq!(name(&run), None);

    let mut run = BuildRun::new(steps());
    for expected in ["a", "b", "c"] {
        assert_eq!(name(&run), Some(expected));
        assert_eq!(run.ended(succeeded), Ok(()));
    }
    assert_eq!(name(&run), None);
}

#[test]
fn an_outcome_says_what_a_command_came_to() {
    let step = step("maven", "mvn", &["install"]);
    let duration = Duration::from_millis(7);
    let of = |finished| outcome(&step, duration, finished);
    let exited = |success, code| Finished::Exited { success, code, output: "said".to_string() };

    let ended = of(exited(true, Some(0)));
    assert_eq!((ended.name, &ended.status, ended.output.as_str()), ("maven", &Status::Done, "said"));
    assert_eq!(ended.duration, duration);

    let ended = of(exited(false, Some(2)));
    assert_eq!(ended.status, Status::Failed { code: Some(2) });
    assert_eq!(ended.output, "said");
    assert_eq!(of(exited(false, None)).status, Status::Failed { code: None });

    let ended = of(Finished::NotFound);
    assert_eq!(ended.status, Status::Skipped { reason: "mvn not found".to_string() });
    assert_eq!(ended.output, "");

    let ended = of(Finished::Failed { error: "permission denied".to_string() });
    assert_eq!(ended.status, Status::Failed { code: None });
    assert_eq!(ended.output, "permission denied");
}

#[test]
fn details_are_of_failures_that_said_something() {
    let outcomes = [done("rust"), failed("go", "go: no\n\x1b[31mmodule"), failed("bun", "")];
    assert_eq!(details(&outcomes), ["", "── go ──", "go: no\n\x1b[31mmodule"]);
    assert!(details(&[done("rust")]).is_empty());
}

#[test]
fn only_a_mise_that_installed_runs_the_rest() {
    let rest = |mise, outcome: Option<&Outcome>| -> Vec<(usize, String)> {
        let steps = remaining(plan(mise), outcome);
        steps.iter().map(|(index, step)| (*index, step.command_line())).collect()
    };
    let bare = ["bun install".to_string(), "terraform init".to_string()];
    let wrapped = ["mise exec -- bun install".to_string(), "mise exec -- terraform init".to_string()];
    let at = |first: usize, lines: &[String; 2]| {
        vec![(first, lines[0].clone()), (first + 1, lines[1].clone())]
    };
    let skipped = Outcome {
        name: "mise",
        status: Status::Skipped { reason: "mise not found".to_string() },
        output: String::new(),
        duration: Duration::from_secs(0),
    };
    assert_eq!(rest(true, Some(&done("mise"))), at(1, &wrapped));
    assert_eq!(rest(true, Some(&failed("mise", ""))), at(1, &bare));
    assert_eq!(rest(true, Some(&skipped)), at(1, &bare));
    assert_eq!(rest(false, None), at(0, &bare));
}

#[test]
fn a_run_concludes_with_details_and_a_summary() {
    let outcomes = [done("rust"), failed("go", "no module")];
    let elapsed = Duration::from_millis(3500);
    let end = conclude(&outcomes, false, elapsed, false);
    assert_eq!(
        end.lines,
        ["", "── go ──", "no module", "", "failed     go", "total      3.5s"]
    );
    assert_eq!(end.status, Some(1));
    let end = conclude(&outcomes, true, elapsed, false);
    assert_eq!(end.lines, ["", "failed     go", "total      3.5s"]);
    let end = conclude(&outcomes[..1], false, elapsed, false);
    assert_eq!(end.lines, ["", "total      3.5s"]);
    assert_eq!(end.status, None);
}

#[test]
fn a_streamed_report_writes_every_line_behind_its_prefix() {
    let (mut report, opening) = Report::new(&plan(true), true, false);
    assert_eq!(opening, ["[bun]       waiting for mise", "[terraform] waiting for mise"]);
    let now = Duration::from_secs(1);
    let install = step("mise", "mise", &["install"]);
    assert_eq!(report.start(0, &install, now), Some("[mise]      $ mise install".to_string()));
    assert_eq!(report.heard(0, now, "  10%\r"), Some("[mise]        10%\r".to_string()));
    assert_eq!(report.ended(0, &done("mise"), true), None);
    let skipped = outcome(&step("bun", "bun", &[]), now, Finished::NotFound);
    assert_eq!(
        report.ended(1, &skipped, false),
        Some("[bun]       skipped: bun not found".to_string())
    );
    assert!(report.render("⠋", 80, now).is_empty());
    assert!(report.finish());

    let (_, opening) = Report::new(&plan(false), true, false);
    assert!(opening.is_empty());
}

#[test]
fn a_tree_turns_from_waiting_to_running_to_finished() {
    let (mut report, opening) = Report::new(&plan(true), false, false);
    assert!(opening.is_empty());
    let at = Duration::from_millis;
    assert_eq!(
        report.render("⠋", 80, at(0)),
        [
            "◌ mise         queued",
            "  ◌ bun        waiting for mise",
            "  ◌ terraform  waiting for mise",
        ]
    );
    let install = step("bun", "bun", &["install"]);
    assert_eq!(report.start(1, &install, at(500)), None);
    assert_eq!(report.render("⠋", 80, at(3600))[1], "  ⠋ bun        3s");
    assert_eq!(report.render("⠋", 80, at(100))[1], "  ⠋ bun        0s");
    assert_eq!(report.heard(1, at(500), "\x1b[32mfetching\x1b[0m\r"), None);
    assert_eq!(report.render("⠙", 80, at(3600))[1], "  ⠙ bun        3s  fetching");
    assert_eq!(report.render("⠙", 22, at(3600))[1], "  ⠙ bun        3s  fe…");
    assert_eq!(report.heard(1, at(500), " \r "), None);
    assert_eq!(report.render("⠙", 80, at(3600))[1], "  ⠙ bun        3s  fetching");
    assert_eq!(report.ended(1, &done("bun"), true), None);
    assert_eq!(
        report.ended(2, &failed("terraform", ""), false),
        Some("  ✗ terraform  exit 1".to_string())
    );
    let settled = report.render("⠙", 80, at(3600));
    assert_eq!(
        settled,
        ["◌ mise         queued", "  ✓ bun        120ms", "  ✗ terraform  exit 1"]
    );
    assert_eq!(report.render("⠋", 80, at(9999)), settled);
    assert_eq!(report.render("⠋", 9, at(9999)), ["◌ mise  …", "  ✓ bun …", "  ✗ terr…"]);
    assert!(!report.finish());
}

#[test]
fn a_row_is_drawn_as_it_is_at_the_moment() {
    let row = Row::Running { started: Duration::from_secs(2), activity: "fetching".to_string() };
    let report::Row::Running { elapsed, activity } = row.at(Duration::from_secs(9)) else {
        panic!("the row is not running");
    };
    assert_eq!((elapsed, activity), (Duration::from_secs(7), "fetching"));
    let row = Row::Waiting { after: Some("mise") };
    assert!(matches!(
        row.at(Duration::from_secs(9)),
        report::Row::Waiting { after: Some("mise") }
    ));
    let row = Row::Finished(done("bun"));
    assert!(matches!(
        row.at(Duration::from_secs(9)),
        report::Row::Finished(outcome) if outcome.name == "bun"
    ));
}
