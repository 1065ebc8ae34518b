use cid::duration::{format_duration, Duration};
use cid::escapes::strip_escapes;
use cid::project::report::{
    activity, activity_room, color, failure_reason, layout, pad, plan_listing, prefixes,
    running_line, status_line, summary,
    tree_line, truncate, Node, Outcome, Row, Slot, Status, INDENT, RED, STEP_COLORS,
};
use cid::project::Step;
use unicode_width::UnicodeWidthStr;

fn outcome(name: &'static str, status: Status) -> Outcome {
    Outcome {
        name,
        status,
        output: String::new(),
        duration: Duration::from_millis(120),
    }
}

fn skipped(reason: &str) -> Status {
    Status::Skipped {
        reason: reason.to_string(),
    }
}

#[test]
fn durations_switch_from_milliseconds_to_seconds() {
    assert_eq!(format_duration(Duration::from_millis(0)), "0ms");
    assert_eq!(format_duration(Duration::from_millis(999)), "999ms");
    assert_eq!(format_duration(Duration::from_millis(1000)), "1.0s");
    assert_eq!(format_duration(Duration::from_millis(4321)), "4.3s");
}

fn slot(name: &str, width: usize) -> Slot {
    Slot {
        indent: "",
        name: pad(name, width),
    }
}

#[test]
fn a_status_line_says_which_of_the_three_things_happened_without_colour() {
    let done = status_line(&outcome("rust", Status::Done), &slot("rust", 6), false);
    let skip = status_line(
        &outcome("maven", skipped("mvn not found")),
        &slot("maven", 6),
        false,
    );
    let fail = status_line(
        &outcome("go", Status::Failed { code: Some(1) }),
        &slot("go", 6),
        false,
    );

    assert_eq!(done, "✓ rust    120ms");
    assert_eq!(skip, "- maven   mvn not found");
    assert_eq!(fail, "✗ go      exit 1");
}

#[test]
fn steps_that_wait_are_indented_under_the_step_they_wait_for() {
    let slots = layout(&[
        Node {
            name: "mise",
            after: None,
        },
        Node {
            name: "terraform",
            after: Some("mise"),
        },
    ]);

    assert_eq!(
        slots,
        [
            Slot {
                indent: "",
                name: "mise       ".to_string(),
            },
            Slot {
                indent: INDENT,
                name: "terraform".to_string(),
            },
        ]
    );
}

#[test]
fn a_tree_without_dependencies_is_flat() {
    let slots = layout(&[
        Node {
            name: "go",
            after: None,
        },
        Node {
            name: "rust",
            after: None,
        },
    ]);

    assert!(slots.iter().all(|slot| slot.indent.is_empty()));
    assert_eq!(slots[0].name, "go  ");
}

#[test]
fn a_tree_line_shows_each_state_of_a_step_without_colour() {
    let slots = layout(&[
        Node {
            name: "mise",
            after: None,
        },
        Node {
            name: "rust",
            after: Some("mise"),
        },
    ]);
    let line = |slot: &Slot, row: Row<'_>| tree_line(slot, &row, "⠋", 80, false);
    let done = outcome("rust", Status::Done);

    assert_eq!(
        line(
            &slots[1],
            Row::Waiting {
                after: Some("mise")
            }
        ),
        "  ◌ rust  waiting for mise"
    );
    assert_eq!(
        line(&slots[0], Row::Waiting { after: None }),
        "◌ mise    queued"
    );
    assert_eq!(
        line(
            &slots[0],
            Row::Running {
                elapsed: Duration::from_millis(14_600),
                activity: "installing node",
            }
        ),
        "⠋ mise    14s  installing node"
    );
    let silent = Row::Running {
        elapsed: Duration::from_secs(3),
        activity: "",
    };
    assert_eq!(line(&slots[0], silent), "⠋ mise    3s");
    assert!(
        tree_line(
            &slots[0],
            &Row::Running {
                elapsed: Duration::from_secs(3),
                activity: "",
            },
            "⠋",
            80,
            true
        )
        .ends_with("3s\x1b[0m"),
        "a step that has said nothing still drew a segment for it"
    );
    assert_eq!(line(&slots[1], Row::Finished(&done)), "  ✓ rust  120ms");
}

#[test]
fn a_running_line_never_outgrows_the_terminal() {
    let slots = layout(&[Node {
        name: "bun",
        after: None,
    }]);
    let row = Row::Running {
        elapsed: Duration::from_secs(3),
        activity: "resolving 情報 packages from the registry",
    };

    for columns in [0, 10, 20, 30] {
        let line = tree_line(&slots[0], &row, "⠋", columns, false);
        assert!(
            line.width() <= columns.max(10),
            "{columns}: {line:?} is {} wide",
            line.width()
        );
    }
}

#[test]
fn truncation_marks_the_cut_and_counts_cells() {
    assert_eq!(truncate("abcdef", 6), "abcdef");
    assert_eq!(truncate("abcdef", 4), "abc…");
    assert_eq!(truncate("情報情報", 5), "情報…");
    assert_eq!(truncate("abc", 0), "");
}

#[test]
fn activity_is_the_last_visible_frame_of_a_line() {
    assert_eq!(activity("  fetching  "), Some("fetching".to_string()));
    assert_eq!(activity("\x1b[32mdone\x1b[0m"), Some("done".to_string()));
    assert_eq!(activity("10%\r50%\r"), Some("50%".to_string()));
    assert_eq!(
        activity("\x1b]8;;https://x\x07link\x1b]8;;\x1b\\"),
        Some("link".to_string())
    );
}

#[test]
fn blank_output_is_not_activity() {
    assert_eq!(activity(""), None);
    assert_eq!(activity("   \r  "), None);
    assert_eq!(activity("\x1b[2K"), None);
}

#[test]
fn a_step_that_never_started_says_so_rather_than_naming_a_status() {
    assert_eq!(failure_reason(None), "did not run");
    assert_eq!(failure_reason(Some(2)), "exit 2");
}

#[test]
fn the_summary_names_skips_and_failures_in_plan_order() {
    let outcomes = [
        outcome("mise", Status::Done),
        outcome("maven", skipped("mvn not found")),
        outcome("go", Status::Failed { code: Some(1) }),
        outcome("rust", Status::Done),
        outcome("deno", skipped("deno not found")),
    ];

    assert_eq!(
        summary(&outcomes, Duration::from_millis(3500), false),
        vec![
            "skipped    maven (mvn not found), deno (deno not found)",
            "failed     go",
            "total      3.5s",
        ]
    );
}

#[test]
fn a_run_with_nothing_to_report_is_the_total_alone() {
    let outcomes = [outcome("rust", Status::Done)];
    assert_eq!(
        summary(&outcomes, Duration::from_millis(12), false),
        vec!["total      12ms"]
    );
}

#[test]
fn every_step_gets_a_prefix_of_the_same_width() {
    let names = ["mise", "rust", "terraform"];
    let prefixes = prefixes(&names, false);

    assert_eq!(prefixes.len(), names.len());
    let width = prefixes[0].chars().count();
    for (prefix, name) in prefixes.iter().zip(names) {
        assert!(prefix.starts_with(&format!("[{name}]")), "{prefix}");
        assert_eq!(prefix.chars().count(), width, "{prefix}");
    }
}

#[test]
fn the_plan_listing_shows_the_name_the_evidence_and_the_command() {
    let steps = [
        Step::new("mise", "mise.toml".into(), "mise", &["install"]),
        Step::new("bun", "package.json + bun.lock".into(), "bun", &["install"]),
    ];
    let refs: Vec<&Step> = steps.iter().collect();

    assert_eq!(
        plan_listing(&refs, false),
        vec![
            "mise  mise.toml                $ mise install",
            "bun   package.json + bun.lock  $ bun install",
        ]
    );
}

#[test]
fn colours_cycle_and_never_land_on_the_one_failures_use() {
    assert_eq!(color(0), color(STEP_COLORS.len()));
    for index in 0..STEP_COLORS.len() {
        assert_ne!(color(index), RED, "a step was coloured like a failure");
    }
}

#[test]
fn colour_wraps_a_row_without_changing_what_it_says() {
    let line = status_line(&outcome("rust", Status::Done), &slot("rust", 4), true);
    assert!(line.contains("\x1b["), "nothing was coloured");
    assert!(line.contains("rust"), "{line}");
}

#[test]
fn padding_counts_characters_rather_than_bytes() {
    assert_eq!(pad("æøå", 5), "æøå  ");
    assert_eq!(pad("wider", 2), "wider");
}

#[test]
fn layout_of_no_steps_is_empty() {
    assert!(layout(&[]).is_empty());
}

#[test]
fn every_slot_of_a_tree_is_of_one_width() {
    let slots = layout(&[
        Node { name: "mise", after: None },
        Node { name: "æøå-terraform", after: Some("mise") },
        Node { name: "go", after: Some("mise") },
    ]);
    for slot in &slots {
        assert_eq!(slot.indent.len() + slot.name.chars().count(), 15);
    }
    assert_eq!(slots[2].clone(), Slot { indent: INDENT, name: "go           ".to_string() });
}

#[test]
fn only_a_failed_outcome_failed() {
    assert!(outcome("go", Status::Failed { code: None }).failed());
    assert!(!outcome("go", Status::Done).failed());
    assert!(!outcome("go", skipped("go not found")).failed());
}

#[test]
fn a_failed_step_names_its_status() {
    let line = |code| status_line(&outcome("go", Status::Failed { code }), &slot("go", 2), false);
    assert_eq!(line(Some(101)), "✗ go  exit 101");
    assert_eq!(line(Some(-9)), "✗ go  exit -9");
    assert_eq!(line(None), "✗ go  did not run");
}

#[test]
fn no_line_of_the_tree_is_wider_than_the_terminal() {
    let slots = layout(&[
        Node { name: "bun", after: None },
        Node { name: "情報", after: Some("bun") },
        Node { name: "❤\u{fe0f}\t", after: None },
    ]);
    let outcomes = [
        outcome("bun", Status::Done),
        outcome("bun", skipped("情報 not found")),
        outcome("bun", Status::Failed { code: Some(101) }),
    ];
    let elapsed = Duration::from_secs(14);
    for slot in &slots {
        for frame in ["⠋", "情", "", "❤\u{fe0f}"] {
            for row in [
                Row::Waiting { after: None },
                Row::Waiting { after: Some("情報") },
                Row::Running { elapsed, activity: "" },
                Row::Running { elapsed, activity: "resolving 情報 packages" },
                Row::Running { elapsed, activity: "❤\u{fe0f}❤\u{fe0f}❤\u{fe0f} \u{301}" },
                Row::Running { elapsed, activity: "\u{301}" },
                Row::Finished(&outcomes[0]),
                Row::Finished(&outcomes[1]),
                Row::Finished(&outcomes[2]),
            ] {
                for columns in 0..60 {
                    let line = tree_line(slot, &row, frame, columns, false);
                    assert!(line.width() <= columns, "{columns}: {line:?}");
                    let colored = tree_line(slot, &row, frame, columns, true);
                    assert_eq!(strip_escapes(&colored), line);
                }
            }
        }
    }
}

#[test]
fn a_line_that_does_not_fit_is_cut_at_its_end() {
    let waiting = Row::Waiting { after: Some("mise") };
    let line = |columns| tree_line(&slot("rust", 4), &waiting, "⠋", columns, false);
    assert_eq!(line(24), "◌ rust  waiting for mise");
    assert_eq!(line(23), "◌ rust  waiting for mi…");
    assert_eq!(line(8), "◌ rust …");
    assert_eq!(line(4), "◌ r…");
    assert_eq!(line(1), "…");
    assert_eq!(line(0), "");

    let running = Row::Running { elapsed: Duration::from_secs(3), activity: "fetching" };
    let line = |columns| tree_line(&slot("bun", 3), &running, "⠋", columns, false);
    assert_eq!(line(19), "⠋ bun  3s  fetching");
    assert_eq!(line(14), "⠋ bun  3s  fe…");
    assert_eq!(line(12), "⠋ bun  3s  …");
    assert_eq!(line(11), "⠋ bun  3s");
    assert_eq!(line(9), "⠋ bun  3s");
    assert_eq!(line(8), "⠋ bun  …");

    let done = outcome("bun", Status::Done);
    let line = |columns| tree_line(&slot("bun", 3), &Row::Finished(&done), "⠋", columns, false);
    assert_eq!(line(12), status_line(&done, &slot("bun", 3), false));
    assert_eq!(line(11), "✓ bun  120…");
    assert_eq!(line(5), "✓ bu…");
}

#[test]
fn a_cut_line_keeps_its_colours() {
    let done = outcome("bun", Status::Done);
    let line = |columns| tree_line(&slot("bun", 3), &Row::Finished(&done), "⠋", columns, true);
    assert_eq!(line(11), "\x1b[38;5;2m✓\x1b[0m bun  \x1b[38;5;8m120…\x1b[0m");
    assert_eq!(line(5), "\x1b[38;5;2m✓\x1b[0m bu…");
    assert_eq!(line(1), "\x1b[38;5;2m…\x1b[0m");
    assert_eq!(line(0), "");
}

#[test]
fn an_activity_takes_the_room_that_is_left() {
    assert_eq!(activity_room(&slot("bun", 3), 3, 2, 80), 69);
    assert_eq!(activity_room(&slot("bun", 3), 3, 2, 12), 1);
    assert_eq!(activity_room(&slot("bun", 3), 3, 2, 11), 0);
    assert_eq!(activity_room(&slot("bun", 3), usize::MAX, 2, 80), 0);
    assert_eq!(
        running_line(&slot("bun", 3), Duration::from_secs(3), "fetching", "⠋", false),
        "⠋ bun  3s  fetching"
    );
}

#[test]
fn activity_is_one_row_without_control_characters() {
    assert_eq!(activity("a\tb\u{7}c"), Some("abc".to_string()));
    assert_eq!(activity("\u{3000}x\u{a0}\r\t"), Some("x".to_string()));
    assert_eq!(activity("\x1b[1m\r\x1b[2K \x07"), None);
    assert_eq!(activity("first\rsecond\r\x1b[K"), Some("second".to_string()));
}

#[test]
fn prefixes_of_no_names_are_none() {
    assert!(prefixes(&[], true).is_empty());
    assert_eq!(prefixes(&["æøå", "go"], false), ["[æøå] ", "[go]  "]);
}

#[test]
fn a_listed_plan_lines_up() {
    let steps = [
        Step::new("mise", "mise.toml".into(), "mise", &["install"]),
        Step::new("æøå", String::new(), "bun", &["install", "", " "]),
    ];
    let refs: Vec<&Step> = steps.iter().collect();
    let lines = plan_listing(&refs, false);
    assert_eq!(lines, ["mise  mise.toml  $ mise install", "æøå              $ bun install"]);
    assert!(plan_listing(&[], false).is_empty());
}

#[test]
fn the_five_colours_come_round() {
    let codes: Vec<u8> = (0..7).map(color).collect();
    assert_eq!(codes, [6, 5, 2, 3, 4, 6, 5]);
}

#[test]
fn a_summary_without_skips_starts_with_the_failures() {
    let outcomes = [
        outcome("go", Status::Failed { code: None }),
        outcome("bun", Status::Failed { code: Some(2) }),
    ];
    assert_eq!(
        summary(&outcomes, Duration::from_secs(61), false),
        ["failed     go, bun", "total      61.0s"]
    );
    assert_eq!(summary(&[], Duration::from_secs(0), false), ["total      0ms"]);
}
