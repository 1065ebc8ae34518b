use cid::escapes::strip_escapes;
use cid::project::report::{
    layout, plan_listing, prefixes, status_line, summary, tree_line, Node, Outcome, Row, Status,
};
use cid::project::Step;
use cid::duration::Duration;
use cid::prompt::{render, Line};
use cid::term::{bold, one_row, paint, style};

#[test]
fn csi_sequences_end_at_their_final_byte() {
    assert_eq!(strip_escapes("a\x1b[2Kb"), "ab");
    assert_eq!(strip_escapes("a\x1b[38;5;6mb\x1b[0mc"), "abc");
    assert_eq!(strip_escapes("a\x1b[?25"), "a");
    assert_eq!(strip_escapes("\x1b[\x1b[mx"), "mx");
}

#[test]
fn osc_sequences_end_at_bel_or_the_string_terminator() {
    assert_eq!(strip_escapes("\x1b]0;title\x07rest"), "rest");
    assert_eq!(strip_escapes("\x1b]0;title\x1b\\rest"), "rest");
    assert_eq!(strip_escapes("\x1b]0;\x1b]x\x07rest"), "rest");
    assert_eq!(strip_escapes("a\x1b]0;unended"), "a");
}

#[test]
fn other_sequences_lose_the_character_behind_the_escape() {
    assert_eq!(strip_escapes("a\x1bMb"), "ab");
    assert_eq!(strip_escapes("a\x1b\x1bb"), "ab");
    assert_eq!(strip_escapes("a\x1b"), "a");
}

#[test]
fn stripping_once_is_enough() {
    for text in ["", "plain", "a\x1b[1mb", "\x1b\x1b[1m", "\x1b]x\x1b\\\x1b[0m", "\x1b[\x1b\x1b"] {
        let once = strip_escapes(text);
        assert!(!once.contains('\x1b'), "{text:?}");
        assert_eq!(strip_escapes(&once), once);
    }
}

#[test]
fn a_style_is_set_and_reset() {
    assert_eq!(paint("x", 6, true), "\x1b[38;5;6mx\x1b[0m");
    assert_eq!(bold("x", true), "\x1b[1mx\x1b[0m");
    assert_eq!(style("x", Some(2), true, true), "\x1b[1;38;5;2mx\x1b[0m");
    assert_eq!(style("x", None, false, true), "x");
    assert_eq!(paint("x", 6, false), "x");
    assert_eq!(bold("x", false), "x");
    for code in 0..=255 {
        assert_eq!(strip_escapes(&paint("æ", code, true)), "æ");
    }
}

#[test]
fn a_row_loses_its_control_characters() {
    assert_eq!(one_row("a\tb\nc\u{9b}d é"), "abcd é");
}

fn outcome(name: &'static str, status: Status) -> Outcome {
    Outcome { name, status, output: String::new(), duration: Duration::from_millis(4321) }
}

#[test]
fn colour_changes_nothing_of_what_a_line_says() {
    let slots = layout(&[
        Node { name: "mise", after: None },
        Node { name: "rust", after: Some("mise") },
    ]);
    let outcomes = [
        outcome("rust", Status::Done),
        outcome("deno", Status::Skipped { reason: "deno not found".to_string() }),
        outcome("go", Status::Failed { code: Some(-1) }),
        outcome("bun", Status::Failed { code: None }),
    ];
    for slot in &slots {
        for outcome in &outcomes {
            assert_ne!(status_line(outcome, slot, true), status_line(outcome, slot, false));
            assert_eq!(
                strip_escapes(&status_line(outcome, slot, true)),
                status_line(outcome, slot, false)
            );
        }
        for row in [
            Row::Waiting { after: None },
            Row::Waiting { after: Some("mise") },
            Row::Running { elapsed: Duration::from_secs(61), activity: "" },
            Row::Running { elapsed: Duration::from_secs(61), activity: "fetching 情報" },
            Row::Finished(&outcomes[1]),
        ] {
            for columns in [0, 15, 18, 19, 20, 80] {
                assert_eq!(
                    strip_escapes(&tree_line(slot, &row, "⠋", columns, true)),
                    tree_line(slot, &row, "⠋", columns, false)
                );
            }
        }
    }

    let elapsed = Duration::from_secs(7);
    let plain = summary(&outcomes, elapsed, false);
    let colored = summary(&outcomes, elapsed, true);
    assert_eq!(colored.iter().map(|line| strip_escapes(line)).collect::<Vec<_>>(), plain);

    let names = ["mise", "rust", "terraform"];
    let colored = prefixes(&names, true);
    assert_eq!(
        colored.iter().map(|line| strip_escapes(line)).collect::<Vec<_>>(),
        prefixes(&names, false)
    );
    assert!(colored[0].ends_with("\x1b[0m      "), "{:?}", colored[0]);

    let step = Step::new("bun", "package.json".into(), "bun", &["install", ""]);
    assert_eq!(strip_escapes(&plan_listing(&[&step], true)[0]), plan_listing(&[&step], false)[0]);

    let (colored, _) = render("Title", &Line::new("a"), "File", "a.md", true);
    let (plain, _) = render("Title", &Line::new("a"), "File", "a.md", false);
    assert_eq!(colored.iter().map(|row| strip_escapes(row)).collect::<Vec<_>>(), plain);
    assert_eq!(colored[0], "\x1b[1mTitle\x1b[0m \x1b[38;5;6m›\x1b[0m a");
}
