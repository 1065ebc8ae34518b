//! Rendering a run of project steps for a terminal: the plan as a tree that is
//! redrawn while it runs, or a coloured prefix per step when output streams.
//!
//! Everything here is pure: the caller runs the steps and prints what comes
//! back. Whether to colour is an argument, never a terminal check of its own.

use vstd::prelude::*;

use crate::duration::{format_duration, formatted, lemma_formatted, Duration, SECOND};
use crate::escapes::{
    lemma_strips_alone, lemma_strips_in_a_row, lemma_strips_plain, plain, strip_escapes, stripped,
    strips_to, style_strips_away,
};
use crate::project::{commands, steps_of, Command, Step};
use crate::term::{on_one_row, one_row, paint, painted, style, styled, SECONDARY};
use crate::text::{
    a_numeral_reads_back, a_signed_numeral_reads_back, char_count, chars, control, decimal, digits, end_trimmed, join, joined, lemma_digits,
    lemma_end_trimmed, lemma_end_trimmed_behind, lemma_start_trimmed, lemma_trimmed_of_blank,
    lengths, padded, pieces, push_spaces, short_of, signed_decimal, signed_digits, spaces, split,
    texts, trim, trim_end, trimmed, trimmed_has_no_outer_white_space, value, views,
    white_space,
};
use crate::utf8::split_behind;
use crate::width::{
    adds_up, char_width, each_cells, lemma_total_from_front, narrow, str_cells, str_width, total,
};

verus! {

/// How a step ended.
#[derive(Debug, PartialEq, Eq)]
pub enum Status {
    Done,
    /// The tool is not installed, so there was nothing to run. Not a failure:
    /// a project that pins a toolchain the machine does not have is a machine
    /// to install it on, not a broken run.
    Skipped { reason: String },
    Failed { code: Option<i32> },
}

impl Clone for Status {
    fn clone(&self) -> (copy: Status)
        ensures
            copy == *self,
    {
        match self {
            Status::Done => Status::Done,
            Status::Skipped { reason } => Status::Skipped { reason: reason.clone() },
            Status::Failed { code } => Status::Failed { code: *code },
        }
    }
}

/// One finished step.
#[derive(Debug)]
pub struct Outcome {
    pub name: &'static str,
    pub status: Status,
    /// Every line the command wrote to either stream, in the order it
    /// arrived; why it did not start, when that failed; empty when it was
    /// skipped.
    pub output: String,
    pub duration: Duration,
}

impl Clone for Outcome {
    fn clone(&self) -> (copy: Outcome)
        ensures
            copy == *self,
    {
        Outcome {
            name: self.name,
            status: self.status.clone(),
            output: self.output.clone(),
            duration: self.duration,
        }
    }
}

impl Outcome {
    pub fn failed(&self) -> (failed: bool)
        ensures
            failed == (self.status is Failed),
    {
        matches!(self.status, Status::Failed { .. })
    }
}

/// Colours cycled in plan order, so one step is told from another at a glance.
/// Red is left to failures, and these are the terminal's own palette.
pub const STEP_COLORS: [u8; 5] = [6, 5, 2, 3, 4];

/// For everything a row says about itself rather than names.
pub const DIM: u8 = SECONDARY;

pub const GREEN: u8 = 2;

pub const RED: u8 = 1;

/// The spinner's hue.
pub const SPINNER: u8 = 6;

/// The colour of the step at `index` in the plan.
pub fn color(index: usize) -> (code: u8)
    ensures
        code == STEP_COLORS@[index as int % 5],
{
    STEP_COLORS[index % 5]
}

/// The colours come round again after the last of them, no two of a round are
/// the same, and none is the one that failures are shown in.
pub proof fn colors_cycle_and_avoid_red(index: usize, other: usize)
    ensures
        index as int % 5 == other as int % 5 <==> STEP_COLORS@[index as int % 5]
            == STEP_COLORS@[other as int % 5],
        STEP_COLORS@[index as int % 5] != RED,
{
}

/// A step as the tree shows it: its name, and the step it waits for.
pub struct Node<'a> {
    pub name: &'a str,
    pub after: Option<&'a str>,
}

/// Where a step's line sits in the tree.
#[derive(Debug, PartialEq, Eq)]
pub struct Slot {
    pub indent: &'static str,
    /// The step's name, padded so every line's second column starts in one
    /// place whatever the indent.
    pub name: String,
}

impl Clone for Slot {
    fn clone(&self) -> (copy: Slot)
        ensures
            copy == *self,
    {
        Slot { indent: self.indent, name: self.name.clone() }
    }
}

/// Set before a step that waits for another, placing it under that step.
pub const INDENT: &'static str = "  ";

/// What stands before a step's name in the tree.
pub open spec fn indent_of(node: Node<'_>) -> Seq<char> {
    if node.after is Some {
        INDENT@
    } else {
        ""@
    }
}

/// The greatest of `lengths`, and 0 of none.
pub open spec fn greatest(lengths: Seq<nat>) -> nat
    decreases lengths.len(),
{
    if lengths.len() == 0 {
        0
    } else if lengths.last() > greatest(lengths.drop_last()) {
        lengths.last()
    } else {
        greatest(lengths.drop_last())
    }
}

/// No length is beyond the greatest of them.
proof fn lemma_greatest(lengths: Seq<nat>, i: int)
    requires
        0 <= i < lengths.len(),
    ensures
        lengths[i] <= greatest(lengths),
    decreases lengths.len(),
{
    if i < lengths.len() - 1 {
        lemma_greatest(lengths.drop_last(), i);
    }
}

/// Where the name of each step ends in the tree, behind its indent.
pub open spec fn name_ends(nodes: Seq<Node<'_>>) -> Seq<nat> {
    nodes.map_values(|node: Node<'_>| indent_of(node).len() + node.name@.len())
}

/// The column that every name of the tree is padded to.
pub open spec fn tree_width(nodes: Seq<Node<'_>>) -> nat {
    greatest(name_ends(nodes))
}

/// The indent of a node.
fn indent(node: &Node<'_>) -> (indent: &'static str)
    ensures
        indent@ == indent_of(*node),
{
    if node.after.is_some() {
        INDENT
    } else {
        ""
    }
}

/// Indent every step that waits for another, and pad the names so the column
/// after them lines up across the whole tree.
pub fn layout(nodes: &[Node<'_>]) -> (slots: Vec<Slot>)
    ensures
        slots@.len() == nodes@.len(),
        forall|i: int|
            0 <= i < nodes@.len() ==> (#[trigger] slots@[i]).indent@ == indent_of(nodes@[i])
                && slots@[i].name@ == padded(
                nodes@[i].name@,
                tree_width(nodes@) - indent_of(nodes@[i]).len(),
            ),
        forall|i: int|
            0 <= i < nodes@.len() ==> (#[trigger] slots@[i]).indent@.len() + slots@[i].name@.len()
                == tree_width(nodes@),
{
    let ghost ends = name_ends(nodes@);
    let mut width: usize = 0;
    let mut i: usize = 0;
    assert(ends.take(0) =~= Seq::empty());
    while i < nodes.len()
        invariant
            i <= nodes@.len(),
            ends == name_ends(nodes@),
            width == greatest(ends.take(i as int)),
        decreases nodes.len() - i,
    {
        assert(ends.take(i + 1).drop_last() =~= ends.take(i as int));
        let end: usize = char_count(indent(&nodes[i])) + char_count(nodes[i].name);
        if end > width {
            width = end;
        }
        i += 1;
    }
    assert(ends.take(i as int) =~= ends);

    let mut slots: Vec<Slot> = Vec::new();
    let mut i: usize = 0;
    while i < nodes.len()
        invariant
            i <= nodes@.len(),
            ends == name_ends(nodes@),
            width == greatest(ends),
            slots@.len() == i,
            forall|k: int|
                0 <= k < i ==> (#[trigger] slots@[k]).indent@ == indent_of(nodes@[k])
                    && slots@[k].name@ == padded(
                    nodes@[k].name@,
                    width - indent_of(nodes@[k]).len(),
                ) && slots@[k].indent@.len() + slots@[k].name@.len() == width,
        decreases nodes.len() - i,
    {
        let indent = indent(&nodes[i]);
        proof {
            lemma_greatest(ends, i as int);
        }
        let name = pad(nodes[i].name, width - char_count(indent));
        slots.push(Slot { indent, name });
        i += 1;
    }
    slots
}

/// Pad to `width` columns, counting characters rather than bytes.
pub fn pad(text: &str, width: usize) -> (out: String)
    ensures
        out@ == padded(text@, width as int),
{
    let count = char_count(text);
    let mut out = text.to_string();
    push_spaces(&mut out, width.saturating_sub(count));
    out
}

/// What is said of a step that failed.
pub open spec fn failure_text(code: Option<i32>) -> Seq<char> {
    match code {
        Some(code) => "exit "@ + signed_digits(code as int),
        None => "did not run"@,
    }
}

pub fn failure_reason(code: Option<i32>) -> (reason: String)
    ensures
        reason@ == failure_text(code),
{
    match code {
        Some(code) => {
            let mut out = "exit ".to_string();
            out.append(signed_decimal(code).as_str());
            out
        },
        None => "did not run".to_string(),
    }
}

/// A stretch of a line, in one colour or in none.
pub ghost struct Part {
    pub text: Seq<char>,
    pub tint: Option<u8>,
}

/// A stretch of a line in no colour.
pub open spec fn bare(text: Seq<char>) -> Part {
    Part { text, tint: None }
}

/// A stretch of a line in the colour `tint`.
pub open spec fn tinted(text: Seq<char>, tint: u8) -> Part {
    Part { text, tint: Some(tint) }
}

/// What the parts of a line say, one after the other.
pub open spec fn said(parts: Seq<Part>) -> Seq<char>
    decreases parts.len(),
{
    if parts.len() == 0 {
        Seq::empty()
    } else {
        said(parts.drop_last()) + parts.last().text
    }
}

/// The parts of a line, one after the other, each in its colour.
pub open spec fn drawn(parts: Seq<Part>, color: bool) -> Seq<char>
    decreases parts.len(),
{
    if parts.len() == 0 {
        Seq::empty()
    } else {
        drawn(parts.drop_last(), color) + styled(
            parts.last().text,
            parts.last().tint,
            false,
            color,
        )
    }
}

/// The parts of a line up to its first `keep` characters, with `mark` behind
/// them in the colour of the part that was cut.
pub open spec fn cut_parts(parts: Seq<Part>, keep: nat, mark: Seq<char>) -> Seq<Part>
    decreases parts.len(),
{
    if parts.len() == 0 {
        if mark.len() == 0 {
            parts
        } else {
            seq![bare(mark)]
        }
    } else {
        let before = parts.drop_last();
        let end = parts.last().text.take(keep - said(before).len()) + mark;
        if keep < said(before).len() {
            cut_parts(before, keep, mark)
        } else if end.len() == 0 {
            before
        } else {
            before.push(Part { text: end, tint: parts.last().tint })
        }
    }
}

/// Whether no part holds an escape character.
pub open spec fn plain_parts(parts: Seq<Part>) -> bool {
    forall|i: int| 0 <= i < parts.len() ==> plain((#[trigger] parts[i]).text)
}

/// Without colour a line is what its parts say.
proof fn lemma_drawn_without_color(parts: Seq<Part>)
    ensures
        drawn(parts, false) == said(parts),
    decreases parts.len(),
{
    if parts.len() > 0 {
        lemma_drawn_without_color(parts.drop_last());
    }
}

/// Stripped of escape sequences, a line is what its parts say.
#[verifier::rlimit(40)]
proof fn lemma_drawn_strips(parts: Seq<Part>, color: bool)
    requires
        plain_parts(parts),
    ensures
        strips_to(drawn(parts, color), said(parts)),
        stripped(drawn(parts, color)) == said(parts),
    decreases parts.len(),
{
    if parts.len() == 0 {
        lemma_strips_plain(said(parts));
    } else {
        let before = parts.drop_last();
        let last = parts.last();
        assert forall|i: int| 0 <= i < before.len() implies plain((#[trigger] before[i]).text) by {
            assert(before[i] == parts[i]);
        }
        assert(plain(parts[parts.len() - 1].text));
        lemma_drawn_strips(before, color);
        style_strips_away(last.text, last.tint, false, color);
        lemma_strips_in_a_row(
            drawn(before, color),
            said(before),
            styled(last.text, last.tint, false, color),
            last.text,
        );
    }
    lemma_strips_alone(drawn(parts, color), said(parts));
}

/// What a line says that was cut is the start of what it said, and the mark.
proof fn lemma_cut_says(parts: Seq<Part>, keep: nat, mark: Seq<char>)
    requires
        keep <= said(parts).len(),
    ensures
        said(cut_parts(parts, keep, mark)) == said(parts).take(keep as int) + mark,
        plain_parts(parts) && plain(mark) ==> plain_parts(cut_parts(parts, keep, mark)),
    decreases parts.len(),
{
    let cut = cut_parts(parts, keep, mark);
    let all = said(parts);
    if parts.len() == 0 {
        if mark.len() > 0 {
            assert(cut.drop_last() =~= parts);
            assert(said(cut) == said(parts) + mark);
        }
        assert(said(cut) =~= all.take(keep as int) + mark);
    } else {
        let before = parts.drop_last();
        let end = parts.last().text.take(keep - said(before).len()) + mark;
        if plain_parts(parts) {
            assert forall|i: int| 0 <= i < before.len() implies plain(
                (#[trigger] before[i]).text,
            ) by {
                assert(before[i] == parts[i]);
            }
            assert(plain(parts[parts.len() - 1].text));
        }
        if keep < said(before).len() {
            lemma_cut_says(before, keep, mark);
            assert(said(before).take(keep as int) =~= all.take(keep as int));
        } else {
            assert(all.take(keep as int) =~= said(before) + parts.last().text.take(
                keep - said(before).len(),
            ));
            if end.len() > 0 {
                assert(cut.drop_last() =~= before);
            }
            assert(said(cut) =~= all.take(keep as int) + mark);
        }
    }
}

/// A stretch of a line, in one colour or in none.
struct Segment {
    text: String,
    tint: Option<u8>,
}

impl View for Segment {
    type V = Part;

    closed spec fn view(&self) -> Part {
        Part { text: self.text@, tint: self.tint }
    }
}

/// What each of `segments` is.
spec fn parts_of(segments: Seq<Segment>) -> Seq<Part> {
    segments.map_values(|segment: Segment| segment@)
}

/// Put `text` behind `segments`.
fn add_segment(segments: &mut Vec<Segment>, text: &str, tint: Option<u8>)
    ensures
        parts_of(final(segments)@) == parts_of(old(segments)@).push(Part { text: text@, tint }),
        forall|color: bool| #[trigger]
            drawn(parts_of(final(segments)@), color) == drawn(parts_of(old(segments)@), color)
                + styled(text@, tint, false, color),
{
    let ghost before = parts_of(segments@);
    segments.push(Segment { text: text.to_string(), tint });
    assert(parts_of(segments@) =~= before.push(Part { text: text@, tint }));
    assert(before.push(Part { text: text@, tint }).drop_last() =~= before);
}

/// The segments of a line, one after the other, each in its colour.
fn draw_segments(segments: &Vec<Segment>, color: bool) -> (line: String)
    ensures
        line@ == drawn(parts_of(segments@), color),
{
    let ghost all = parts_of(segments@);
    let mut line = String::new();
    let mut i: usize = 0;
    assert(all.take(0) =~= Seq::empty());
    while i < segments.len()
        invariant
            i <= segments@.len(),
            all == parts_of(segments@),
            line@ == drawn(all.take(i as int), color),
        decreases segments.len() - i,
    {
        assert(all.take(i + 1).drop_last() =~= all.take(i as int));
        line.append(style(segments[i].text.as_str(), segments[i].tint, false, color).as_str());
        i += 1;
    }
    assert(all.take(i as int) =~= all);
    line
}

/// The segments of a line of `count` characters up to its first `keep`, with
/// `mark` behind them.
fn cut_segments(segments: Vec<Segment>, count: usize, keep: usize, mark: &str) -> (cut: Vec<Segment>)
    requires
        count == said(parts_of(segments@)).len(),
        keep <= count,
    ensures
        parts_of(cut@) == cut_parts(parts_of(segments@), keep as nat, mark@),
{
    let ghost wanted = cut_parts(parts_of(segments@), keep as nat, mark@);
    let mut cut = segments;
    let mut end: usize = count;
    while cut.len() > 0
        invariant
            end == said(parts_of(cut@)).len(),
            keep <= end,
            wanted == cut_parts(parts_of(segments@), keep as nat, mark@),
            wanted == cut_parts(parts_of(cut@), keep as nat, mark@),
        decreases cut.len(),
    {
        let ghost parts = parts_of(cut@);
        let last = cut.pop();
        assert(parts_of(cut@) =~= parts.drop_last());
        if let Some(segment) = last {
            assert(parts.last() == segment@);
            let before: usize = end - char_count(segment.text.as_str());
            if keep >= before {
                let mut text = split_behind(segment.text.as_str(), keep - before).0.to_string();
                text.append(mark);
                assert(text@ == parts.last().text.take(keep - said(parts.drop_last()).len())
                    + mark@);
                if !text.as_str().is_empty() {
                    add_segment(&mut cut, text.as_str(), segment.tint);
                }
                return cut;
            }
            end = before;
        }
    }
    assert(parts_of(cut@) =~= Seq::empty());
    if !mark.is_empty() {
        add_segment(&mut cut, mark, None);
        assert(parts_of(cut@) =~= seq![bare(mark@)]);
    }
    cut
}

/// One step's final line: what the tree settles on, and what is printed alone
/// when there is no terminal to draw the tree on.
pub open spec fn status_text(outcome: Outcome, slot: Slot, color: bool) -> Seq<char> {
    match outcome.status {
        Status::Done => slot.indent@ + painted("✓"@, GREEN, color) + " "@ + slot.name@ + "  "@
            + painted(formatted(outcome.duration@), DIM, color),
        Status::Skipped { reason } => slot.indent@ + painted("-"@, DIM, color) + " "@ + painted(
            slot.name@,
            DIM,
            color,
        ) + "  "@ + painted(reason@, DIM, color),
        Status::Failed { code } => slot.indent@ + painted("✗"@, RED, color) + " "@ + slot.name@
            + "  "@ + painted(failure_text(code), RED, color),
    }
}

/// The parts of a step's final line.
pub open spec fn status_parts(outcome: Outcome, slot: Slot) -> Seq<Part> {
    match outcome.status {
        Status::Done => seq![
            bare(slot.indent@),
            tinted("✓"@, GREEN),
            bare(" "@),
            bare(slot.name@),
            bare("  "@),
            tinted(formatted(outcome.duration@), DIM),
        ],
        Status::Skipped { reason } => seq![
            bare(slot.indent@),
            tinted("-"@, DIM),
            bare(" "@),
            tinted(slot.name@, DIM),
            bare("  "@),
            tinted(reason@, DIM),
        ],
        Status::Failed { code } => seq![
            bare(slot.indent@),
            tinted("✗"@, RED),
            bare(" "@),
            bare(slot.name@),
            bare("  "@),
            tinted(failure_text(code), RED),
        ],
    }
}

/// A step's final line is its parts, one after the other.
pub proof fn status_is_its_parts(outcome: Outcome, slot: Slot, color: bool)
    ensures
        drawn(status_parts(outcome, slot), color) == status_text(outcome, slot, color),
        said(status_parts(outcome, slot)) == status_text(outcome, slot, false),
{
    let parts = status_parts(outcome, slot);
    lemma_six_parts(parts, color);
    lemma_six_parts(parts, false);
    lemma_drawn_without_color(parts);
}

proof fn lemma_six_parts(parts: Seq<Part>, color: bool)
    requires
        parts.len() == 6,
    ensures
        drawn(parts, color) == styled(parts[0].text, parts[0].tint, false, color) + styled(
            parts[1].text,
            parts[1].tint,
            false,
            color,
        ) + styled(parts[2].text, parts[2].tint, false, color) + styled(
            parts[3].text,
            parts[3].tint,
            false,
            color,
        ) + styled(parts[4].text, parts[4].tint, false, color) + styled(
            parts[5].text,
            parts[5].tint,
            false,
            color,
        ),
{
    reveal_with_fuel(drawn, 7);
    let first = styled(parts[0].text, parts[0].tint, false, color);
    assert(Seq::<char>::empty() + first =~= first);
    let five = parts.drop_last();
    let four = five.drop_last();
    let three = four.drop_last();
    let two = three.drop_last();
    let one = two.drop_last();
    assert(one.drop_last() =~= Seq::empty());
    assert(drawn(one, color) == first);
}

/// The segments of a row of the tree up to its remark: a glyph and the name of
/// the step.
fn head_segments(slot: &Slot, glyph: &str, glyph_tint: u8, name_tint: Option<u8>) -> (segments: Vec<
    Segment,
>)
    ensures
        parts_of(segments@) == seq![
            bare(slot.indent@),
            tinted(glyph@, glyph_tint),
            bare(" "@),
            Part { text: slot.name@, tint: name_tint },
            bare("  "@),
        ],
        forall|color: bool| #[trigger]
            drawn(parts_of(segments@), color) == slot.indent@ + painted(glyph@, glyph_tint, color)
                + " "@ + styled(slot.name@, name_tint, false, color) + "  "@,
{
    let mut segments: Vec<Segment> = Vec::new();
    assert(parts_of(segments@) =~= Seq::empty());
    add_segment(&mut segments, slot.indent, None);
    assert forall|color: bool| #[trigger]
        drawn(parts_of(segments@), color) == slot.indent@ by {
        assert(drawn(Seq::empty(), color) + slot.indent@ =~= slot.indent@);
    }
    add_segment(&mut segments, glyph, Some(glyph_tint));
    add_segment(&mut segments, " ", None);
    add_segment(&mut segments, slot.name.as_str(), name_tint);
    add_segment(&mut segments, "  ", None);
    assert(parts_of(segments@) =~= seq![
        bare(slot.indent@),
        tinted(glyph@, glyph_tint),
        bare(" "@),
        Part { text: slot.name@, tint: name_tint },
        bare("  "@),
    ]);
    segments
}

/// The segments of a step's final line.
fn status_segments(outcome: &Outcome, slot: &Slot) -> (segments: Vec<Segment>)
    ensures
        parts_of(segments@) == status_parts(*outcome, *slot),
        forall|color: bool| #[trigger]
            drawn(parts_of(segments@), color) == status_text(*outcome, *slot, color),
        plain_slot(*slot) && plain_status(outcome.status) ==> plain_parts(parts_of(segments@)),
{
    let segments = match &outcome.status {
        Status::Done => {
            let mut segments = head_segments(slot, "✓", GREEN, None);
            add_segment(&mut segments, format_duration(outcome.duration).as_str(), Some(DIM));
            proof {
                lemma_formatted(outcome.duration@);
            }
            segments
        },
        Status::Skipped { reason } => {
            let mut segments = head_segments(slot, "-", DIM, Some(DIM));
            add_segment(&mut segments, reason.as_str(), Some(DIM));
            segments
        },
        Status::Failed { code } => {
            let mut segments = head_segments(slot, "✗", RED, None);
            add_segment(&mut segments, failure_reason(*code).as_str(), Some(RED));
            proof {
                lemma_failure_is_plain(*code);
            }
            segments
        },
    };
    proof {
        reveal_strlit("✓");
        reveal_strlit("✗");
        reveal_strlit("-");
        reveal_strlit(" ");
        reveal_strlit("  ");
        assert(parts_of(segments@) =~= status_parts(*outcome, *slot));
    }
    segments
}

/// What is said of a failed step holds no escape character.
proof fn lemma_failure_is_plain(code: Option<i32>)
    ensures
        plain(failure_text(code)),
{
    reveal_strlit("did not run");
    reveal_strlit("exit ");
    reveal_strlit("-");
    if let Some(code) = code {
        let size = if code < 0 {
            -code
        } else {
            code as int
        };
        lemma_digits(size as nat);
    }
}

/// One step's final line: what the tree settles on, and what is printed alone
/// when there is no terminal to draw the tree on.
pub fn status_line(outcome: &Outcome, slot: &Slot, color: bool) -> (line: String)
    ensures
        line@ == status_text(*outcome, *slot, color),
        plain_slot(*slot) && plain_status(outcome.status) ==> stripped(line@) == status_text(
            *outcome,
            *slot,
            false,
        ),
{
    let segments = status_segments(outcome, slot);
    let line = draw_segments(&segments, color);
    proof {
        let parts = parts_of(segments@);
        assert(drawn(parts, color) == status_text(*outcome, *slot, color));
        assert(drawn(parts, false) == status_text(*outcome, *slot, false));
        lemma_drawn_without_color(parts);
        if plain_parts(parts) {
            lemma_drawn_strips(parts, color);
        }
    }
    line
}

/// Whether a slot holds no escape character.
pub open spec fn plain_slot(slot: Slot) -> bool {
    plain(slot.indent@) && plain(slot.name@)
}

/// Whether what a status says holds no escape character.
pub open spec fn plain_status(status: Status) -> bool {
    status matches Status::Skipped { reason } ==> plain(reason@)
}

/// What one frame of a redrawn line shows.
pub open spec fn frame_text(frame: Seq<char>) -> Seq<char> {
    trimmed(on_one_row(frame))
}

/// What the last of `frames` that shows anything shows.
pub open spec fn last_shown(frames: Seq<Seq<char>>) -> Option<Seq<char>>
    decreases frames.len(),
{
    if frames.len() == 0 {
        None
    } else if frame_text(frames.last()).len() > 0 {
        Some(frame_text(frames.last()))
    } else {
        last_shown(frames.drop_last())
    }
}

/// What is worth showing of a line of output.
pub open spec fn activity_text(line: Seq<char>) -> Option<Seq<char>> {
    last_shown(pieces(stripped(line), '\r'))
}

/// A line of a step's output reduced to what is worth showing beside its
/// spinner: escape sequences removed, and only the last frame of a line that
/// redraws itself with carriage returns. A blank line is nothing to show.
pub fn activity(line: &str) -> (shown: Option<String>)
    ensures
        match shown {
            Some(text) => activity_text(line@) == Some(text@),
            None => activity_text(line@) is None,
        },
{
    let said = strip_escapes(line);
    let frames = split(said.as_str(), '\r');
    let ghost all = pieces(said@, '\r');
    let mut i: usize = frames.len();
    assert(all.take(i as int) =~= all);
    while i > 0
        invariant
            i <= frames@.len(),
            texts(frames@) == all,
            activity_text(line@) == last_shown(all),
            last_shown(all) == last_shown(all.take(i as int)),
        decreases i,
    {
        i -= 1;
        assert(all.take(i + 1).drop_last() =~= all.take(i as int));
        assert(all[i as int] == frames@[i as int]@);
        let text = trim(one_row(frames[i].as_str()).as_str());
        if !text.as_str().is_empty() {
            return Some(text);
        }
    }
    None
}

/// Whether `c` shows on a row: it is neither a control character nor white
/// space.
pub open spec fn visible(c: char) -> bool {
    !control(c) && !white_space(c)
}

/// What is shown of a line is one row of text: not blank, without white space
/// around it and without control characters, an escape character among them.
/// There is nothing to show exactly where the line, without its escape
/// sequences, holds nothing visible.
pub proof fn activity_is_one_visible_row(line: Seq<char>)
    ensures
        activity_text(line) matches Some(text) ==> text.len() > 0 && trimmed(text) == text
            && plain(text) && forall|i: int|
            0 <= i < text.len() ==> !control(#[trigger] text[i]),
        activity_text(line) is None <==> forall|i: int|
            0 <= i < stripped(line).len() ==> !visible(#[trigger] stripped(line)[i]),
{
    let said = stripped(line);
    lemma_last_shown(pieces(said, '\r'));
    lemma_pieces_show_what_the_text_does(said);
}

/// What [`activity_is_one_visible_row`] says, of frames.
proof fn lemma_last_shown(frames: Seq<Seq<char>>)
    ensures
        last_shown(frames) matches Some(text) ==> text.len() > 0 && trimmed(text) == text
            && forall|i: int| 0 <= i < text.len() ==> !control(#[trigger] text[i]),
        last_shown(frames) is None <==> forall|k: int|
            0 <= k < frames.len() ==> blank(#[trigger] frames[k]),
    decreases frames.len(),
{
    if frames.len() > 0 {
        let frame = frames.last();
        lemma_frame_text(frame);
        lemma_last_shown(frames.drop_last());
        if frame_text(frame).len() == 0 {
            if last_shown(frames.drop_last()) is None {
                assert forall|k: int| 0 <= k < frames.len() implies blank(
                    #[trigger] frames[k],
                ) by {
                    if k < frames.len() - 1 {
                        assert(frames[k] == frames.drop_last()[k]);
                    }
                }
            } else {
                let k = choose|k: int|
                    0 <= k < frames.drop_last().len() && !blank(#[trigger] frames.drop_last()[k]);
                assert(!blank(frames[k]));
            }
        } else {
            assert(!blank(frames[frames.len() - 1]));
        }
    }
}

/// Whether nothing of `text` is visible.
spec fn blank(text: Seq<char>) -> bool {
    forall|i: int| 0 <= i < text.len() ==> !visible(#[trigger] text[i])
}

proof fn lemma_frame_text(frame: Seq<char>)
    ensures
        frame_text(frame).len() == 0 <==> blank(frame),
        trimmed(frame_text(frame)) == frame_text(frame),
        forall|i: int| 0 <= i < frame_text(frame).len() ==> !control(#[trigger] frame_text(frame)[i]),
{
    let row = on_one_row(frame);
    trimmed_has_no_outer_white_space(row);
    lemma_trimmed_of_blank(row);
    lemma_end_trimmed(row);
    lemma_start_trimmed(end_trimmed(row));
    lemma_on_one_row(frame);
}

/// A row holds no control character, and is all white space exactly where
/// nothing of the text is visible.
proof fn lemma_on_one_row(text: Seq<char>)
    ensures
        forall|i: int| 0 <= i < on_one_row(text).len() ==> !control(#[trigger] on_one_row(text)[i]),
        blank(text) <==> forall|i: int|
            0 <= i < on_one_row(text).len() ==> white_space(#[trigger] on_one_row(text)[i]),
    decreases text.len(),
{
    reveal(Seq::filter);
    if text.len() > 0 {
        let before = text.drop_last();
        lemma_on_one_row(before);
        let row = on_one_row(text);
        assert(blank(text) <==> blank(before) && !visible(text.last())) by {
            if blank(before) && !visible(text.last()) {
                assert forall|i: int| 0 <= i < text.len() implies !visible(#[trigger] text[i]) by {
                    if i < text.len() - 1 {
                        assert(text[i] == before[i]);
                    }
                }
            }
            if blank(text) {
                assert forall|i: int| 0 <= i < before.len() implies !visible(
                    #[trigger] before[i],
                ) by {
                    assert(before[i] == text[i]);
                }
                assert(!visible(text[text.len() - 1]));
            }
        }
        if !control(text.last()) {
            assert(row == on_one_row(before).push(text.last()));
            if forall|i: int| 0 <= i < row.len() ==> white_space(#[trigger] row[i]) {
                assert(white_space(row[row.len() - 1]));
                assert forall|i: int| 0 <= i < on_one_row(before).len() implies white_space(
                    #[trigger] on_one_row(before)[i],
                ) by {
                    assert(on_one_row(before)[i] == row[i]);
                }
            }
        }
    }
}

/// All frames of a line are blank exactly where the line is.
proof fn lemma_pieces_show_what_the_text_does(text: Seq<char>)
    ensures
        pieces(text, '\r').len() > 0,
        (forall|k: int| 0 <= k < pieces(text, '\r').len() ==> blank(#[trigger] pieces(text, '\r')[k]))
            <==> blank(text),
    decreases text.len(),
{
    let frames = pieces(text, '\r');
    if text.len() == 0 {
        assert(frames[0] =~= Seq::empty());
    } else {
        let before = text.drop_last();
        let earlier = pieces(before, '\r');
        lemma_pieces_show_what_the_text_does(before);
        lemma_blank_push(before, text.last());
        assert(before.push(text.last()) =~= text);
        if text.last() == '\r' {
            assert(!visible(text.last()));
            if blank(text) {
                assert forall|k: int| 0 <= k < frames.len() implies blank(#[trigger] frames[k]) by {
                    if k < earlier.len() {
                        assert(frames[k] == earlier[k]);
                    }
                }
            }
            if forall|k: int| 0 <= k < frames.len() ==> blank(#[trigger] frames[k]) {
                assert forall|k: int| 0 <= k < earlier.len() implies blank(
                    #[trigger] earlier[k],
                ) by {
                    assert(frames[k] == earlier[k]);
                }
            }
        } else {
            let last = earlier.len() - 1;
            lemma_blank_push(earlier.last(), text.last());
            if blank(text) {
                assert forall|k: int| 0 <= k < frames.len() implies blank(#[trigger] frames[k]) by {
                    assert(blank(earlier[k]));
                }
            }
            if forall|k: int| 0 <= k < frames.len() ==> blank(#[trigger] frames[k]) {
                assert(blank(frames[last]));
                assert forall|k: int| 0 <= k < earlier.len() implies blank(
                    #[trigger] earlier[k],
                ) by {
                    if k < last {
                        assert(frames[k] == earlier[k]);
                    }
                }
            }
        }
    }
}

proof fn lemma_blank_push(text: Seq<char>, c: char)
    ensures
        blank(text.push(c)) <==> blank(text) && !visible(c),
{
    let all = text.push(c);
    if blank(all) {
        assert forall|i: int| 0 <= i < text.len() implies !visible(#[trigger] text[i]) by {
            assert(all[i] == text[i]);
        }
        assert(!visible(all[text.len() as int]));
    }
}

/// How many characters fit into `room` cells, each taking the cells given for
/// it.
pub open spec fn fitting(cells: Seq<usize>, room: nat) -> nat
    decreases cells.len(),
{
    if cells.len() == 0 || cells[0] > room {
        0
    } else {
        1 + fitting(cells.drop_first(), (room - cells[0]) as nat)
    }
}

/// As many characters fit as the room holds, and one more does not.
pub proof fn fitting_is_the_most_that_fits(cells: Seq<usize>, room: nat)
    ensures
        fitting(cells, room) <= cells.len(),
        total(cells.take(fitting(cells, room) as int)) <= room,
        fitting(cells, room) < cells.len() ==> total(
            cells.take(fitting(cells, room) as int + 1),
        ) > room,
    decreases cells.len(),
{
    let fit = fitting(cells, room) as int;
    if cells.len() == 0 || cells[0] > room {
        assert(cells.take(0) =~= Seq::empty());
        if cells.len() > 0 {
            lemma_total_from_front(cells.take(1));
        }
    } else {
        let rest = cells.drop_first();
        fitting_is_the_most_that_fits(rest, (room - cells[0]) as nat);
        lemma_total_from_front(cells.take(fit));
        assert(cells.take(fit).drop_first() =~= rest.take(fit - 1));
        if fit < cells.len() {
            lemma_total_from_front(cells.take(fit + 1));
            assert(cells.take(fit + 1).drop_first() =~= rest.take(fit));
        }
    }
}

/// How many of the characters that take `cells` fit into `room`.
pub fn fitted(cells: &[usize], room: usize) -> (count: usize)
    ensures
        count == fitting(cells@, room as nat),
        count <= cells@.len(),
{
    let mut used: usize = 0;
    let mut i: usize = 0;
    assert(cells@.skip(0) =~= cells@);
    while i < cells.len() && cells[i] <= room - used
        invariant
            i <= cells@.len(),
            used <= room,
            fitting(cells@, room as nat) == i + fitting(
                cells@.skip(i as int),
                (room - used) as nat,
            ),
        decreases cells.len() - i,
    {
        assert(cells@.skip(i as int).drop_first() =~= cells@.skip(i + 1));
        used += cells[i];
        i += 1;
    }
    i
}

/// Numbers of cells, as numbers.
pub open spec fn numbers(widths: Seq<usize>) -> Seq<nat> {
    widths.map_values(|width: usize| width as nat)
}

/// The place of the last of `widths` that is within `columns`, or the first.
pub open spec fn last_within(widths: Seq<nat>, columns: nat) -> nat
    decreases widths.len(),
{
    if widths.len() <= 1 {
        0
    } else if widths.last() <= columns {
        (widths.len() - 1) as nat
    } else {
        last_within(widths.drop_last(), columns)
    }
}

/// Where the first of `widths` is within `columns`, so is the one whose place is
/// given, and none behind it.
pub proof fn last_within_is_the_last(widths: Seq<nat>, columns: nat)
    requires
        widths.len() > 0,
        widths[0] <= columns,
    ensures
        last_within(widths, columns) < widths.len(),
        widths[last_within(widths, columns) as int] <= columns,
        forall|i: int|
            last_within(widths, columns) < i < widths.len() ==> #[trigger] widths[i] > columns,
    decreases widths.len(),
{
    if widths.len() > 1 && widths.last() > columns {
        let before = widths.drop_last();
        last_within_is_the_last(before, columns);
        assert forall|i: int|
            last_within(widths, columns) < i < widths.len() implies #[trigger] widths[i] > columns by {
            if i < widths.len() - 1 {
                assert(before[i] == widths[i]);
            }
        }
    }
}

/// The place of the last of `widths` that is within `columns`, or the first.
pub fn last_fitting(widths: &[usize], columns: usize) -> (place: usize)
    ensures
        place == last_within(numbers(widths@), columns as nat),
{
    let ghost all = numbers(widths@);
    let mut i: usize = widths.len();
    assert(all.take(i as int) =~= all);
    while i > 1
        invariant
            i <= widths@.len(),
            all == numbers(widths@),
            last_within(all, columns as nat) == last_within(all.take(i as int), columns as nat),
        decreases i,
    {
        assert(all.take(i as int).drop_last() =~= all.take(i - 1));
        if widths[i - 1] <= columns {
            return i - 1;
        }
        i -= 1;
    }
    0
}

/// Stands behind a text that was cut.
pub const ELLIPSIS: &'static str = "…";

/// What stands behind a text that was cut to `columns`: the mark of the cut,
/// where there is room for it.
pub open spec fn mark_in(columns: nat) -> Seq<char> {
    if columns > 0 {
        ELLIPSIS@
    } else {
        ""@
    }
}

/// What stands behind a text that was cut to `columns`.
fn mark(columns: usize) -> (mark: &'static str)
    ensures
        mark@ == mark_in(columns as nat),
{
    if columns > 0 {
        ELLIPSIS
    } else {
        ""
    }
}

/// The first `keep` characters of `text` with the mark of a cut to `columns`.
pub open spec fn marked(text: Seq<char>, keep: nat, columns: nat) -> Seq<char> {
    text.take(keep as int) + mark_in(columns)
}

/// The first `keep` characters of `text` with the mark of a cut to `columns`.
pub fn cut(text: &str, keep: usize, columns: usize) -> (out: String)
    requires
        keep <= text@.len(),
    ensures
        out@ == marked(text@, keep as nat, columns as nat),
{
    let mut out = split_behind(text, keep).0.to_string();
    out.append(mark(columns));
    out
}

/// The cells that `columns` leave before the mark of a cut.
pub open spec fn room_before_mark(columns: nat) -> nat {
    if columns > 0 {
        (columns - 1) as nat
    } else {
        0
    }
}

/// The cells of each start of `text` with the mark of a cut to `columns`, up to
/// the one whose characters, counted one by one, leave room for the mark.
pub open spec fn marked_cells(text: Seq<char>, columns: nat) -> Seq<nat> {
    Seq::new(
        fitting(each_cells(text), room_before_mark(columns)) + 1,
        |keep: int| str_cells(marked(text, keep as nat, columns)),
    )
}

/// How many characters are kept of a `text` that is cut to `columns`: as many as
/// leave room for the mark, or fewer where what is kept takes more cells in a
/// row than one by one.
pub open spec fn kept(text: Seq<char>, columns: nat) -> nat {
    last_within(marked_cells(text, columns), columns)
}

/// `text` cut to `columns` terminal cells, where it takes more.
pub open spec fn truncated(text: Seq<char>, columns: nat) -> Seq<char> {
    if str_cells(text) <= columns {
        text
    } else {
        marked(text, kept(text, columns), columns)
    }
}

/// How many characters are kept of a `text` that is cut to `columns`.
fn keep(text: &str, columns: usize) -> (count: usize)
    ensures
        count == kept(text@, columns as nat),
        count <= text@.len(),
        str_cells(marked(text@, count as nat, columns as nat)) <= columns,
        adds_up(marked(text@, count as nat, columns as nat)),
{
    let all = chars(text);
    let mut cells: Vec<usize> = Vec::new();
    let mut i: usize = 0;
    while i < all.len()
        invariant
            i <= all@.len(),
            cells@ == each_cells(all@.take(i as int)),
        decreases all.len() - i,
    {
        let own: usize = match char_width(all[i]) {
            Some(own) => own,
            None => 0,
        };
        cells.push(own);
        i += 1;
        assert(cells@ =~= each_cells(all@.take(i as int)));
    }
    assert(all@.take(i as int) =~= text@);
    let most = fitted(cells.as_slice(), columns.saturating_sub(1));
    let mut widths: Vec<usize> = Vec::new();
    proof {
        reveal_strlit("…");
        reveal_strlit("");
        assert(marked(text@, 0, columns as nat) =~= mark_in(columns as nat));
    }
    widths.push(str_width(mark(columns)));
    assert(adds_up(mark_in(columns as nat)));
    let mut i: usize = 0;
    while i < most
        invariant
            i <= most <= text@.len(),
            widths@.len() == i + 1,
            widths@[0] <= columns,
            forall|k: int|
                0 <= k <= i ==> #[trigger] widths@[k] == str_cells(
                    marked(text@, k as nat, columns as nat),
                ) && adds_up(marked(text@, k as nat, columns as nat)),
        decreases most - i,
    {
        i += 1;
        let start = cut(text, i, columns);
        widths.push(str_width(start.as_str()));
        assert(start@ == marked(text@, i as nat, columns as nat));
        assert(adds_up(start@));
    }
    let count = last_fitting(widths.as_slice(), columns);
    proof {
        assert(numbers(widths@) =~= marked_cells(text@, columns as nat));
        last_within_is_the_last(numbers(widths@), columns as nat);
        assert(widths@[count as int] == str_cells(marked(text@, count as nat, columns as nat)));
    }
    count
}

/// `text` cut to `columns` terminal cells, ending in `…` when anything was
/// cut. Counted in cells rather than characters, since a wide character that
/// overflows the row wraps it just as surely as two narrow ones.
pub fn truncate(text: &str, columns: usize) -> (out: String)
    ensures
        out@ == truncated(text@, columns as nat),
        str_cells(out@) <= columns,
        adds_up(out@),
{
    let width = str_width(text);
    if width <= columns {
        assert(adds_up(text@));
        return text.to_string();
    }
    cut(text, keep(text, columns), columns)
}

/// What a step in the tree is doing at the moment it is drawn.
pub enum Row<'a> {
    /// Not started: held back by the named step, or only not yet reached.
    Waiting { after: Option<&'a str> },
    /// Started `elapsed` ago, and last said `activity`.
    Running { elapsed: Duration, activity: &'a str },
    Finished(&'a Outcome),
}

/// What a [`Row`] says.
pub ghost enum Doing {
    Waiting { after: Option<Seq<char>> },
    Running { elapsed: nat, activity: Seq<char> },
    Finished(Outcome),
}

impl<'a> View for Row<'a> {
    type V = Doing;

    open spec fn view(&self) -> Doing {
        match *self {
            Row::Waiting { after: Some(after) } => Doing::Waiting { after: Some(after@) },
            Row::Waiting { after: None } => Doing::Waiting { after: None },
            Row::Running { elapsed, activity } => Doing::Running {
                elapsed: elapsed@,
                activity: activity@,
            },
            Row::Finished(outcome) => Doing::Finished(*outcome),
        }
    }
}

/// What is said of a step that has not started.
pub open spec fn waiting_text(after: Option<Seq<char>>) -> Seq<char> {
    match after {
        Some(after) => "waiting for "@ + after,
        None => "queued"@,
    }
}

/// The whole seconds of a length of time, as a running step counts them.
pub open spec fn clock_text(nanos: nat) -> Seq<char> {
    digits(nanos / (SECOND as nat)) + "s"@
}

/// The row of a running step, with what is `shown` of its activity.
pub open spec fn running_text(
    slot: Slot,
    elapsed: nat,
    shown: Seq<char>,
    frame: Seq<char>,
    color: bool,
) -> Seq<char> {
    let row = slot.indent@ + painted(frame, SPINNER, color) + " "@ + slot.name@ + "  "@ + painted(
        clock_text(elapsed),
        DIM,
        color,
    );
    if shown.len() == 0 {
        row
    } else {
        row + "  "@ + painted(shown, DIM, color)
    }
}

/// The cells of a running row before its activity: the indent, the spinner, the
/// name and the clock, with the gaps between them and the one behind.
pub open spec fn cells_before(slot: Slot, name_cells: nat, clock_cells: nat) -> nat {
    slot.indent@.len() + 2 + name_cells + 2 + clock_cells + 2
}

/// The cells that `columns` leave for the activity of a running row.
pub open spec fn room_in(slot: Slot, name_cells: nat, clock_cells: nat, columns: nat) -> nat {
    if columns > cells_before(slot, name_cells, clock_cells) {
        (columns - cells_before(slot, name_cells, clock_cells)) as nat
    } else {
        0
    }
}

/// What is shown of the activity of a running row that is `columns` wide.
pub open spec fn shown_in(
    slot: Slot,
    elapsed: nat,
    activity: Seq<char>,
    columns: nat,
) -> Seq<char> {
    truncated(
        activity,
        room_in(slot, str_cells(slot.name@), clock_text(elapsed).len(), columns),
    )
}

/// One line of the live tree as it is where it is no wider than `columns`.
pub open spec fn tree_text(
    slot: Slot,
    row: Doing,
    frame: Seq<char>,
    columns: nat,
    color: bool,
) -> Seq<char> {
    match row {
        Doing::Waiting { after } => slot.indent@ + painted("◌"@, DIM, color) + " "@ + painted(
            slot.name@,
            DIM,
            color,
        ) + "  "@ + painted(waiting_text(after), DIM, color),
        Doing::Running { elapsed, activity } => running_text(
            slot,
            elapsed,
            shown_in(slot, elapsed, activity, columns),
            frame,
            color,
        ),
        Doing::Finished(outcome) => status_text(outcome, slot, color),
    }
}

/// The parts of a running row, with what is `shown` of its activity.
pub open spec fn running_parts(
    slot: Slot,
    elapsed: nat,
    shown: Seq<char>,
    frame: Seq<char>,
) -> Seq<Part> {
    let row = seq![
        bare(slot.indent@),
        tinted(frame, SPINNER),
        bare(" "@),
        bare(slot.name@),
        bare("  "@),
        tinted(clock_text(elapsed), DIM),
    ];
    if shown.len() == 0 {
        row
    } else {
        row + seq![bare("  "@), tinted(shown, DIM)]
    }
}

/// The parts of [`tree_text`].
pub open spec fn tree_parts(slot: Slot, row: Doing, frame: Seq<char>, columns: nat) -> Seq<Part> {
    match row {
        Doing::Waiting { after } => seq![
            bare(slot.indent@),
            tinted("◌"@, DIM),
            bare(" "@),
            tinted(slot.name@, DIM),
            bare("  "@),
            tinted(waiting_text(after), DIM),
        ],
        Doing::Running { elapsed, activity } => running_parts(
            slot,
            elapsed,
            shown_in(slot, elapsed, activity, columns),
            frame,
        ),
        Doing::Finished(outcome) => status_parts(outcome, slot),
    }
}

/// One line of the live tree, cut to `columns` terminal cells where it takes
/// more.
pub open spec fn tree_row(
    slot: Slot,
    row: Doing,
    frame: Seq<char>,
    columns: nat,
    color: bool,
) -> Seq<char> {
    let parts = tree_parts(slot, row, frame, columns);
    if str_cells(said(parts)) <= columns {
        drawn(parts, color)
    } else {
        drawn(cut_parts(parts, kept(said(parts), columns), mark_in(columns)), color)
    }
}

/// The whole seconds of `elapsed`, as a running step counts them.
fn clock(elapsed: Duration) -> (clock: String)
    ensures
        clock@ == clock_text(elapsed@),
{
    let mut clock = decimal(elapsed.as_secs());
    clock.append("s");
    clock
}

/// The cells that `columns` leave for the activity of a running row, whose name
/// and clock take the cells given.
pub fn activity_room(slot: &Slot, name_cells: usize, clock_cells: usize, columns: usize) -> (room:
    usize)
    ensures
        room == room_in(*slot, name_cells as nat, clock_cells as nat, columns as nat),
{
    columns.saturating_sub(char_count(slot.indent)).saturating_sub(2).saturating_sub(
        name_cells,
    ).saturating_sub(2).saturating_sub(clock_cells).saturating_sub(2)
}

/// The segments of a running row, with what is `shown` of its activity.
fn running_segments(slot: &Slot, elapsed: Duration, shown: &str, frame: &str) -> (segments: Vec<
    Segment,
>)
    ensures
        parts_of(segments@) == running_parts(*slot, elapsed@, shown@, frame@),
        forall|color: bool| #[trigger]
            drawn(parts_of(segments@), color) == running_text(
                *slot,
                elapsed@,
                shown@,
                frame@,
                color,
            ),
        plain_slot(*slot) && plain(frame@) && plain(shown@) ==> plain_parts(parts_of(segments@)),
{
    let mut segments = head_segments(slot, frame, SPINNER, None);
    add_segment(&mut segments, clock(elapsed).as_str(), Some(DIM));
    if !shown.is_empty() {
        add_segment(&mut segments, "  ", None);
        add_segment(&mut segments, shown, Some(DIM));
    }
    proof {
        reveal_strlit(" ");
        reveal_strlit("  ");
        lemma_clock(elapsed@);
        assert(parts_of(segments@) =~= running_parts(*slot, elapsed@, shown@, frame@));
    }
    segments
}

/// The row of a running step, with what is `shown` of its activity.
pub fn running_line(slot: &Slot, elapsed: Duration, shown: &str, frame: &str, color: bool) -> (line:
    String)
    ensures
        line@ == running_text(*slot, elapsed@, shown@, frame@, color),
{
    let segments = running_segments(slot, elapsed, shown, frame);
    draw_segments(&segments, color)
}

/// Whether what a row is drawn with holds no escape character.
pub open spec fn plain_row(row: Doing) -> bool {
    match row {
        Doing::Waiting { after } => after matches Some(after) ==> plain(after),
        Doing::Running { elapsed, activity } => plain(activity),
        Doing::Finished(outcome) => plain_status(outcome.status),
    }
}

/// Whether a running row takes no more than `columns` once its activity is cut
/// to the room left for it: where the spinner takes one cell, and what stands
/// before the activity fits.
pub open spec fn only_activity_is_cut(
    slot: Slot,
    elapsed: nat,
    activity: Seq<char>,
    frame: Seq<char>,
    columns: nat,
) -> bool {
    let before = cells_before(slot, str_cells(slot.name@), clock_text(elapsed).len());
    &&& str_cells(slot.indent@ + frame) == slot.indent@.len() + 1
    &&& before <= columns || shown_in(slot, elapsed, activity, columns).len() == 0 && before
        <= columns + 2
}

/// The segments of one line of the live tree.
fn tree_segments(slot: &Slot, row: &Row<'_>, frame: &str, columns: usize) -> (segments: Vec<
    Segment,
>)
    ensures
        parts_of(segments@) == tree_parts(*slot, row@, frame@, columns as nat),
        forall|color: bool| #[trigger]
            drawn(parts_of(segments@), color) == tree_text(
                *slot,
                row@,
                frame@,
                columns as nat,
                color,
            ),
        plain_slot(*slot) && plain(frame@) && plain_row(row@) ==> plain_parts(parts_of(segments@)),
        row@ matches Doing::Running { elapsed, activity } ==> only_activity_is_cut(
            *slot,
            elapsed,
            activity,
            frame@,
            columns as nat,
        ) ==> str_cells(tree_text(*slot, row@, frame@, columns as nat, false)) <= columns,
{
    match row {
        Row::Waiting { after } => {
            let mut segments = head_segments(slot, "◌", DIM, Some(DIM));
            let waiting = match after {
                Some(after) => {
                    let mut waiting = "waiting for ".to_string();
                    waiting.append(after);
                    waiting
                },
                None => "queued".to_string(),
            };
            add_segment(&mut segments, waiting.as_str(), Some(DIM));
            proof {
                reveal_strlit("◌");
                reveal_strlit(" ");
                reveal_strlit("  ");
                reveal_strlit("waiting for ");
                reveal_strlit("queued");
                assert(parts_of(segments@) =~= tree_parts(*slot, row@, frame@, columns as nat));
            }
            segments
        },
        Row::Running { elapsed, activity } => {
            let name_cells = str_width(slot.name.as_str());
            let clock_cells = str_width(clock(*elapsed).as_str());
            proof {
                lemma_clock(elapsed@);
            }
            let room = activity_room(slot, name_cells, clock_cells, columns);
            let shown = truncate(activity, room);
            proof {
                if plain(activity@) {
                    lemma_truncated_is_plain(activity@, room as nat);
                }
                reveal_strlit(" ");
                reveal_strlit("  ");
                assert(spaces(1) =~= " "@);
                assert(spaces(2) =~= "  "@);
                let none = spaces(0);
                let lead = slot.indent@ + frame@;
                let named = lead + spaces(1) + slot.name@;
                let timed = named + spaces(2) + clock_text(elapsed@);
                let whole = timed + spaces(2) + shown@;
                assert(named + none =~= named);
                assert(timed + none =~= timed);
                assert(whole + none =~= whole);
                assert(str_cells(named + none) == str_cells(lead) + 1 + name_cells);
                assert(str_cells(timed + none) == str_cells(named) + 2 + clock_cells);
                assert(str_cells(whole + none) == str_cells(timed) + 2 + str_cells(shown@));
                assert(running_text(*slot, elapsed@, shown@, frame@, false) == (if shown@.len() == 0 {
                    timed
                } else {
                    whole
                }));
            }
            running_segments(slot, *elapsed, shown.as_str(), frame)
        },
        Row::Finished(outcome) => status_segments(outcome, slot),
    }
}

/// One line of the live tree, no wider than `columns` so a redraw never
/// wraps onto a row it does not own. `frame` is the spinner's current glyph.
///
/// The activity of a running step is what is cut first. A line that is still
/// too wide is cut at its end.
pub fn tree_line(slot: &Slot, row: &Row<'_>, frame: &str, columns: usize, color: bool) -> (line:
    String)
    ensures
        line@ == tree_row(*slot, row@, frame@, columns as nat, color),
        ({
            let whole = tree_text(*slot, row@, frame@, columns as nat, false);
            let plain = plain_slot(*slot) && plain(frame@) && plain_row(row@);
            &&& str_cells(whole) <= columns ==> line@ == tree_text(
                *slot,
                row@,
                frame@,
                columns as nat,
                color,
            )
            &&& !color ==> line@ == truncated(whole, columns as nat)
            &&& plain ==> stripped(line@) == truncated(whole, columns as nat)
            &&& (color ==> plain) ==> str_cells(
                if color {
                    stripped(line@)
                } else {
                    line@
                },
            ) <= columns
        }),
        row@ matches Doing::Running { elapsed, activity } ==> only_activity_is_cut(
            *slot,
            elapsed,
            activity,
            frame@,
            columns as nat,
        ) ==> line@ == tree_text(*slot, row@, frame@, columns as nat, color),
{
    let segments = tree_segments(slot, row, frame, columns);
    let whole = draw_segments(&segments, false);
    let ghost parts = parts_of(segments@);
    let ghost all_plain = plain_slot(*slot) && plain(frame@) && plain_row(row@);
    proof {
        assert(drawn(parts, false) == tree_text(*slot, row@, frame@, columns as nat, false));
        assert(drawn(parts, color) == tree_text(*slot, row@, frame@, columns as nat, color));
        lemma_drawn_without_color(parts);
    }
    if str_width(whole.as_str()) <= columns {
        proof {
            if all_plain {
                lemma_drawn_strips(parts, color);
            }
        }
        return draw_segments(&segments, color);
    }
    let count = char_count(whole.as_str());
    let keep = keep(whole.as_str(), columns);
    let cut = cut_segments(segments, count, keep, mark(columns));
    proof {
        reveal_strlit("…");
        reveal_strlit("");
        lemma_cut_says(parts, keep as nat, mark_in(columns as nat));
        lemma_drawn_without_color(parts_of(cut@));
        if all_plain {
            lemma_drawn_strips(parts_of(cut@), color);
        }
    }
    draw_segments(&cut, color)
}

/// A clock is made of narrow characters.
proof fn lemma_clock(elapsed: nat)
    ensures
        narrow(clock_text(elapsed)),
        plain(clock_text(elapsed)),
{
    reveal_strlit("s");
    lemma_digits(elapsed / (SECOND as nat));
}

/// Cutting a text brings no escape character into it.
proof fn lemma_truncated_is_plain(text: Seq<char>, columns: nat)
    requires
        plain(text),
    ensures
        plain(truncated(text, columns)),
{
    reveal_strlit("…");
    reveal_strlit("");
    fitting_is_the_most_that_fits(each_cells(text), room_before_mark(columns));
    lemma_last_within(marked_cells(text, columns), columns);
}

/// The place of the last of some widths within the columns is one of them.
proof fn lemma_last_within(widths: Seq<nat>, columns: nat)
    requires
        widths.len() > 0,
    ensures
        last_within(widths, columns) < widths.len(),
    decreases widths.len(),
{
    if widths.len() > 1 {
        lemma_last_within(widths.drop_last(), columns);
    }
}

/// The width the labels in [`summary`] are padded to, wide enough for the
/// longest of them and a gap.
pub const LABEL_WIDTH: usize = 11;

/// What the summary says of a step that was skipped.
pub open spec fn skipped_entry(outcome: Outcome) -> Option<Seq<char>> {
    match outcome.status {
        Status::Skipped { reason } => Some(outcome.name@ + " ("@ + reason@ + ")"@),
        _ => None,
    }
}

/// What the summary says of a step that failed.
pub open spec fn failed_entry(outcome: Outcome) -> Option<Seq<char>> {
    match outcome.status {
        Status::Failed { code } => Some(outcome.name@),
        _ => None,
    }
}

/// What `of` says of the outcomes that it says anything of, in their order.
pub open spec fn collected(
    outcomes: Seq<Outcome>,
    of: spec_fn(Outcome) -> Option<Seq<char>>,
) -> Seq<Seq<char>>
    decreases outcomes.len(),
{
    if outcomes.len() == 0 {
        Seq::empty()
    } else {
        let before = collected(outcomes.drop_last(), of);
        match of(outcomes.last()) {
            Some(entry) => before.push(entry),
            None => before,
        }
    }
}

/// The line that lists `entries` behind their label; none when there are none.
pub open spec fn group(
    label: Seq<char>,
    tint: u8,
    entries: Seq<Seq<char>>,
    color: bool,
) -> Seq<Seq<char>> {
    if entries.len() == 0 {
        Seq::empty()
    } else {
        seq![painted(padded(label, LABEL_WIDTH as int), tint, color) + joined(entries, ", "@)]
    }
}

/// What the run came to: the steps that were skipped, those that failed, and
/// the wall time.
pub open spec fn summary_text(outcomes: Seq<Outcome>, elapsed: nat, color: bool) -> Seq<Seq<char>> {
    group("skipped"@, DIM, collected(outcomes, |outcome: Outcome| skipped_entry(outcome)), color)
        + group("failed"@, RED, collected(outcomes, |outcome: Outcome| failed_entry(outcome)), color)
        + seq![
        painted(padded("total"@, LABEL_WIDTH as int), DIM, color) + painted(
            formatted(elapsed),
            DIM,
            color,
        ),
    ]
}

/// The contents of a string that may be there.
pub open spec fn text_of(entry: Option<String>) -> Option<Seq<char>> {
    match entry {
        Some(text) => Some(text@),
        None => None,
    }
}

/// What `of` says of the outcomes that it says anything of, in their order.
fn collect(
    outcomes: &[Outcome],
    of: impl Fn(&Outcome) -> Option<String>,
    Ghost(entry): Ghost<spec_fn(Outcome) -> Option<Seq<char>>>,
) -> (entries: Vec<String>)
    requires
        forall|outcome: &Outcome| #[trigger] of.requires((outcome,)),
        forall|outcome: &Outcome, said: Option<String>| #[trigger]
            of.ensures((outcome,), said) ==> text_of(said) == entry(*outcome),
    ensures
        texts(entries@) == collected(outcomes@, entry),
{
    let mut entries: Vec<String> = Vec::new();
    let mut i: usize = 0;
    assert(outcomes@.take(0) =~= Seq::empty());
    assert(texts(entries@) =~= Seq::empty());
    while i < outcomes.len()
        invariant
            i <= outcomes@.len(),
            forall|outcome: &Outcome| #[trigger] of.requires((outcome,)),
            forall|outcome: &Outcome, said: Option<String>| #[trigger]
                of.ensures((outcome,), said) ==> text_of(said) == entry(*outcome),
            texts(entries@) == collected(outcomes@.take(i as int), entry),
        decreases outcomes.len() - i,
    {
        let ghost before = texts(entries@);
        assert(outcomes@.take(i + 1).drop_last() =~= outcomes@.take(i as int));
        if let Some(said) = of(&outcomes[i]) {
            entries.push(said);
            assert(texts(entries@) =~= before.push(said@));
        }
        i += 1;
    }
    assert(outcomes@.take(i as int) =~= outcomes@);
    entries
}

/// What the summary says of a step that was skipped.
fn skip_named(outcome: &Outcome) -> (said: Option<String>)
    ensures
        text_of(said) == skipped_entry(*outcome),
{
    match &outcome.status {
        Status::Skipped { reason } => {
            let mut said = outcome.name.to_string();
            said.append(" (");
            said.append(reason.as_str());
            said.append(")");
            Some(said)
        },
        _ => None,
    }
}

/// What the summary says of a step that failed.
fn failure_named(outcome: &Outcome) -> (said: Option<String>)
    ensures
        text_of(said) == failed_entry(*outcome),
{
    if outcome.failed() {
        Some(outcome.name.to_string())
    } else {
        None
    }
}

/// Put the line that lists `entries` behind their label to `lines`, unless
/// there are none.
fn push_group(lines: &mut Vec<String>, label: &str, tint: u8, entries: Vec<String>, color: bool)
    ensures
        texts(final(lines)@) == texts(old(lines)@) + group(label@, tint, texts(entries@), color),
{
    if !entries.is_empty() {
        let mut line = paint(pad(label, LABEL_WIDTH).as_str(), tint, color);
        line.append(join(entries.as_slice(), ", ").as_str());
        lines.push(line);
    }
    assert(texts(lines@) =~= texts(old(lines)@) + group(label@, tint, texts(entries@), color));
}

/// What the run came to: the steps that did not finish, then the wall time.
/// Both are named in plan order, since that is the order they were listed in.
pub fn summary(outcomes: &[Outcome], elapsed: Duration, color: bool) -> (lines: Vec<String>)
    ensures
        texts(lines@) == summary_text(outcomes@, elapsed@, color),
        plain_outcomes(outcomes@) ==> lines@.len() == summary_text(outcomes@, elapsed@, false).len()
            && forall|i: int|
            0 <= i < lines@.len() ==> stripped((#[trigger] lines@[i])@) == summary_text(
                outcomes@,
                elapsed@,
                false,
            )[i],
{
    let skipped = collect(
        outcomes,
        skip_named,
        Ghost(|outcome: Outcome| skipped_entry(outcome)),
    );
    let failed = collect(
        outcomes,
        failure_named,
        Ghost(|outcome: Outcome| failed_entry(outcome)),
    );
    let mut lines: Vec<String> = Vec::new();
    assert(texts(lines@) =~= Seq::empty());
    push_group(&mut lines, "skipped", DIM, skipped, color);
    push_group(&mut lines, "failed", RED, failed, color);
    let mut line = paint(pad("total", LABEL_WIDTH).as_str(), DIM, color);
    line.append(paint(format_duration(elapsed).as_str(), DIM, color).as_str());
    lines.push(line);
    assert(texts(lines@) =~= summary_text(outcomes@, elapsed@, color));
    proof {
        lemma_formatted(elapsed@);
        if plain_outcomes(outcomes@) {
            assert forall|i: int| 0 <= i < lines@.len() implies stripped(
                (#[trigger] lines@[i])@,
            ) == summary_text(outcomes@, elapsed@, false)[i] by {
                lemma_summary_strips(outcomes@, elapsed@, color, i);
                assert(lines@[i]@ == texts(lines@)[i]);
            }
        }
    }
    lines
}

/// Whether no name and no status of `outcomes` holds an escape character.
pub open spec fn plain_outcomes(outcomes: Seq<Outcome>) -> bool {
    forall|i: int|
        0 <= i < outcomes.len() ==> plain((#[trigger] outcomes[i]).name@) && plain_status(
            outcomes[i].status,
        )
}

/// A line of the summary stripped of escape sequences is the one without
/// colour.
#[verifier::rlimit(40)]
proof fn lemma_summary_strips(outcomes: Seq<Outcome>, elapsed: nat, color: bool, index: int)
    requires
        plain_outcomes(outcomes),
        plain(formatted(elapsed)),
        0 <= index < summary_text(outcomes, elapsed, color).len(),
    ensures
        summary_text(outcomes, elapsed, color).len() == summary_text(outcomes, elapsed, false).len(),
        stripped(summary_text(outcomes, elapsed, color)[index]) == summary_text(
            outcomes,
            elapsed,
            false,
        )[index],
{
    reveal_strlit("skipped");
    reveal_strlit("failed");
    reveal_strlit("total");
    reveal_strlit(" (");
    reveal_strlit(")");
    let skipped = collected(outcomes, |outcome: Outcome| skipped_entry(outcome));
    let failed = collected(outcomes, |outcome: Outcome| failed_entry(outcome));
    lemma_collected_is_plain(outcomes, |outcome: Outcome| skipped_entry(outcome));
    lemma_collected_is_plain(outcomes, |outcome: Outcome| failed_entry(outcome));
    lemma_group_strips("skipped"@, DIM, skipped, color);
    lemma_group_strips("failed"@, RED, failed, color);
    let label = padded("total"@, LABEL_WIDTH as int);
    let said = formatted(elapsed);
    style_strips_away(label, Some(DIM), false, color);
    style_strips_away(said, Some(DIM), false, color);
    lemma_strips_in_a_row(painted(label, DIM, color), label, painted(said, DIM, color), said);
    lemma_strips_alone(painted(label, DIM, color) + painted(said, DIM, color), label + said);
}

#[verifier::rlimit(40)]
proof fn lemma_group_strips(label: Seq<char>, tint: u8, entries: Seq<Seq<char>>, color: bool)
    requires
        plain(label),
        forall|i: int| 0 <= i < entries.len() ==> plain(#[trigger] entries[i]),
    ensures
        entries.len() > 0 ==> stripped(group(label, tint, entries, color)[0]) == group(
            label,
            tint,
            entries,
            false,
        )[0],
{
    reveal_strlit(", ");
    let head = padded(label, LABEL_WIDTH as int);
    let listed = joined(entries, ", "@);
    lemma_joined_is_plain(entries, ", "@);
    style_strips_away(head, Some(tint), false, color);
    lemma_strips_plain(listed);
    lemma_strips_in_a_row(painted(head, tint, color), head, listed, listed);
    lemma_strips_alone(painted(head, tint, color) + listed, head + listed);
}

proof fn lemma_joined_is_plain(parts: Seq<Seq<char>>, separator: Seq<char>)
    requires
        plain(separator),
        forall|i: int| 0 <= i < parts.len() ==> plain(#[trigger] parts[i]),
    ensures
        plain(joined(parts, separator)),
    decreases parts.len(),
{
    if parts.len() > 0 {
        assert(plain(parts.last()));
        assert forall|i: int| 0 <= i < parts.drop_last().len() implies plain(
            #[trigger] parts.drop_last()[i],
        ) by {
            assert(parts.drop_last()[i] == parts[i]);
        }
        lemma_joined_is_plain(parts.drop_last(), separator);
    }
}

proof fn lemma_collected_is_plain(
    outcomes: Seq<Outcome>,
    of: spec_fn(Outcome) -> Option<Seq<char>>,
)
    requires
        forall|i: int|
            0 <= i < outcomes.len() ==> (of(#[trigger] outcomes[i]) matches Some(entry) ==> plain(
                entry,
            )),
    ensures
        forall|k: int|
            0 <= k < collected(outcomes, of).len() ==> plain(#[trigger] collected(outcomes, of)[k]),
    decreases outcomes.len(),
{
    if outcomes.len() > 0 {
        let before = outcomes.drop_last();
        assert forall|i: int| 0 <= i < before.len() implies (of(#[trigger] before[i]) matches Some(
            entry,
        ) ==> plain(entry)) by {
            assert(before[i] == outcomes[i]);
        }
        assert(outcomes[outcomes.len() - 1] == outcomes.last());
        lemma_collected_is_plain(before, of);
        let entries = collected(outcomes, of);
        assert forall|k: int| 0 <= k < entries.len() implies plain(#[trigger] entries[k]) by {
            if k < collected(before, of).len() {
                assert(entries[k] == collected(before, of)[k]);
            }
        }
    }
}

/// A run in which every step is done is summed up by the wall time alone.
pub proof fn a_clean_run_is_the_total_alone(outcomes: Seq<Outcome>, elapsed: nat, color: bool)
    requires
        forall|i: int| 0 <= i < outcomes.len() ==> (#[trigger] outcomes[i]).status is Done,
    ensures
        summary_text(outcomes, elapsed, color).len() == 1,
        summary_text(outcomes, elapsed, false)[0] == padded("total"@, LABEL_WIDTH as int)
            + formatted(elapsed),
{
    lemma_nothing_collected(outcomes, |outcome: Outcome| skipped_entry(outcome));
    lemma_nothing_collected(outcomes, |outcome: Outcome| failed_entry(outcome));
}

proof fn lemma_nothing_collected(
    outcomes: Seq<Outcome>,
    of: spec_fn(Outcome) -> Option<Seq<char>>,
)
    requires
        forall|i: int| 0 <= i < outcomes.len() ==> of(#[trigger] outcomes[i]) is None,
    ensures
        collected(outcomes, of).len() == 0,
    decreases outcomes.len(),
{
    if outcomes.len() > 0 {
        assert forall|i: int| 0 <= i < outcomes.drop_last().len() implies of(
            #[trigger] outcomes.drop_last()[i],
        ) is None by {
            assert(outcomes.drop_last()[i] == outcomes[i]);
        }
        lemma_nothing_collected(outcomes.drop_last(), of);
    }
}

/// What a streamed line of the step at `index` is written behind.
pub open spec fn prefix_text(names: Seq<Seq<char>>, index: int, color: bool) -> Seq<char> {
    let label = "["@ + names[index] + "]"@;
    painted(label, STEP_COLORS@[index % 5], color) + spaces(
        short_of(label, prefix_width(names) as int),
    )
}

/// The column that every step's streamed output starts in: behind the longest
/// name, its brackets and a space.
pub open spec fn prefix_width(names: Seq<Seq<char>>) -> nat {
    greatest(lengths(names)) + 3
}

/// The `[name]` each streamed line is written behind: coloured per step, and
/// padded so every step's output starts in the same column.
pub fn prefixes(names: &[&str], color: bool) -> (prefixes: Vec<String>)
    ensures
        prefixes@.len() == names@.len(),
        forall|i: int|
            0 <= i < names@.len() ==> (#[trigger] prefixes@[i])@ == prefix_text(
                views(names@),
                i,
                color,
            ),
{
    let width = width(names) + 3;
    let mut prefixes: Vec<String> = Vec::new();
    let mut i: usize = 0;
    while i < names.len()
        invariant
            i <= names@.len(),
            width == prefix_width(views(names@)),
            prefixes@.len() == i,
            forall|k: int|
                0 <= k < i ==> (#[trigger] prefixes@[k])@ == prefix_text(
                    views(names@),
                    k,
                    color,
                ),
        decreases names.len() - i,
    {
        let mut label = "[".to_string();
        label.append(names[i]);
        label.append("]");
        // The padding stays outside the colour: a trailing run of coloured
        // spaces is a background nobody asked for.
        let mut prefix = paint(label.as_str(), self::color(i), color);
        push_spaces(&mut prefix, width.saturating_sub(char_count(label.as_str())));
        prefixes.push(prefix);
        i += 1;
    }
    prefixes
}

/// Without colour every prefix is as wide as every other, starts with its
/// step's name in brackets, and ends in a space.
pub proof fn prefixes_are_of_one_width(names: Seq<Seq<char>>, index: int)
    requires
        0 <= index < names.len(),
    ensures
        prefix_text(names, index, false).len() == prefix_width(names),
        ("["@ + names[index] + "]"@).is_prefix_of(prefix_text(names, index, false)),
        prefix_text(names, index, false).last() == ' ',
{
    reveal_strlit("[");
    reveal_strlit("]");
    lemma_greatest(lengths(names), index);
}

/// A prefix stripped of escape sequences is the one without colour.
#[verifier::rlimit(40)]
pub proof fn prefixes_strip(names: Seq<Seq<char>>, index: int, color: bool)
    requires
        0 <= index < names.len(),
        plain(names[index]),
    ensures
        stripped(prefix_text(names, index, color)) == prefix_text(names, index, false),
{
    reveal_strlit("[");
    reveal_strlit("]");
    let label = "["@ + names[index] + "]"@;
    let tint = STEP_COLORS@[index % 5];
    let gap = spaces(short_of(label, prefix_width(names) as int));
    style_strips_away(label, Some(tint), false, color);
    lemma_strips_plain(gap);
    lemma_strips_in_a_row(painted(label, tint, color), label, gap, gap);
    lemma_strips_alone(painted(label, tint, color) + gap, label + gap);
}

/// The number of characters of the longest of `texts`.
fn width(texts: &[&str]) -> (width: usize)
    ensures
        width == greatest(lengths(views(texts@))),
        width <= isize::MAX,
{
    let ghost all = lengths(views(texts@));
    let mut width: usize = 0;
    let mut i: usize = 0;
    assert(all.take(0) =~= Seq::empty());
    while i < texts.len()
        invariant
            i <= texts@.len(),
            all == lengths(views(texts@)),
            width == greatest(all.take(i as int)),
            width <= isize::MAX,
        decreases texts.len() - i,
    {
        assert(all.take(i + 1).drop_last() =~= all.take(i as int));
        let count = char_count(texts[i]);
        if count > width {
            width = count;
        }
        i += 1;
    }
    assert(all.take(i as int) =~= all);
    width
}

/// The number of characters of the name of each step.
pub open spec fn name_lengths(steps: Seq<Command>) -> Seq<nat> {
    steps.map_values(|step: Command| step.name.len())
}

/// The number of characters of the evidence of each step.
pub open spec fn evidence_lengths(steps: Seq<Command>) -> Seq<nat> {
    steps.map_values(|step: Command| step.evidence.len())
}

/// The number of characters of the longest name of `steps`.
pub open spec fn name_width(steps: Seq<Command>) -> nat {
    greatest(name_lengths(steps))
}

/// The number of characters of the longest evidence of `steps`.
pub open spec fn evidence_width(steps: Seq<Command>) -> nat {
    greatest(evidence_lengths(steps))
}

/// The step at `index` as a dry run lists it, up to and with its prompt sign.
pub open spec fn listed_before_command(steps: Seq<Command>, index: int, color: bool) -> Seq<char> {
    painted(
        padded(steps[index].name, name_width(steps) as int),
        STEP_COLORS@[index % 5],
        color,
    ) + "  "@ + painted(
        padded(steps[index].evidence, evidence_width(steps) as int),
        DIM,
        color,
    ) + "  "@ + painted("$"@, DIM, color)
}

/// The step at `index` as a dry run lists it.
pub open spec fn listed_text(steps: Seq<Command>, index: int, color: bool) -> Seq<char> {
    end_trimmed(
        listed_before_command(steps, index, color) + " "@ + steps[index].line(),
    )
}

/// The plan as a dry run prints it.
pub open spec fn listing(steps: Seq<Command>, color: bool) -> Seq<Seq<char>> {
    Seq::new(steps.len(), |i: int| listed_text(steps, i, color))
}

/// The plan as a dry run prints it: each step, the files that selected it, and
/// the command it would run. Each step keeps the colour its streamed output is
/// prefixed with, so it looks the same in both modes.
pub fn plan_listing(steps: &[&Step], color: bool) -> (lines: Vec<String>)
    ensures
        texts(lines@) == listing(commands(steps_of(steps@)), color),
{
    let ghost all = commands(steps_of(steps@));
    let mut names: Vec<&str> = Vec::new();
    let mut evidences: Vec<&str> = Vec::new();
    let mut i: usize = 0;
    while i < steps.len()
        invariant
            i <= steps@.len(),
            names@.len() == i,
            evidences@.len() == i,
            forall|k: int| 0 <= k < i ==> (#[trigger] names@[k])@ == steps@[k].name@,
            forall|k: int| 0 <= k < i ==> (#[trigger] evidences@[k])@ == steps@[k].evidence@,
        decreases steps.len() - i,
    {
        names.push(steps[i].name);
        evidences.push(steps[i].evidence.as_str());
        i += 1;
    }
    let name_width = width(names.as_slice());
    let evidence_width = width(evidences.as_slice());
    proof {
        assert(lengths(views(names@)) =~= name_lengths(all));
        assert(lengths(views(evidences@)) =~= evidence_lengths(all));
    }

    let mut lines: Vec<String> = Vec::new();
    let mut i: usize = 0;
    while i < steps.len()
        invariant
            i <= steps@.len(),
            all == commands(steps_of(steps@)),
            name_width == self::name_width(all),
            evidence_width == self::evidence_width(all),
            lines@.len() == i,
            forall|k: int| 0 <= k < i ==> (#[trigger] lines@[k])@ == listed_text(all, k, color),
        decreases steps.len() - i,
    {
        let step = steps[i];
        assert(all[i as int] == step@);
        let mut line = paint(pad(step.name, name_width).as_str(), self::color(i), color);
        line.append("  ");
        line.append(paint(pad(step.evidence.as_str(), evidence_width).as_str(), DIM, color).as_str());
        line.append("  ");
        line.append(paint("$", DIM, color).as_str());
        line.append(" ");
        line.append(step.command_line().as_str());
        lines.push(trim_end(line.as_str()));
        i += 1;
    }
    assert(texts(lines@) =~= listing(all, color));
    lines
}

/// Without colour the commands of a listed plan stand under each other: every
/// prompt sign is in the same column, with the name at the start of the line,
/// the evidence under the others, and the command behind.
pub proof fn listed_plan_lines_up(steps: Seq<Command>, index: int)
    requires
        0 <= index < steps.len(),
    ensures
        ({
            let line = listed_text(steps, index, false);
            let prompt = name_width(steps) + 2 + evidence_width(steps) + 2;
            &&& line.len() > prompt
            &&& line[prompt as int] == '$'
            &&& steps[index].name.is_prefix_of(line)
            &&& line == listed_before_command(steps, index, false) + end_trimmed(
                " "@ + steps[index].line(),
            )
        }),
{
    reveal_strlit("  ");
    reveal_strlit("$");
    lemma_greatest(name_lengths(steps), index);
    lemma_greatest(evidence_lengths(steps), index);
    let before = listed_before_command(steps, index, false);
    let command = steps[index].line();
    assert(before + " "@ + command =~= before + (" "@ + command));
    lemma_end_trimmed_behind(before, " "@ + command);
}

/// A listed step stripped of escape sequences is the one listed without colour.
#[verifier::rlimit(40)]
pub proof fn listed_plan_strips(steps: Seq<Command>, index: int, color: bool)
    requires
        0 <= index < steps.len(),
        plain(steps[index].name),
        plain(steps[index].evidence),
        plain(steps[index].line()),
    ensures
        stripped(listed_text(steps, index, color)) == listed_text(steps, index, false),
{
    reveal_strlit(" ");
    reveal_strlit("  ");
    reveal_strlit("$");
    reveal_strlit("\x1b[0m");
    let name = padded(steps[index].name, name_width(steps) as int);
    let evidence = padded(steps[index].evidence, evidence_width(steps) as int);
    let tint = STEP_COLORS@[index % 5];
    style_strips_away(name, Some(tint), false, color);
    style_strips_away(evidence, Some(DIM), false, color);
    style_strips_away("$"@, Some(DIM), false, color);
    lemma_strips_plain("  "@);
    let row = painted(name, tint, color) + "  "@;
    let said = name + "  "@;
    lemma_strips_in_a_row(painted(name, tint, color), name, "  "@, "  "@);
    lemma_strips_in_a_row(row, said, painted(evidence, DIM, color), evidence);
    let row = row + painted(evidence, DIM, color);
    let said = said + evidence;
    lemma_strips_in_a_row(row, said, "  "@, "  "@);
    lemma_strips_in_a_row(row + "  "@, said + "  "@, painted("$"@, DIM, color), "$"@);

    let before = listed_before_command(steps, index, color);
    let before_said = listed_before_command(steps, index, false);
    let command = " "@ + steps[index].line();
    let tail = end_trimmed(command);
    assert(before + " "@ + steps[index].line() =~= before + command);
    assert(before_said + " "@ + steps[index].line() =~= before_said + command);
    lemma_end_trimmed_behind(before, command);
    lemma_end_trimmed_behind(before_said, command);
    lemma_end_trimmed(command);
    lemma_strips_plain(tail);
    lemma_strips_in_a_row(before, before_said, tail, tail);
    lemma_strips_alone(before + tail, before_said + tail);
}

/// The greatest of some lengths is one of them, and none is beyond it.
pub proof fn the_greatest_is_one_of_them(lengths: Seq<nat>)
    ensures
        forall|i: int| 0 <= i < lengths.len() ==> #[trigger] lengths[i] <= greatest(lengths),
        lengths.len() > 0 ==> lengths.contains(greatest(lengths)),
        lengths.len() == 0 ==> greatest(lengths) == 0,
    decreases lengths.len(),
{
    assert forall|i: int| 0 <= i < lengths.len() implies #[trigger] lengths[i] <= greatest(
        lengths,
    ) by {
        lemma_greatest(lengths, i);
    }
    if lengths.len() > 0 {
        let before = lengths.drop_last();
        the_greatest_is_one_of_them(before);
        if lengths.last() > greatest(before) || before.len() == 0 {
            assert(lengths[lengths.len() - 1] == greatest(lengths));
        } else {
            let i = choose|i: int| 0 <= i < before.len() && before[i] == greatest(before);
            assert(lengths[i] == greatest(lengths));
        }
    }
}

/// A step is indented by two spaces exactly where it waits for another, and the
/// tree is as wide as its widest step, indent and name together.
pub proof fn a_tree_is_as_wide_as_its_widest_step(nodes: Seq<Node<'_>>, i: int)
    requires
        0 <= i < nodes.len(),
    ensures
        nodes[i].after is Some ==> indent_of(nodes[i]) == spaces(2),
        nodes[i].after is None ==> indent_of(nodes[i]).len() == 0,
        indent_of(nodes[i]).len() + nodes[i].name@.len() <= tree_width(nodes),
        exists|k: int|
            0 <= k < nodes.len() && tree_width(nodes) == (#[trigger] nodes[k]).name@.len() + (
            if nodes[k].after is Some {
                2nat
            } else {
                0
            }),
{
    reveal_strlit("  ");
    reveal_strlit("");
    assert(INDENT@ =~= spaces(2));
    let ends = name_ends(nodes);
    the_greatest_is_one_of_them(ends);
    assert(ends[i] <= greatest(ends));
    let k = choose|k: int| 0 <= k < ends.len() && ends[k] == greatest(ends);
    assert(nodes[k].name@.len() + indent_of(nodes[k]).len() == tree_width(nodes));
}

/// The clock of a running step is the number of all whole seconds it has run
/// for: it reads back as that number, so times that differ in it are never shown
/// alike, and a later one never shows a smaller number.
pub proof fn the_clock_counts_whole_seconds(elapsed: nat, later: nat)
    ensures
        clock_text(elapsed).len() > 1,
        clock_text(elapsed).last() == 's',
        value(clock_text(elapsed).drop_last()) == elapsed / 1_000_000_000,
        forall|i: int|
            0 <= i < clock_text(elapsed).len() - 1 ==> '0' <= #[trigger] clock_text(elapsed)[i]
                <= '9',
        clock_text(elapsed) == clock_text(later) <==> elapsed / 1_000_000_000 == later
            / 1_000_000_000,
        elapsed <= later ==> value(clock_text(elapsed).drop_last()) <= value(
            clock_text(later).drop_last(),
        ),
{
    reveal_strlit("s");
    a_numeral_reads_back(elapsed / 1_000_000_000);
    a_numeral_reads_back(later / 1_000_000_000);
    assert(clock_text(elapsed).drop_last() =~= digits(elapsed / 1_000_000_000));
    assert(clock_text(later).drop_last() =~= digits(later / 1_000_000_000));
    if elapsed <= later {
        assert(elapsed / 1_000_000_000 <= later / 1_000_000_000);
    }
}

/// The row of a running step: its indent, the spinner, its name, the clock, and
/// what it last said, cut to the cells that the others leave of the terminal's.
pub proof fn a_running_row_shows_clock_and_activity(
    slot: Slot,
    elapsed: nat,
    activity: Seq<char>,
    frame: Seq<char>,
    columns: nat,
    room: nat,
)
    requires
        ({
            let used = slot.indent@.len() + str_cells(slot.name@) + digits(
                elapsed / 1_000_000_000,
            ).len() + 7;
            room + used == columns || room == 0 && columns <= used
        }),
    ensures
        ({
            let row = tree_text(
                slot,
                Doing::Running { elapsed, activity },
                frame,
                columns,
                false,
            );
            let fixed = slot.indent@ + frame + " "@ + slot.name@ + "  "@ + digits(
                elapsed / 1_000_000_000,
            ) + "s"@;
            let shown = truncated(activity, room);
            &&& shown.len() == 0 ==> row == fixed
            &&& shown.len() > 0 ==> row == fixed + "  "@ + shown
            &&& fixed.is_prefix_of(row)
            &&& str_cells(activity) <= room && activity.len() > 0 ==> row == fixed + "  "@
                + activity
        }),
{
    reveal_strlit("s");
    let row = tree_text(slot, Doing::Running { elapsed, activity }, frame, columns, false);
    let fixed = slot.indent@ + frame + " "@ + slot.name@ + "  "@ + digits(elapsed / 1_000_000_000)
        + "s"@;
    let shown = truncated(activity, room);
    assert(slot.indent@ + frame + " "@ + slot.name@ + "  "@ + clock_text(elapsed) =~= fixed);
    assert(clock_text(elapsed).len() == digits(elapsed / 1_000_000_000).len() + 1);
    assert(shown_in(slot, elapsed, activity, columns) == shown);
    if shown.len() > 0 {
        assert(row == fixed + "  "@ + shown);
        assert(row.take(fixed.len() as int) =~= fixed);
    }
}

/// The row of a step that has not started names the step it waits for, and says
/// that it is queued where there is none, whatever the spinner and the width.
pub proof fn a_waiting_row_names_what_it_waits_for(
    slot: Slot,
    after: Seq<char>,
    frame: Seq<char>,
    columns: nat,
)
    ensures
        tree_text(slot, Doing::Waiting { after: Some(after) }, frame, columns, false)
            == slot.indent@ + "◌ "@ + slot.name@ + "  waiting for "@ + after,
        tree_text(slot, Doing::Waiting { after: None }, frame, columns, false) == slot.indent@
            + "◌ "@ + slot.name@ + "  queued"@,
{
    reveal_strlit("◌");
    reveal_strlit("◌ ");
    reveal_strlit(" ");
    reveal_strlit("  ");
    reveal_strlit("waiting for ");
    reveal_strlit("  waiting for ");
    reveal_strlit("queued");
    reveal_strlit("  queued");
    assert(tree_text(slot, Doing::Waiting { after: Some(after) }, frame, columns, false)
        =~= slot.indent@ + "◌ "@ + slot.name@ + "  waiting for "@ + after);
    assert(tree_text(slot, Doing::Waiting { after: None }, frame, columns, false) =~= slot.indent@
        + "◌ "@ + slot.name@ + "  queued"@);
}

/// What is said of a failed step is the status it exited with, which reads back,
/// or that it did not run.
pub proof fn a_failure_names_its_status(code: i32)
    ensures
        failure_text(None) == "did not run"@,
        failure_text(Some(code)).take(5) == "exit "@,
        code >= 0 ==> value(failure_text(Some(code)).skip(5)) == code,
        code < 0 ==> failure_text(Some(code))[5] == '-' && value(
            failure_text(Some(code)).skip(6),
        ) == -code,
{
    reveal_strlit("exit ");
    a_signed_numeral_reads_back(code as int);
    let text = failure_text(Some(code));
    let number = signed_digits(code as int);
    assert(text.take(5) =~= "exit "@);
    assert(text.skip(5) =~= number);
    if code < 0 {
        assert(text.skip(6) =~= number.drop_first());
        assert(text[5] == number[0]);
    }
}

/// A step's final line tells which of the three things happened, and of what:
/// how long it took, why it was skipped, or how it failed. The tree settles on
/// that line.
pub proof fn a_status_line_tells_how_a_step_ended(
    outcome: Outcome,
    slot: Slot,
    frame: Seq<char>,
    columns: nat,
    color: bool,
)
    ensures
        ({
            let line = status_text(outcome, slot, false);
            &&& outcome.status is Done ==> line == slot.indent@ + "✓ "@ + slot.name@ + "  "@
                + formatted(outcome.duration@)
            &&& outcome.status matches Status::Skipped { reason } ==> line == slot.indent@ + "- "@
                + slot.name@ + "  "@ + reason@
            &&& outcome.status matches Status::Failed { code } ==> line == slot.indent@ + "✗ "@
                + slot.name@ + "  "@ + failure_text(code)
        }),
        tree_text(slot, Doing::Finished(outcome), frame, columns, color) == status_text(
            outcome,
            slot,
            color,
        ),
{
    reveal_strlit("✓");
    reveal_strlit("✓ ");
    reveal_strlit("-");
    reveal_strlit("- ");
    reveal_strlit("✗");
    reveal_strlit("✗ ");
    reveal_strlit(" ");
    let line = status_text(outcome, slot, false);
    match outcome.status {
        Status::Done => {
            assert(line =~= slot.indent@ + "✓ "@ + slot.name@ + "  "@ + formatted(
                outcome.duration@,
            ));
        },
        Status::Skipped { reason } => {
            assert(line =~= slot.indent@ + "- "@ + slot.name@ + "  "@ + reason@);
        },
        Status::Failed { code } => {
            assert(line =~= slot.indent@ + "✗ "@ + slot.name@ + "  "@ + failure_text(code));
        },
    }
}

/// The colours of a final line: what went well is green, what failed red from
/// its mark to its reason, and what was skipped is dim as a whole.
pub proof fn a_status_line_is_colored_by_how_a_step_ended(outcome: Outcome, slot: Slot)
    ensures
        ({
            let line = status_text(outcome, slot, true);
            &&& outcome.status is Done ==> line == slot.indent@ + styled(
                "✓"@,
                Some(2u8),
                false,
                true,
            ) + " "@ + slot.name@ + "  "@ + styled(
                formatted(outcome.duration@),
                Some(8u8),
                false,
                true,
            )
            &&& outcome.status matches Status::Skipped { reason } ==> line == slot.indent@ + styled(
                "-"@,
                Some(8u8),
                false,
                true,
            ) + " "@ + styled(slot.name@, Some(8u8), false, true) + "  "@ + styled(
                reason@,
                Some(8u8),
                false,
                true,
            )
            &&& outcome.status matches Status::Failed { code } ==> line == slot.indent@ + styled(
                "✗"@,
                Some(1u8),
                false,
                true,
            ) + " "@ + slot.name@ + "  "@ + styled(failure_text(code), Some(1u8), false, true)
        }),
{
}

/// The colours of a row that is not finished: a waiting one is dim as a whole, a
/// running one has a cyan spinner, and a dim clock and activity.
pub proof fn an_unfinished_row_is_colored_part_by_part(
    slot: Slot,
    after: Option<Seq<char>>,
    elapsed: nat,
    activity: Seq<char>,
    frame: Seq<char>,
    columns: nat,
)
    ensures
        tree_text(slot, Doing::Waiting { after }, frame, columns, true) == slot.indent@ + styled(
            "◌"@,
            Some(8u8),
            false,
            true,
        ) + " "@ + styled(slot.name@, Some(8u8), false, true) + "  "@ + styled(
            waiting_text(after),
            Some(8u8),
            false,
            true,
        ),
        ({
            let shown = shown_in(slot, elapsed, activity, columns);
            let fixed = slot.indent@ + styled(frame, Some(6u8), false, true) + " "@ + slot.name@
                + "  "@ + styled(clock_text(elapsed), Some(8u8), false, true);
            tree_text(slot, Doing::Running { elapsed, activity }, frame, columns, true) == (
            if shown.len() == 0 {
                fixed
            } else {
                fixed + "  "@ + styled(shown, Some(8u8), false, true)
            })
        }),
{
}

/// A line in parts is drawn part by part, each in its own colour.
pub proof fn parts_are_drawn_one_by_one(
    parts: Seq<Part>,
    more: Seq<Part>,
    part: Part,
    color: bool,
)
    ensures
        drawn(parts + more, color) == drawn(parts, color) + drawn(more, color),
        drawn(seq![part], color) == styled(part.text, part.tint, false, color),
        drawn(Seq::empty(), color).len() == 0,
        drawn(parts, false) == said(parts),
    decreases more.len(),
{
    lemma_drawn_without_color(parts);
    let one = styled(part.text, part.tint, false, color);
    assert(seq![part].drop_last() =~= Seq::empty());
    assert(drawn(Seq::empty(), color) =~= Seq::<char>::empty());
    assert(Seq::<char>::empty() + one =~= one);
    if more.len() == 0 {
        assert(parts + more =~= parts);
        assert(drawn(parts, color) + drawn(more, color) =~= drawn(parts, color));
    } else {
        parts_are_drawn_one_by_one(parts, more.drop_last(), part, color);
        assert((parts + more).drop_last() =~= parts + more.drop_last());
        assert(drawn(parts + more, color) =~= drawn(parts, color) + drawn(more, color));
    }
}

/// The parts that a row is cut in are all of it: drawn, they are the row.
pub proof fn a_row_is_its_parts(
    slot: Slot,
    row: Doing,
    frame: Seq<char>,
    columns: nat,
    color: bool,
)
    ensures
        drawn(tree_parts(slot, row, frame, columns), color) == tree_text(
            slot,
            row,
            frame,
            columns,
            color,
        ),
{
    let parts = tree_parts(slot, row, frame, columns);
    match row {
        Doing::Waiting { after } => {
            lemma_six_parts(parts, color);
        },
        Doing::Running { elapsed, activity } => {
            let shown = shown_in(slot, elapsed, activity, columns);
            let fixed = running_parts(slot, elapsed, Seq::empty(), frame);
            lemma_six_parts(fixed, color);
            if shown.len() > 0 {
                let gap = bare("  "@);
                let last = tinted(shown, DIM);
                assert(seq![gap] + seq![last] =~= seq![gap, last]);
                parts_are_drawn_one_by_one(fixed, seq![gap, last], gap, color);
                parts_are_drawn_one_by_one(seq![gap], seq![last], gap, color);
                parts_are_drawn_one_by_one(Seq::empty(), Seq::empty(), last, color);
                assert(drawn(parts, color) =~= tree_text(slot, row, frame, columns, color));
            }
        },
        Doing::Finished(outcome) => {
            status_is_its_parts(outcome, slot, color);
        },
    }
}

/// Cutting a line keeps its start and puts the mark behind it, and changes no
/// colour: every part before the last that is left is as it was, and that one
/// has the colour it had.
pub proof fn a_cut_changes_no_color(parts: Seq<Part>, keep: nat, mark: Seq<char>)
    requires
        keep <= said(parts).len(),
        parts.len() > 0,
    ensures
        ({
            let cut = cut_parts(parts, keep, mark);
            &&& said(cut) == said(parts).take(keep as int) + mark
            &&& cut.len() <= parts.len()
            &&& forall|i: int| 0 <= i < cut.len() - 1 ==> #[trigger] cut[i] == parts[i]
            &&& cut.len() > 0 ==> cut.last().tint == parts[cut.len() - 1].tint
        }),
    decreases parts.len(),
{
    lemma_cut_says(parts, keep, mark);
    let before = parts.drop_last();
    if keep < said(before).len() {
        a_cut_changes_no_color(before, keep, mark);
        let cut = cut_parts(parts, keep, mark);
        assert forall|i: int| 0 <= i < cut.len() - 1 implies #[trigger] cut[i] == parts[i] by {
            assert(before[i] == parts[i]);
        }
    }
}

/// A row that does not fit is cut where what it says without colour is, and one
/// that fits is not cut at all.
pub proof fn a_row_is_cut_where_its_text_is(
    slot: Slot,
    row: Doing,
    frame: Seq<char>,
    columns: nat,
    color: bool,
)
    ensures
        ({
            let whole = tree_text(slot, row, frame, columns, false);
            &&& str_cells(whole) <= columns ==> tree_row(slot, row, frame, columns, color)
                == tree_text(slot, row, frame, columns, color)
            &&& tree_row(slot, row, frame, columns, false) == truncated(whole, columns)
            &&& str_cells(whole) > columns ==> exists|k: nat|
                k <= whole.len() && truncated(whole, columns) == whole.take(k as int) + mark_in(
                    columns,
                ) && tree_row(slot, row, frame, columns, color) == drawn(
                    #[trigger] cut_parts(
                        tree_parts(slot, row, frame, columns),
                        k,
                        mark_in(columns),
                    ),
                    color,
                )
        }),
{
    let parts = tree_parts(slot, row, frame, columns);
    let whole = tree_text(slot, row, frame, columns, false);
    a_row_is_its_parts(slot, row, frame, columns, color);
    a_row_is_its_parts(slot, row, frame, columns, false);
    lemma_drawn_without_color(parts);
    if str_cells(whole) > columns {
        a_cut_keeps_the_longest_start(whole, columns);
        lemma_cut_says(parts, kept(whole, columns), mark_in(columns));
        lemma_drawn_without_color(cut_parts(parts, kept(whole, columns), mark_in(columns)));
        assert(kept(whole, columns) <= whole.len() && truncated(whole, columns) == whole.take(
            kept(whole, columns) as int,
        ) + mark_in(columns));
    }
}

/// Text that fits is not cut. Of other text a start is kept and a `…` put behind
/// it, where there is room for it. The start leaves a cell for that, its
/// characters counted one by one, and no longer start that does fits with it.
pub proof fn a_cut_keeps_the_longest_start(text: Seq<char>, columns: nat)
    ensures
        str_cells(text) <= columns ==> truncated(text, columns) == text,
        str_cells(text) > columns ==> ({
            let mark = if columns == 0 {
                ""@
            } else {
                "…"@
            };
            let room = if columns == 0 {
                0
            } else {
                columns - 1
            };
            let k = truncated(text, columns).len() - mark.len();
            &&& 0 <= k <= text.len()
            &&& k == kept(text, columns)
            &&& truncated(text, columns) == text.take(k) + mark
            &&& total(each_cells(text.take(k))) <= room
            &&& forall|j: int|
                k < j <= text.len() && total(each_cells(#[trigger] text.take(j))) <= room
                    ==> str_cells(text.take(j) + mark) > columns
        }),
{
    if str_cells(text) > columns {
        let room = room_before_mark(columns);
        let mark = mark_in(columns);
        let cells = each_cells(text);
        let widths = marked_cells(text, columns);
        let k = kept(text, columns) as int;
        fitting_is_the_most_that_fits(cells, room);
        lemma_last_within(widths, columns);
        assert(text.take(k).len() == k);
        assert(each_cells(text.take(k)) =~= cells.take(k));
        lemma_total_grows(cells, k, fitting(cells, room) as int);
        assert forall|j: int|
            k < j <= text.len() && total(each_cells(#[trigger] text.take(j))) <= room implies str_cells(
            text.take(j) + mark,
        ) > columns by {
            assert(each_cells(text.take(j)) =~= cells.take(j));
            if j > fitting(cells, room) {
                lemma_total_grows(cells, fitting(cells, room) as int + 1, j);
            }
            lemma_none_behind_the_last(widths, columns, j);
            assert(widths[j] == str_cells(text.take(j) + mark));
        }
    }
}

/// More cells are no fewer.
proof fn lemma_total_grows(cells: Seq<usize>, few: int, many: int)
    requires
        0 <= few <= many <= cells.len(),
    ensures
        total(cells.take(few)) <= total(cells.take(many)),
    decreases many - few,
{
    if few < many {
        lemma_total_grows(cells, few, many - 1);
        assert(cells.take(many).drop_last() =~= cells.take(many - 1));
    }
}

proof fn lemma_none_behind_the_last(widths: Seq<nat>, columns: nat, i: int)
    requires
        last_within(widths, columns) < i < widths.len(),
    ensures
        widths[i] > columns,
    decreases widths.len(),
{
    if i < widths.len() - 1 {
        lemma_none_behind_the_last(widths.drop_last(), columns, i);
    }
}

/// Of a line that redraws itself, the last frame in which anything shows is the
/// one that is shown: what of it is no control character, without the white
/// space around it.
pub proof fn the_last_visible_frame_is_shown(line: Seq<char>, i: int)
    requires
        0 <= i < pieces(stripped(line), '\r').len(),
        exists|k: int|
            0 <= k < pieces(stripped(line), '\r')[i].len() && !control(
                #[trigger] pieces(stripped(line), '\r')[i][k],
            ) && !white_space(pieces(stripped(line), '\r')[i][k]),
        forall|j: int, k: int|
            i < j < pieces(stripped(line), '\r').len() && 0 <= k < pieces(
                stripped(line),
                '\r',
            )[j].len() ==> control(#[trigger] pieces(stripped(line), '\r')[j][k]) || white_space(
                pieces(stripped(line), '\r')[j][k],
            ),
    ensures
        activity_text(line) == Some(trimmed(on_one_row(pieces(stripped(line), '\r')[i]))),
{
    let frames = pieces(stripped(line), '\r');
    let k = choose|k: int|
        0 <= k < frames[i].len() && !control(#[trigger] frames[i][k]) && !white_space(frames[i][k]);
    assert(visible(frames[i][k]));
    assert(!blank(frames[i]));
    assert forall|j: int| i < j < frames.len() implies blank(#[trigger] frames[j]) by {
        assert forall|k: int| 0 <= k < frames[j].len() implies !visible(#[trigger] frames[j][k]) by {
            assert(control(frames[j][k]) || white_space(frames[j][k]));
        }
    }
    lemma_last_shown_is(frames, i);
}

proof fn lemma_last_shown_is(frames: Seq<Seq<char>>, i: int)
    requires
        0 <= i < frames.len(),
        !blank(frames[i]),
        forall|j: int| i < j < frames.len() ==> blank(#[trigger] frames[j]),
    ensures
        last_shown(frames) == Some(trimmed(on_one_row(frames[i]))),
    decreases frames.len(),
{
    lemma_frame_text(frames.last());
    if i < frames.len() - 1 {
        let before = frames.drop_last();
        assert(blank(frames[frames.len() - 1]));
        assert forall|j: int| i < j < before.len() implies blank(#[trigger] before[j]) by {
            assert(before[j] == frames[j]);
        }
        lemma_last_shown_is(before, i);
    }
}

/// What is collected of two runs in a row is what is of the one and then what is
/// of the other, and of a step alone what is said of it.
pub proof fn collecting_keeps_every_entry_in_order(
    outcomes: Seq<Outcome>,
    more: Seq<Outcome>,
    outcome: Outcome,
    of: spec_fn(Outcome) -> Option<Seq<char>>,
)
    ensures
        collected(outcomes + more, of) == collected(outcomes, of) + collected(more, of),
        of(outcome) is None ==> collected(seq![outcome], of).len() == 0,
        of(outcome) matches Some(entry) ==> collected(seq![outcome], of) == seq![entry],
        collected(Seq::empty(), of).len() == 0,
    decreases more.len(),
{
    assert(seq![outcome].drop_last() =~= Seq::empty());
    assert(collected(Seq::empty(), of) =~= Seq::empty());
    if let Some(entry) = of(outcome) {
        assert(collected(seq![outcome], of) =~= seq![entry]);
    }
    if more.len() == 0 {
        assert(outcomes + more =~= outcomes);
        assert(collected(outcomes, of) + collected(more, of) =~= collected(outcomes, of));
    } else {
        collecting_keeps_every_entry_in_order(outcomes, more.drop_last(), outcome, of);
        assert((outcomes + more).drop_last() =~= outcomes + more.drop_last());
        assert(collected(outcomes + more, of) =~= collected(outcomes, of) + collected(more, of));
    }
}

/// Something is collected exactly where it is said of one of the outcomes.
proof fn lemma_collected_contains(
    outcomes: Seq<Outcome>,
    of: spec_fn(Outcome) -> Option<Seq<char>>,
)
    ensures
        forall|i: int|
            0 <= i < outcomes.len() ==> (of(#[trigger] outcomes[i]) matches Some(entry)
                ==> collected(outcomes, of).contains(entry)),
        forall|entry: Seq<char>| #[trigger]
            collected(outcomes, of).contains(entry) ==> exists|i: int|
                0 <= i < outcomes.len() && of(#[trigger] outcomes[i]) == Some(entry),
    decreases outcomes.len(),
{
    if outcomes.len() > 0 {
        let before = outcomes.drop_last();
        let all = collected(outcomes, of);
        let earlier = collected(before, of);
        lemma_collected_contains(before, of);
        assert forall|i: int| 0 <= i < outcomes.len() implies (of(
            #[trigger] outcomes[i],
        ) matches Some(entry) ==> all.contains(entry)) by {
            if let Some(entry) = of(outcomes[i]) {
                if i < before.len() {
                    assert(before[i] == outcomes[i]);
                    let k = choose|k: int| 0 <= k < earlier.len() && earlier[k] == entry;
                    assert(all[k] == entry);
                } else {
                    assert(all[all.len() - 1] == entry);
                }
            }
        }
        assert forall|entry: Seq<char>| #[trigger] all.contains(entry) implies exists|i: int|
            0 <= i < outcomes.len() && of(#[trigger] outcomes[i]) == Some(entry) by {
            let k = choose|k: int| 0 <= k < all.len() && all[k] == entry;
            if k < earlier.len() {
                assert(earlier[k] == entry);
                assert(earlier.contains(entry));
                let i = choose|i: int|
                    0 <= i < before.len() && of(#[trigger] before[i]) == Some(entry);
                assert(of(outcomes[i]) == Some(entry));
            } else {
                assert(of(outcomes[outcomes.len() - 1]) == Some(entry));
            }
        }
    }
}

/// Every step that did not finish is named, whatever became of the others: a
/// line of the summary lists each skipped step with its reason, and one each
/// failed step.
#[verifier::rlimit(40)]
pub proof fn every_unfinished_step_is_named(
    outcomes: Seq<Outcome>,
    elapsed: nat,
    color: bool,
    i: int,
)
    requires
        0 <= i < outcomes.len(),
    ensures
        outcomes[i].status matches Status::Skipped { reason } ==> exists|entries: Seq<Seq<char>>|
            entries.contains(outcomes[i].name@ + " ("@ + reason@ + ")"@) && summary_text(
                outcomes,
                elapsed,
                color,
            )[0] == styled("skipped    "@, Some(8u8), false, color) + #[trigger] joined(
                entries,
                ", "@,
            ),
        outcomes[i].status is Failed ==> exists|entries: Seq<Seq<char>>, k: int|
            0 <= k < 2 && entries.contains(outcomes[i].name@) && summary_text(
                outcomes,
                elapsed,
                color,
            ).len() > k && #[trigger] summary_text(outcomes, elapsed, color)[k] == styled(
                "failed     "@,
                Some(1u8),
                false,
                color,
            ) + #[trigger] joined(entries, ", "@),
{
    lemma_labels();
    let skip = |outcome: Outcome| skipped_entry(outcome);
    let fail = |outcome: Outcome| failed_entry(outcome);
    let skipped = collected(outcomes, skip);
    let failed = collected(outcomes, fail);
    lemma_collected_contains(outcomes, skip);
    lemma_collected_contains(outcomes, fail);
    let lines = summary_text(outcomes, elapsed, color);
    match outcomes[i].status {
        Status::Skipped { reason } => {
            assert(skip(outcomes[i]) == Some(outcomes[i].name@ + " ("@ + reason@ + ")"@));
            assert(skipped.contains(outcomes[i].name@ + " ("@ + reason@ + ")"@));
            assert(lines[0] == styled("skipped    "@, Some(8u8), false, color) + joined(
                skipped,
                ", "@,
            ));
        },
        Status::Failed { code } => {
            assert(fail(outcomes[i]) == Some(outcomes[i].name@));
            assert(failed.contains(outcomes[i].name@));
            let k = group("skipped"@, DIM, skipped, color).len() as int;
            assert(lines[k] == styled("failed     "@, Some(1u8), false, color) + joined(
                failed,
                ", "@,
            ));
        },
        Status::Done => {},
    }
}

/// The labels of the summary, padded.
proof fn lemma_labels()
    ensures
        padded("skipped"@, LABEL_WIDTH as int) == "skipped    "@,
        padded("failed"@, LABEL_WIDTH as int) == "failed     "@,
        padded("total"@, LABEL_WIDTH as int) == "total      "@,
{
    reveal_strlit("skipped");
    reveal_strlit("skipped    ");
    reveal_strlit("failed");
    reveal_strlit("failed     ");
    reveal_strlit("total");
    reveal_strlit("total      ");
    assert(padded("skipped"@, LABEL_WIDTH as int) =~= "skipped    "@);
    assert(padded("failed"@, LABEL_WIDTH as int) =~= "failed     "@);
    assert(padded("total"@, LABEL_WIDTH as int) =~= "total      "@);
}

/// The summary has a line for the skipped steps where there are any, one for the
/// failed steps where there are any, and the wall time last, and no other line.
#[verifier::rlimit(40)]
pub proof fn a_summary_has_a_line_for_each_kind(outcomes: Seq<Outcome>, elapsed: nat, color: bool)
    ensures
        ({
            let lines = summary_text(outcomes, elapsed, color);
            let skips = exists|i: int|
                0 <= i < outcomes.len() && (#[trigger] outcomes[i]).status is Skipped;
            let fails = exists|i: int|
                0 <= i < outcomes.len() && (#[trigger] outcomes[i]).status is Failed;
            &&& lines.len() == 1 + (if skips {
                1int
            } else {
                0
            }) + (if fails {
                1int
            } else {
                0
            })
            &&& skips ==> lines[0] == styled("skipped    "@, Some(8u8), false, color) + joined(
                collected(outcomes, |outcome: Outcome| skipped_entry(outcome)),
                ", "@,
            )
            &&& fails ==> lines[lines.len() - 2] == styled(
                "failed     "@,
                Some(1u8),
                false,
                color,
            ) + joined(collected(outcomes, |outcome: Outcome| failed_entry(outcome)), ", "@)
            &&& lines.last() == styled("total      "@, Some(8u8), false, color) + styled(
                formatted(elapsed),
                Some(8u8),
                false,
                color,
            )
        }),
{
    lemma_labels();
    let skip = |outcome: Outcome| skipped_entry(outcome);
    let fail = |outcome: Outcome| failed_entry(outcome);
    let skipped = collected(outcomes, skip);
    let failed = collected(outcomes, fail);
    lemma_collected_contains(outcomes, skip);
    lemma_collected_contains(outcomes, fail);
    let lines = summary_text(outcomes, elapsed, color);
    let skips = exists|i: int|
        0 <= i < outcomes.len() && (#[trigger] outcomes[i]).status is Skipped;
    let fails = exists|i: int| 0 <= i < outcomes.len() && (#[trigger] outcomes[i]).status is Failed;
    if skips {
        let i = choose|i: int|
            0 <= i < outcomes.len() && (#[trigger] outcomes[i]).status is Skipped;
        assert(skip(outcomes[i]) is Some);
    } else if skipped.len() > 0 {
        assert(skipped.contains(skipped[0]));
    }
    if fails {
        let i = choose|i: int| 0 <= i < outcomes.len() && (#[trigger] outcomes[i]).status is Failed;
        assert(fail(outcomes[i]) is Some);
    } else if failed.len() > 0 {
        assert(failed.contains(failed[0]));
    }
    assert(skips == (skipped.len() > 0));
    assert(fails == (failed.len() > 0));
}

/// An entry is listed exactly where a step was skipped that it names with the
/// reason, or where one failed that it names.
pub proof fn only_unfinished_steps_are_named(outcomes: Seq<Outcome>, entry: Seq<char>)
    ensures
        collected(outcomes, |outcome: Outcome| skipped_entry(outcome)).contains(entry)
            <==> exists|i: int|
            0 <= i < outcomes.len() && ((#[trigger] outcomes[i]).status matches Status::Skipped {
                reason,
            } && entry == outcomes[i].name@ + " ("@ + reason@ + ")"@),
        collected(outcomes, |outcome: Outcome| failed_entry(outcome)).contains(entry)
            <==> exists|i: int|
            0 <= i < outcomes.len() && (#[trigger] outcomes[i]).status is Failed && entry
                == outcomes[i].name@,
{
    let skip = |outcome: Outcome| skipped_entry(outcome);
    let fail = |outcome: Outcome| failed_entry(outcome);
    lemma_collected_contains(outcomes, skip);
    lemma_collected_contains(outcomes, fail);
    if collected(outcomes, skip).contains(entry) {
        let i = choose|i: int|
            0 <= i < outcomes.len() && skip(#[trigger] outcomes[i]) == Some(entry);
        assert(outcomes[i].status is Skipped);
    }
    if collected(outcomes, fail).contains(entry) {
        let i = choose|i: int|
            0 <= i < outcomes.len() && fail(#[trigger] outcomes[i]) == Some(entry);
        assert(outcomes[i].status is Failed);
    }
    if exists|i: int|
        0 <= i < outcomes.len() && ((#[trigger] outcomes[i]).status matches Status::Skipped {
            reason,
        } && entry == outcomes[i].name@ + " ("@ + reason@ + ")"@) {
        let i = choose|i: int|
            0 <= i < outcomes.len() && ((#[trigger] outcomes[i]).status matches Status::Skipped {
                reason,
            } && entry == outcomes[i].name@ + " ("@ + reason@ + ")"@);
        assert(skip(outcomes[i]) == Some(entry));
    }
    if exists|i: int|
        0 <= i < outcomes.len() && (#[trigger] outcomes[i]).status is Failed && entry
            == outcomes[i].name@ {
        let i = choose|i: int|
            0 <= i < outcomes.len() && (#[trigger] outcomes[i]).status is Failed && entry
                == outcomes[i].name@;
        assert(fail(outcomes[i]) == Some(entry));
    }
}

/// A prefix is the step's name in brackets, in its colour, and spaces: as many
/// as bring every prefix to one width, with one space behind the longest.
pub proof fn a_prefix_is_a_name_in_brackets(names: Seq<Seq<char>>, index: int, color: bool)
    requires
        0 <= index < names.len(),
    ensures
        ({
            let label = "["@ + names[index] + "]"@;
            let gap = prefix_text(names, index, false).len() - label.len();
            &&& gap >= 1
            &&& prefix_text(names, index, color) == styled(
                label,
                Some(STEP_COLORS@[index % 5]),
                false,
                color,
            ) + spaces(gap as nat)
        }),
        exists|k: int|
            0 <= k < names.len() && prefix_text(names, index, false).len() == (
            #[trigger] names[k]).len() + 3,
        forall|k: int|
            0 <= k < names.len() ==> (#[trigger] names[k]).len() + 3 <= prefix_text(
                names,
                index,
                false,
            ).len(),
{
    reveal_strlit("[");
    reveal_strlit("]");
    let all = lengths(names);
    prefixes_are_of_one_width(names, index);
    the_greatest_is_one_of_them(all);
    let k = choose|k: int| 0 <= k < all.len() && all[k] == greatest(all);
    assert(names[k].len() + 3 == prefix_width(names));
    assert(all[index] <= greatest(all));
    assert forall|k: int| 0 <= k < names.len() implies (#[trigger] names[k]).len() + 3
        <= prefix_width(names) by {
        assert(all[k] == names[k].len());
    }
}

/// A listed step: its name and its evidence, each padded to the longest of the
/// plan, a prompt sign and the command, as it would be typed. Each step has its
/// own colour, and the rest but the command is dim.
pub proof fn a_listed_step_shows_name_evidence_and_command(
    steps: Seq<Command>,
    index: int,
    color: bool,
)
    requires
        0 <= index < steps.len(),
    ensures
        listing(steps, color).len() == steps.len(),
        ({
            let step = steps[index];
            let names = name_width(steps) as int;
            let evidences = evidence_width(steps) as int;
            &&& listing(steps, color)[index] == end_trimmed(
                styled(padded(step.name, names), Some(STEP_COLORS@[index % 5]), false, color)
                    + "  "@ + styled(padded(step.evidence, evidences), Some(8u8), false, color)
                    + "  "@ + styled("$"@, Some(8u8), false, color) + " "@ + joined(
                    step.words,
                    " "@,
                ),
            )
            &&& step.name.len() <= names
            &&& step.evidence.len() <= evidences
        }),
        exists|k: int| 0 <= k < steps.len() && (#[trigger] steps[k]).name.len() == name_width(steps),
        exists|k: int|
            0 <= k < steps.len() && (#[trigger] steps[k]).evidence.len() == evidence_width(steps),
{
    let names = name_lengths(steps);
    let evidences = evidence_lengths(steps);
    the_greatest_is_one_of_them(names);
    the_greatest_is_one_of_them(evidences);
    assert(names[index] <= greatest(names));
    assert(evidences[index] <= greatest(evidences));
    let k = choose|k: int| 0 <= k < names.len() && names[k] == greatest(names);
    assert(steps[k].name.len() == name_width(steps));
    let k = choose|k: int| 0 <= k < evidences.len() && evidences[k] == greatest(evidences);
    assert(steps[k].evidence.len() == evidence_width(steps));
}

/// A row says what it is drawn with.
pub proof fn a_row_says_what_it_is(
    after: &str,
    elapsed: Duration,
    activity: &str,
    outcome: &Outcome,
)
    ensures
        (Row::Waiting { after: Some(after) })@ == (Doing::Waiting { after: Some(after@) }),
        (Row::Waiting { after: None })@ == (Doing::Waiting { after: None }),
        (Row::Running { elapsed, activity })@ == (Doing::Running {
            elapsed: elapsed@,
            activity: activity@,
        }),
        Row::Finished(outcome)@ == Doing::Finished(*outcome),
{
}

/// The row of a running step shows what it is given to show of the activity
/// behind the clock, and ends with the clock where that is nothing.
pub proof fn a_running_row_ends_with_its_activity(
    slot: Slot,
    elapsed: nat,
    shown: Seq<char>,
    frame: Seq<char>,
)
    ensures
        ({
            let fixed = slot.indent@ + frame + " "@ + slot.name@ + "  "@ + digits(
                elapsed / 1_000_000_000,
            ) + "s"@;
            running_text(slot, elapsed, shown, frame, false) == (if shown.len() == 0 {
                fixed
            } else {
                fixed + "  "@ + shown
            })
        }),
{
    let fixed = slot.indent@ + frame + " "@ + slot.name@ + "  "@ + digits(elapsed / 1_000_000_000)
        + "s"@;
    assert(slot.indent@ + frame + " "@ + slot.name@ + "  "@ + clock_text(elapsed) =~= fixed);
}

/// An activity has the cells that are left of the columns by the indent, the
/// spinner and a space, the name and two, the clock and two.
pub proof fn an_activity_has_the_cells_that_are_left(
    slot: Slot,
    name_cells: nat,
    clock_cells: nat,
    columns: nat,
)
    ensures
        ({
            let used = slot.indent@.len() + 1 + 1 + name_cells + 2 + clock_cells + 2;
            &&& columns >= used ==> room_in(slot, name_cells, clock_cells, columns) + used
                == columns
            &&& columns <= used ==> room_in(slot, name_cells, clock_cells, columns) == 0
        }),
{
}

/// A cut text is a start of the text, with `…` behind it where there is a column
/// for that.
pub proof fn a_cut_is_marked_where_there_is_room(
    text: Seq<char>,
    keep: nat,
    columns: nat,
    widths: Seq<usize>,
    i: int,
)
    requires
        keep <= text.len(),
        columns > 0,
        0 <= i < widths.len(),
    ensures
        marked(text, keep, columns) == text.subrange(0, keep as int).push('…'),
        marked(text, keep, 0) == text.subrange(0, keep as int),
        numbers(widths).len() == widths.len(),
        numbers(widths)[i] == widths[i],
{
    reveal_strlit("…");
    reveal_strlit("");
    assert(marked(text, keep, columns) =~= text.subrange(0, keep as int).push('…'));
    assert(marked(text, keep, 0) =~= text.subrange(0, keep as int));
}

} // verus!
