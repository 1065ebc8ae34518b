//! A one-line text prompt with a live preview of what the answer will become.
//!
//! [`Line`] and [`render`] decide everything and are pure; the caller owns the
//! terminal: raw mode, the key reads, the redraws.

use vstd::prelude::*;

use crate::escapes::{
    lemma_strips_alone, lemma_strips_in_a_row, lemma_strips_plain, plain, stripped, strips_to,
    style_strips_away,
};
use crate::term::{bold, paint, painted, style, styled, SECONDARY};
use crate::text::{
    char_count, chars, end_trimmed, is_white_space, join, joined, lemma_end_trimmed,
    lemma_trimmed_of_blank, push_spaces, spaces, texts, trim, trimmed, trimmed_has_no_outer_white_space, white_space,
};
use crate::utf8::split_behind;
use crate::width::{adds_up, str_cells, str_width};

verus! {

/// The text being typed and where the cursor sits in it, in chars.
#[derive(Debug, PartialEq, Eq)]
pub struct Line {
    text: String,
    cursor: usize,
}

impl Clone for Line {
    fn clone(&self) -> (copy: Line)
        ensures
            copy@ == self@,
    {
        proof {
            use_type_invariant(self);
        }
        Line { text: self.text.clone(), cursor: self.cursor }
    }
}

/// What a [`Line`] holds.
pub ghost struct Typed {
    pub text: Seq<char>,
    pub cursor: nat,
}

impl View for Line {
    type V = Typed;

    closed spec fn view(&self) -> Typed {
        Typed { text: self.text@, cursor: self.cursor as nat }
    }
}

/// What a key did to the prompt as a whole.
#[derive(Debug, PartialEq, Eq)]
pub enum Step {
    /// Keep reading keys.
    Edit,
    /// The answer is in: the text, trimmed.
    Submit(String),
    /// Esc, Ctrl-C, or Ctrl-D on an empty line.
    Cancel,
}

/// What a [`Step`] says.
pub ghost enum Said {
    Edit,
    Submit(Seq<char>),
    Cancel,
}

impl View for Step {
    type V = Said;

    open spec fn view(&self) -> Said {
        match *self {
            Step::Edit => Said::Edit,
            Step::Submit(text) => Said::Submit(text@),
            Step::Cancel => Said::Cancel,
        }
    }
}

/// The keys that a prompt tells apart.
#[derive(Debug, Clone, Copy, PartialEq, Eq)]
pub enum KeyCode {
    Enter,
    Esc,
    Backspace,
    Delete,
    Left,
    Right,
    Home,
    End,
    /// A key that types the character, unless it is held with another.
    Char(char),
    Other,
}

/// A key, and which of the keys that change its meaning were held with it.
#[derive(Debug, Clone, Copy, PartialEq, Eq)]
pub struct KeyEvent {
    pub code: KeyCode,
    pub ctrl: bool,
    pub alt: bool,
}

/// What a terminal reports while a prompt is shown.
#[derive(Debug, Clone, Copy, PartialEq, Eq)]
pub enum Event {
    /// A key went down, or is held down and repeats.
    Pressed(KeyEvent),
    /// A key came up again.
    Released(KeyEvent),
    /// The terminal was resized, text was pasted, and the like.
    Other,
}

/// `line` with its cursor at `chars`, or at the end of the text.
pub open spec fn moved(line: Typed, chars: nat) -> Typed {
    Typed {
        text: line.text,
        cursor: if chars < line.text.len() {
            chars
        } else {
            line.text.len()
        },
    }
}

/// `line` without its characters from `from` up to `to`, the cursor where they
/// were.
pub open spec fn without(line: Typed, from: nat, to: nat) -> Typed {
    Typed { text: line.text.take(from as int) + line.text.skip(to as int), cursor: from }
}

/// `line` with `c` before the cursor.
pub open spec fn with(line: Typed, c: char) -> Typed {
    Typed {
        text: line.text.take(line.cursor as int).push(c) + line.text.skip(line.cursor as int),
        cursor: line.cursor + 1,
    }
}

/// `line` without the character under the cursor, where there is one.
pub open spec fn without_next(line: Typed) -> Typed {
    if line.cursor < line.text.len() {
        without(line, line.cursor, line.cursor + 1)
    } else {
        line
    }
}

/// `text` without the word it ends in.
pub open spec fn without_last_word(text: Seq<char>) -> Seq<char>
    decreases text.len(),
{
    if text.len() > 0 && !white_space(text.last()) {
        without_last_word(text.drop_last())
    } else {
        text
    }
}

/// Where Ctrl-W cuts back to: over any spaces behind the cursor, then over
/// the word before them.
pub open spec fn word_start_of(line: Typed) -> nat {
    without_last_word(end_trimmed(line.text.take(line.cursor as int))).len()
}

/// What `key` makes of `line`.
pub open spec fn edited(line: Typed, key: KeyEvent) -> Typed {
    match key.code {
        KeyCode::Enter | KeyCode::Esc | KeyCode::Other => line,
        KeyCode::Char(c) => if key.ctrl {
            if c == 'd' {
                without_next(line)
            } else if c == 'a' {
                moved(line, 0)
            } else if c == 'e' {
                moved(line, line.text.len())
            } else if c == 'b' {
                moved(line, before(line.cursor))
            } else if c == 'f' {
                moved(line, line.cursor + 1)
            } else if c == 'u' {
                without(line, 0, line.cursor)
            } else if c == 'k' {
                without(line, line.cursor, line.text.len())
            } else if c == 'w' {
                without(line, word_start_of(line), line.cursor)
            } else {
                line
            }
        } else if key.alt {
            line
        } else {
            with(line, c)
        },
        KeyCode::Backspace => if line.cursor > 0 {
            without(line, before(line.cursor), line.cursor)
        } else {
            line
        },
        KeyCode::Delete => without_next(line),
        KeyCode::Left => moved(line, before(line.cursor)),
        KeyCode::Right => moved(line, line.cursor + 1),
        KeyCode::Home => moved(line, 0),
        KeyCode::End => moved(line, line.text.len()),
    }
}

/// The place before `chars`, or the start.
pub open spec fn before(chars: nat) -> nat {
    if chars > 0 {
        (chars - 1) as nat
    } else {
        0
    }
}

/// What `key` does to the prompt that shows `line`.
pub open spec fn answer(line: Typed, key: KeyEvent) -> Said {
    match key.code {
        KeyCode::Enter => if trimmed(line.text).len() == 0 {
            Said::Edit
        } else {
            Said::Submit(trimmed(line.text))
        },
        KeyCode::Esc => Said::Cancel,
        KeyCode::Char(c) => if key.ctrl && (c == 'c' || c == 'd' && line.text.len() == 0) {
            Said::Cancel
        } else {
            Said::Edit
        },
        _ => Said::Edit,
    }
}

impl Default for Line {
    /// An empty line.
    fn default() -> (line: Line)
        ensures
            line@ == (Typed { text: Seq::empty(), cursor: 0 }),
    {
        Line { text: String::new(), cursor: 0 }
    }
}

impl Line {
    #[verifier::type_invariant]
    spec fn well_formed(self) -> bool {
        self.cursor <= self.text@.len()
    }

    /// A line already holding `text`, the cursor at its end.
    pub fn new(text: &str) -> (line: Line)
        ensures
            line@ == (Typed { text: text@, cursor: text@.len() }),
    {
        Line { text: text.to_string(), cursor: char_count(text) }
    }

    pub fn text(&self) -> (text: &str)
        ensures
            text@ == self@.text,
    {
        self.text.as_str()
    }

    /// The text before the cursor, which is what places it on screen.
    pub fn before_cursor(&self) -> (text: &str)
        ensures
            text@ == self@.text.take(self@.cursor as int),
            text@.len() == self@.cursor,
    {
        proof {
            use_type_invariant(self);
        }
        split_behind(self.text.as_str(), self.cursor).0
    }

    /// Apply one key. Emacs bindings, as a shell's own line editor has them.
    ///
    /// Enter on a blank line does nothing: there is no answer to give yet.
    pub fn apply(&mut self, key: KeyEvent) -> (step: Step)
        ensures
            final(self)@ == edited(old(self)@, key),
            final(self)@.cursor <= final(self)@.text.len(),
            step@ == answer(old(self)@, key),
    {
        proof {
            use_type_invariant(&*self);
            lemma_word_start(self@);
        }
        let len = self.len();
        match key.code {
            KeyCode::Enter => {
                let text = trim(self.text.as_str());
                if text.as_str().is_empty() {
                    Step::Edit
                } else {
                    Step::Submit(text)
                }
            },
            KeyCode::Esc => Step::Cancel,
            KeyCode::Char(c) => {
                if key.ctrl {
                    if c == 'c' {
                        Step::Cancel
                    } else if c == 'd' {
                        if self.text.as_str().is_empty() {
                            Step::Cancel
                        } else {
                            self.delete_at_cursor()
                        }
                    } else if c == 'a' {
                        self.to(0)
                    } else if c == 'e' {
                        self.to(len)
                    } else if c == 'b' {
                        self.to(self.cursor.saturating_sub(1))
                    } else if c == 'f' {
                        self.to(self.cursor + 1)
                    } else if c == 'u' {
                        self.cut(0, self.cursor)
                    } else if c == 'k' {
                        self.cut(self.cursor, len)
                    } else if c == 'w' {
                        self.cut(self.word_start(), self.cursor)
                    } else {
                        Step::Edit
                    }
                } else if key.alt {
                    Step::Edit
                } else {
                    self.insert(c)
                }
            },
            KeyCode::Backspace => {
                if self.cursor > 0 {
                    self.cut(self.cursor - 1, self.cursor)
                } else {
                    Step::Edit
                }
            },
            KeyCode::Delete => self.delete_at_cursor(),
            KeyCode::Left => self.to(self.cursor.saturating_sub(1)),
            KeyCode::Right => self.to(self.cursor + 1),
            KeyCode::Home => self.to(0),
            KeyCode::End => self.to(len),
            KeyCode::Other => Step::Edit,
        }
    }

    /// Take what the terminal reports: a key applies as it goes down, and
    /// anything else changes nothing.
    pub fn hear(&mut self, event: Event) -> (step: Step)
        ensures
            match event {
                Event::Pressed(key) => final(self)@ == edited(old(self)@, key) && step@ == answer(
                    old(self)@,
                    key,
                ),
                _ => final(self)@ == old(self)@ && step@ == Said::Edit,
            },
    {
        match event {
            Event::Pressed(key) => self.apply(key),
            _ => Step::Edit,
        }
    }

    fn len(&self) -> (len: usize)
        ensures
            len == self@.text.len(),
            len <= isize::MAX,
    {
        char_count(self.text.as_str())
    }

    fn to(&mut self, chars: usize) -> (step: Step)
        ensures
            final(self)@ == moved(old(self)@, chars as nat),
            step@ == Said::Edit,
    {
        let len = self.len();
        self.cursor = if chars < len {
            chars
        } else {
            len
        };
        Step::Edit
    }

    fn insert(&mut self, c: char) -> (step: Step)
        ensures
            final(self)@ == with(old(self)@, c),
            step@ == Said::Edit,
    {
        proof {
            use_type_invariant(&*self);
        }
        let len = self.len();
        let (first, second) = split_behind(self.text.as_str(), self.cursor);
        let mut text = first.to_string();
        text.push(c);
        text.append(second);
        *self = Line { text, cursor: self.cursor + 1 };
        Step::Edit
    }

    fn cut(&mut self, from: usize, to: usize) -> (step: Step)
        requires
            from <= to <= old(self)@.text.len(),
        ensures
            final(self)@ == without(old(self)@, from as nat, to as nat),
            step@ == Said::Edit,
    {
        let (first, _) = split_behind(self.text.as_str(), from);
        let (_, second) = split_behind(self.text.as_str(), to);
        let mut text = first.to_string();
        text.append(second);
        *self = Line { text, cursor: from };
        Step::Edit
    }

    fn delete_at_cursor(&mut self) -> (step: Step)
        ensures
            final(self)@ == without_next(old(self)@),
            step@ == Said::Edit,
    {
        if self.cursor < self.len() {
            self.cut(self.cursor, self.cursor + 1)
        } else {
            Step::Edit
        }
    }

    /// Where Ctrl-W cuts back to: over any spaces behind the cursor, then over
    /// the word before them.
    fn word_start(&self) -> (start: usize)
        ensures
            start == word_start_of(self@),
            start <= self@.cursor,
    {
        proof {
            use_type_invariant(self);
        }
        let all = chars(self.before_cursor());
        let ghost typed = self@.text.take(self@.cursor as int);
        let mut start: usize = self.cursor;
        assert(typed.take(start as int) =~= typed);
        while start > 0 && is_white_space(all[start - 1])
            invariant
                start <= all@.len(),
                all@ == typed,
                end_trimmed(typed) == end_trimmed(typed.take(start as int)),
            decreases start,
        {
            assert(typed.take(start as int).drop_last() =~= typed.take(start - 1));
            start -= 1;
        }
        while start > 0 && !is_white_space(all[start - 1])
            invariant
                start <= all@.len(),
                all@ == typed,
                without_last_word(end_trimmed(typed)) == without_last_word(
                    typed.take(start as int),
                ),
            decreases start,
        {
            assert(typed.take(start as int).drop_last() =~= typed.take(start - 1));
            start -= 1;
        }
        start
    }
}

/// The start of the word that Ctrl-W cuts is not behind the cursor.
proof fn lemma_word_start(line: Typed)
    requires
        line.cursor <= line.text.len(),
    ensures
        word_start_of(line) <= line.cursor,
{
    let typed = line.text.take(line.cursor as int);
    lemma_end_trimmed(typed);
    lemma_without_last_word(end_trimmed(typed));
}

proof fn lemma_without_last_word(text: Seq<char>)
    ensures
        without_last_word(text).len() <= text.len(),
        without_last_word(text) == text.take(without_last_word(text).len() as int),
        without_last_word(text).len() > 0 ==> white_space(without_last_word(text).last()),
    decreases text.len(),
{
    if text.len() > 0 && !white_space(text.last()) {
        lemma_without_last_word(text.drop_last());
        let kept = without_last_word(text).len() as int;
        assert(text.drop_last().take(kept) =~= text.take(kept));
    } else {
        assert(text.take(text.len() as int) =~= text);
    }
}

/// Whatever the key, the cursor stays inside the text.
pub proof fn cursor_stays_inside(line: Typed, key: KeyEvent)
    requires
        line.cursor <= line.text.len(),
    ensures
        edited(line, key).cursor <= edited(line, key).text.len(),
{
    lemma_word_start(line);
}

/// A key that ends the prompt changes nothing of the line, and what is
/// submitted is its text: not blank, and without white space around it.
pub proof fn an_answer_leaves_the_line(line: Typed, key: KeyEvent)
    ensures
        answer(line, key) != Said::Edit ==> edited(line, key) == line,
        answer(line, key) matches Said::Submit(text) ==> key.code == KeyCode::Enter && text
            == trimmed(line.text) && text.len() > 0 && trimmed(text) == text,
{
    trimmed_has_no_outer_white_space(line.text);
}

/// Backspace takes back the character that was typed last, however many bytes
/// it takes.
pub proof fn backspace_undoes_typing(line: Typed, typed: KeyEvent, backspace: KeyEvent, c: char)
    requires
        line.cursor <= line.text.len(),
        typed.code == KeyCode::Char(c),
        !typed.ctrl,
        !typed.alt,
        backspace.code == KeyCode::Backspace,
    ensures
        edited(edited(line, typed), backspace) == line,
{
    let longer = edited(line, typed);
    assert(longer.text.take(line.cursor as int) =~= line.text.take(line.cursor as int));
    assert(longer.text.skip(line.cursor as int + 1) =~= line.text.skip(line.cursor as int));
    assert(edited(longer, backspace).text =~= line.text);
}

/// `line` with the characters of `text` typed into it, one after the other.
pub open spec fn typed_into(line: Typed, text: Seq<char>) -> Typed
    decreases text.len(),
{
    if text.len() == 0 {
        line
    } else {
        edited(
            typed_into(line, text.drop_last()),
            KeyEvent { code: KeyCode::Char(text.last()), ctrl: false, alt: false },
        )
    }
}

/// Typing a text puts it at the cursor, which ends up behind it. Typed into an
/// empty line, it makes the line that holds the text.
pub proof fn typing_inserts_at_the_cursor(line: Typed, text: Seq<char>)
    requires
        line.cursor <= line.text.len(),
    ensures
        typed_into(line, text) == (Typed {
            text: line.text.take(line.cursor as int) + text + line.text.skip(line.cursor as int),
            cursor: line.cursor + text.len(),
        }),
        line.text.len() == 0 ==> typed_into(line, text) == (Typed { text, cursor: text.len() }),
    decreases text.len(),
{
    let head = line.text.take(line.cursor as int);
    let tail = line.text.skip(line.cursor as int);
    if text.len() == 0 {
        assert(head + text + tail =~= line.text);
    } else {
        let before = text.drop_last();
        typing_inserts_at_the_cursor(line, before);
        let so_far = typed_into(line, before);
        assert(so_far.text.take(so_far.cursor as int) =~= head + before);
        assert(so_far.text.skip(so_far.cursor as int) =~= tail);
        assert((head + before).push(text.last()) =~= head + text);
        assert(typed_into(line, text).text =~= head + text + tail);
    }
    if line.text.len() == 0 {
        assert(head + text + tail =~= text);
    }
}

/// Ctrl-U and Ctrl-K cut the text on either side of the cursor: what one of
/// them leaves is what the other cuts.
pub proof fn ctrl_u_and_ctrl_k_cut_either_side(line: Typed, u: KeyEvent, k: KeyEvent)
    requires
        line.cursor <= line.text.len(),
        u.code == KeyCode::Char('u'),
        k.code == KeyCode::Char('k'),
        u.ctrl,
        k.ctrl,
    ensures
        edited(line, u) == (Typed { text: line.text.skip(line.cursor as int), cursor: 0 }),
        edited(line, k) == (Typed {
            text: line.text.take(line.cursor as int),
            cursor: line.cursor,
        }),
        edited(line, k).text + edited(line, u).text == line.text,
{
    assert(edited(line, u).text =~= line.text.skip(line.cursor as int));
    assert(edited(line, k).text =~= line.text.take(line.cursor as int));
    assert(edited(line, k).text + edited(line, u).text =~= line.text);
}

/// Ctrl-W cuts a word and the spaces between it and the cursor: the text behind
/// the cursor stays, and what is left before it is nothing or ends in white
/// space.
pub proof fn ctrl_w_cuts_a_word(line: Typed, w: KeyEvent)
    requires
        line.cursor <= line.text.len(),
        w.code == KeyCode::Char('w'),
        w.ctrl,
    ensures
        ({
            let after = edited(line, w);
            let word_end = end_trimmed(line.text.take(line.cursor as int)).len();
            &&& after.cursor <= word_end <= line.cursor
            &&& after.text == line.text.take(after.cursor as int) + line.text.skip(
                line.cursor as int,
            )
            &&& after.cursor > 0 ==> white_space(line.text[after.cursor - 1])
            &&& forall|i: int|
                after.cursor <= i < word_end ==> !white_space(#[trigger] line.text[i])
            &&& forall|i: int|
                word_end <= i < line.cursor ==> white_space(#[trigger] line.text[i])
        }),
{
    let typed = line.text.take(line.cursor as int);
    let ended = end_trimmed(typed);
    lemma_end_trimmed(typed);
    lemma_without_last_word(ended);
    lemma_cut_off(typed);
    let after = edited(line, w);
    if after.cursor > 0 {
        assert(without_last_word(ended).last() == line.text[after.cursor - 1]);
    }
    assert forall|i: int| after.cursor <= i < ended.len() implies !white_space(
        #[trigger] line.text[i],
    ) by {
        lemma_word_cut_off(ended, i);
        assert(ended[i] == line.text[i]);
    }
    assert forall|i: int| ended.len() <= i < line.cursor implies white_space(
        #[trigger] line.text[i],
    ) by {
        assert(typed[i] == line.text[i]);
    }
}

/// What trimming the end of a text takes off is white space.
proof fn lemma_cut_off(text: Seq<char>)
    ensures
        forall|i: int|
            end_trimmed(text).len() <= i < text.len() ==> white_space(#[trigger] text[i]),
    decreases text.len(),
{
    if text.len() > 0 && white_space(text.last()) {
        lemma_cut_off(text.drop_last());
        assert forall|i: int| end_trimmed(text).len() <= i < text.len() implies white_space(
            #[trigger] text[i],
        ) by {
            if i < text.len() - 1 {
                assert(text.drop_last()[i] == text[i]);
            }
        }
    }
}

/// What taking the last word off a text takes off is no white space.
proof fn lemma_word_cut_off(text: Seq<char>, i: int)
    requires
        without_last_word(text).len() <= i < text.len(),
    ensures
        !white_space(text[i]),
    decreases text.len(),
{
    if i < text.len() - 1 {
        lemma_word_cut_off(text.drop_last(), i);
    }
}

/// The glyph between a label and its value, cyan.
pub const ARROW: &'static str = "›";

pub const ARROW_COLOR: u8 = 6;

/// The colour of the previewed answer: green, as a thing about to be made.
pub const PREVIEW_COLOR: u8 = 2;

/// The greater of two numbers of cells.
pub open spec fn wider(cells: nat, others: nat) -> nat {
    if cells > others {
        cells
    } else {
        others
    }
}

/// `label`, which takes `cells`, with spaces before it up to `width` cells.
pub open spec fn aligned(label: Seq<char>, cells: nat, width: nat) -> Seq<char> {
    spaces(
        if width > cells {
            (width - cells) as nat
        } else {
            0
        },
    ) + label
}

/// What stands in one row of a prompt before the value: its label, which takes
/// `cells`, right aligned to `width`, and the arrow.
pub open spec fn head_text(label: Seq<char>, cells: nat, width: nat, color: bool) -> Seq<char> {
    styled(aligned(label, cells, width), None, true, color) + " "@ + painted(
        ARROW@,
        ARROW_COLOR,
        color,
    ) + " "@
}

/// The rows of a prompt whose labels take the cells given.
pub open spec fn rows_text(
    label: Seq<char>,
    cells: nat,
    text: Seq<char>,
    preview_label: Seq<char>,
    preview_cells: nat,
    preview: Seq<char>,
    color: bool,
) -> Seq<Seq<char>> {
    let width = wider(cells, preview_cells);
    seq![
        head_text(label, cells, width, color) + text,
        head_text(preview_label, preview_cells, width, color) + styled(
            preview,
            Some(PREVIEW_COLOR),
            true,
            color,
        ),
        painted(spaces(width) + "   enter to create · esc to cancel"@, SECONDARY, color),
    ]
}

/// The cells of the wider of two labels.
pub open spec fn label_width(label: Seq<char>, preview_label: Seq<char>) -> nat {
    wider(str_cells(label), str_cells(preview_label))
}

/// The column of the cursor of a prompt: behind a label, ` › ` and the text
/// before it.
pub open spec fn cursor_column(line: Typed, width: nat) -> nat {
    width + 3 + str_cells(line.text.take(line.cursor as int))
}

/// What one frame of the prompt draws: its rows, and the column of the cursor.
pub open spec fn frame_text(
    label: Seq<char>,
    line: Typed,
    preview_label: Seq<char>,
    preview: Seq<char>,
    color: bool,
) -> (Seq<Seq<char>>, nat) {
    (
        rows_text(
            label,
            str_cells(label),
            line.text,
            preview_label,
            str_cells(preview_label),
            preview,
            color,
        ),
        cursor_column(line, label_width(label, preview_label)),
    )
}

/// Whether the two values of a prompt line up: on both rows what stands before
/// the value takes, as it is without colour, the cells of the wider label and
/// those of ` › `.
pub open spec fn values_line_up(label: Seq<char>, preview_label: Seq<char>) -> bool {
    let width = label_width(label, preview_label);
    &&& str_cells(head_text(label, str_cells(label), width, false)) == width + 3
    &&& str_cells(head_text(preview_label, str_cells(preview_label), width, false)) == width + 3
}

/// Whether `column` is where the text before the cursor ends on the first row
/// of a prompt, as it is without colour and counted in cells.
pub open spec fn ends_at_the_cursor(
    row: Seq<char>,
    label: Seq<char>,
    line: Typed,
    width: nat,
    column: nat,
) -> bool {
    let head = head_text(label, str_cells(label), width, false);
    str_cells(row.take((head.len() + line.cursor) as int)) == column
}

/// What stands in one row of a prompt before the value.
fn head(label: &str, cells: usize, width: usize, color: bool) -> (head: String)
    ensures
        head@ == head_text(label@, cells as nat, width as nat, color),
{
    let mut aligned = String::new();
    push_spaces(&mut aligned, width.saturating_sub(cells));
    aligned.append(label);
    assert(aligned@ =~= self::aligned(label@, cells as nat, width as nat));
    let mut head = bold(aligned.as_str(), color);
    head.append(" ");
    head.append(paint(ARROW, ARROW_COLOR, color).as_str());
    head.append(" ");
    head
}

/// The rows of a prompt whose labels take the cells given. The labels are
/// padded to one width so the two values line up.
pub fn render_rows(
    label: &str,
    cells: usize,
    text: &str,
    preview_label: &str,
    preview_cells: usize,
    preview: &str,
    color: bool,
) -> (rows: Vec<String>)
    ensures
        texts(rows@) == rows_text(
            label@,
            cells as nat,
            text@,
            preview_label@,
            preview_cells as nat,
            preview@,
            color,
        ),
{
    let width = widest(cells, preview_cells);
    let mut first = head(label, cells, width, color);
    first.append(text);
    let mut second = head(preview_label, preview_cells, width, color);
    second.append(style(preview, Some(PREVIEW_COLOR), true, color).as_str());
    let mut hint = String::new();
    push_spaces(&mut hint, width);
    hint.append("   enter to create · esc to cancel");
    assert(hint@ =~= spaces(width as nat) + "   enter to create · esc to cancel"@);
    let third = paint(hint.as_str(), SECONDARY, color);
    let mut rows: Vec<String> = Vec::new();
    rows.push(first);
    rows.push(second);
    rows.push(third);
    assert(texts(rows@) =~= rows_text(
        label@,
        cells as nat,
        text@,
        preview_label@,
        preview_cells as nat,
        preview@,
        color,
    ));
    rows
}

/// What one frame of the prompt draws, row by row, and the column the cursor
/// belongs in on the first. The labels are padded to one width so the two
/// values line up.
pub fn render(
    label: &str,
    line: &Line,
    preview_label: &str,
    preview: &str,
    color: bool,
) -> (frame: (Vec<String>, usize))
    requires
        cursor_column(line@, label_width(label@, preview_label@)) <= usize::MAX,
    ensures
        (texts(frame.0@), frame.1 as nat) == frame_text(
            label@,
            line@,
            preview_label@,
            preview@,
            color,
        ),
        values_line_up(label@, preview_label@),
        (color ==> plain(label@) && plain(line@.text)) ==> ends_at_the_cursor(
            if color {
                stripped(frame.0@[0]@)
            } else {
                frame.0@[0]@
            },
            label@,
            line@,
            label_width(label@, preview_label@),
            frame.1 as nat,
        ),
{
    let cells = str_width(label);
    let preview_cells = str_width(preview_label);
    let width = widest(cells, preview_cells);
    let rows = render_rows(
        label,
        cells,
        line.text(),
        preview_label,
        preview_cells,
        preview,
        color,
    );
    let arrow = str_width(ARROW);
    let typed = str_width(line.before_cursor());
    proof {
        use_type_invariant(line);
        reveal_strlit("›");
        lemma_head_cells(label@, cells as nat, width as nat);
        lemma_head_cells(preview_label@, preview_cells as nat, width as nat);
        let head = head_text(label@, cells as nat, width as nat, false);
        let shown = aligned(label@, cells as nat, width as nat) + spaces(1) + ARROW@ + spaces(0);
        let before = line@.text.take(line@.cursor as int);
        let first = head + line@.text;
        assert(str_cells(shown + spaces(1) + before + spaces(0)) == str_cells(shown) + 1 + typed);
        assert(head =~= shown + spaces(1)) by {
            reveal_strlit(" ");
        }
        assert(first.take((head.len() + line@.cursor) as int) =~= shown + spaces(1) + before
            + spaces(0));
        assert(texts(rows@).len() == rows@.len());
        assert(texts(rows@)[0] == rows@[0]@);
        if color && plain(label@) && plain(line@.text) {
            let none = Seq::<char>::empty();
            colored_rows_say_the_same(
                label@,
                cells as nat,
                line@.text,
                none,
                preview_cells as nat,
                none,
                color,
                0,
            );
        }
    }
    // A label, a space, the arrow and another space stand before the text.
    (rows, width + 1 + arrow + 1 + typed)
}

/// What stands before a value takes the cells that its label is aligned to, and
/// three more.
proof fn lemma_head_cells(label: Seq<char>, cells: nat, width: nat)
    requires
        cells <= width,
        adds_up(ARROW@),
        str_cells(ARROW@) == 1,
        forall|n: nat| #[trigger] str_cells(spaces(n) + label) == n + cells,
    ensures
        str_cells(aligned(label, cells, width)) == width,
        str_cells(aligned(label, cells, width) + spaces(1) + ARROW@ + spaces(0)) == width + 2,
        str_cells(head_text(label, cells, width, false)) == width + 3,
{
    reveal_strlit(" ");
    let label = aligned(label, cells, width);
    assert(str_cells(label + spaces(1) + ARROW@ + spaces(1)) == width + 3);
    assert(label + " "@ + ARROW@ + " "@ =~= label + spaces(1) + ARROW@ + spaces(1));
}

/// [`render`], or nothing when the cursor is further along its row than can be
/// counted.
pub fn checked_render(
    label: &str,
    line: &Line,
    preview_label: &str,
    preview: &str,
    color: bool,
) -> (frame: Option<(Vec<String>, usize)>)
    ensures
        frame is Some <==> cursor_column(line@, label_width(label@, preview_label@)) <= usize::MAX,
        frame matches Some((rows, column)) ==> (texts(rows@), column as nat) == frame_text(
            label@,
            line@,
            preview_label@,
            preview@,
            color,
        ) && values_line_up(label@, preview_label@) && ((color ==> plain(label@) && plain(
            line@.text,
        )) ==> ends_at_the_cursor(
            if color {
                stripped(rows@[0]@)
            } else {
                rows@[0]@
            },
            label@,
            line@,
            label_width(label@, preview_label@),
            column as nat,
        )),
{
    let width = widest(str_width(label), str_width(preview_label));
    let typed = str_width(line.before_cursor());
    if width <= usize::MAX - 3 && typed <= usize::MAX - 3 - width {
        Some(render(label, line, preview_label, preview, color))
    } else {
        None
    }
}

/// The greater of two numbers of cells.
fn widest(cells: usize, others: usize) -> (width: usize)
    ensures
        width == wider(cells as nat, others as nat),
{
    if cells > others {
        cells
    } else {
        others
    }
}

/// What it takes to draw a prompt from the row the cursor is on: what to write,
/// how many rows to go back up, and the column to end in.
#[derive(Debug)]
pub struct Drawing {
    /// Raw mode leaves a bare newline moving down without returning to column
    /// 0, so every row break is an explicit `\r\n`.
    pub text: String,
    pub up: u16,
    pub column: u16,
}

/// Draw `rows`, leaving the cursor on the first at `column`. A terminal counts
/// rows and columns in 16 bits.
pub fn draw(rows: &[String], column: usize) -> (drawing: Drawing)
    ensures
        drawing.text@ == joined(texts(rows@), "\r\n"@),
        drawing.up == (if rows@.len() > 1 {
            (rows@.len() - 1) % 0x1_0000
        } else {
            0
        }),
        drawing.column == column % 0x1_0000,
{
    let up: u16 = if rows.len() > 1 {
        low_bits(rows.len() - 1)
    } else {
        0
    };
    Drawing { text: join(rows, "\r\n"), up, column: low_bits(column) }
}

/// The low 16 bits of `n`.
fn low_bits(n: usize) -> (low: u16)
    ensures
        low == n % 0x1_0000,
{
    assert(n as u16 == n % 0x1_0000) by (bit_vector);
    #[verifier::truncate]
    (n as u16)
}

/// Colour changes nothing of a frame: it has three rows either way, those
/// without colour carry no escape code, those with it say the same once their
/// escape sequences are taken off, and the cursor is in the same column.
#[verifier::rlimit(40)]
pub proof fn color_changes_nothing_of_a_frame(
    label: Seq<char>,
    line: Typed,
    preview_label: Seq<char>,
    preview: Seq<char>,
)
    requires
        plain(label),
        plain(line.text),
        plain(preview_label),
        plain(preview),
    ensures
        ({
            let (rows, column) = frame_text(label, line, preview_label, preview, false);
            let (colored, colored_column) = frame_text(label, line, preview_label, preview, true);
            &&& rows.len() == 3
            &&& colored.len() == 3
            &&& forall|i: int| 0 <= i < 3 ==> plain(#[trigger] rows[i])
            &&& forall|i: int| 0 <= i < 3 ==> stripped(#[trigger] colored[i]) == rows[i]
            &&& column == colored_column
            &&& column == label_width(label, preview_label) + 3 + str_cells(
                line.text.take(line.cursor as int),
            )
        }),
{
    let cells = str_cells(label);
    let preview_cells = str_cells(preview_label);
    assert forall|i: int| 0 <= i < 3 implies plain(
        #[trigger] frame_text(label, line, preview_label, preview, false).0[i],
    ) by {
        no_color_no_escape_codes(label, cells, line.text, preview_label, preview_cells, preview, i);
    }
    assert forall|i: int| 0 <= i < 3 implies stripped(
        #[trigger] frame_text(label, line, preview_label, preview, true).0[i],
    ) == frame_text(label, line, preview_label, preview, false).0[i] by {
        colored_rows_say_the_same(
            label,
            cells,
            line.text,
            preview_label,
            preview_cells,
            preview,
            true,
            i,
        );
    }
}

/// Colour changes nothing of what the rows of a prompt say: stripped of escape
/// sequences, they are the rows without colour.
#[verifier::rlimit(40)]
pub proof fn colored_rows_say_the_same(
    label: Seq<char>,
    cells: nat,
    text: Seq<char>,
    preview_label: Seq<char>,
    preview_cells: nat,
    preview: Seq<char>,
    color: bool,
    row: int,
)
    requires
        0 <= row < 3,
        plain(label),
        plain(text),
        plain(preview_label),
        plain(preview),
    ensures
        stripped(
            rows_text(label, cells, text, preview_label, preview_cells, preview, color)[row],
        ) == rows_text(label, cells, text, preview_label, preview_cells, preview, false)[row],
{
    let width = wider(cells, preview_cells);
    if row == 0 {
        lemma_strips_plain(text);
        lemma_value_strips(label, cells, width, text, text, color);
    } else if row == 1 {
        style_strips_away(preview, Some(PREVIEW_COLOR), true, color);
        lemma_value_strips(
            preview_label,
            preview_cells,
            width,
            styled(preview, Some(PREVIEW_COLOR), true, color),
            preview,
            color,
        );
    } else {
        reveal_strlit("   enter to create · esc to cancel");
        let hint = spaces(width) + "   enter to create · esc to cancel"@;
        style_strips_away(hint, Some(SECONDARY), false, color);
    }
}

/// A row with a value strips to the row without colour and what the value does.
#[verifier::rlimit(40)]
proof fn lemma_value_strips(
    label: Seq<char>,
    cells: nat,
    width: nat,
    shown: Seq<char>,
    said: Seq<char>,
    color: bool,
)
    requires
        plain(label),
        strips_to(shown, said),
    ensures
        stripped(head_text(label, cells, width, color) + shown) == head_text(
            label,
            cells,
            width,
            false,
        ) + said,
{
    let head = head_text(label, cells, width, color);
    let head_said = head_text(label, cells, width, false);
    lemma_head_strips(label, cells, width, color);
    lemma_strips_in_a_row(head, head_said, shown, said);
    lemma_strips_alone(head + shown, head_said + said);
}

#[verifier::rlimit(40)]
proof fn lemma_head_strips(label: Seq<char>, cells: nat, width: nat, color: bool)
    requires
        plain(label),
    ensures
        strips_to(head_text(label, cells, width, color), head_text(label, cells, width, false)),
{
    reveal_strlit(" ");
    reveal_strlit("›");
    let aligned = aligned(label, cells, width);
    let bold = styled(aligned, None, true, color);
    let arrow = painted(ARROW@, ARROW_COLOR, color);
    style_strips_away(aligned, None, true, color);
    style_strips_away(ARROW@, Some(ARROW_COLOR), false, color);
    lemma_strips_plain(" "@);
    lemma_strips_in_a_row(bold, aligned, " "@, " "@);
    lemma_strips_in_a_row(bold + " "@, aligned + " "@, arrow, ARROW@);
    lemma_strips_in_a_row(bold + " "@ + arrow, aligned + " "@ + ARROW@, " "@, " "@);
}

/// Rows without colour carry no escape code but those in what they show.
pub proof fn no_color_no_escape_codes(
    label: Seq<char>,
    cells: nat,
    text: Seq<char>,
    preview_label: Seq<char>,
    preview_cells: nat,
    preview: Seq<char>,
    row: int,
)
    requires
        0 <= row < 3,
        plain(label),
        plain(text),
        plain(preview_label),
        plain(preview),
    ensures
        plain(rows_text(label, cells, text, preview_label, preview_cells, preview, false)[row]),
{
    reveal_strlit(" ");
    reveal_strlit("›");
    reveal_strlit("   enter to create · esc to cancel");
}

/// Enter answers with what is typed, wherever the cursor is: a line that holds
/// anything but white space is submitted, without the white space around it,
/// and a line that holds nothing else stays.
pub proof fn enter_submits_all_but_a_blank_line(line: Typed, enter: KeyEvent)
    requires
        enter.code == KeyCode::Enter,
    ensures
        (exists|i: int| 0 <= i < line.text.len() && !white_space(#[trigger] line.text[i]))
            ==> answer(line, enter) == Said::Submit(trimmed(line.text)),
        (forall|i: int| 0 <= i < line.text.len() ==> white_space(#[trigger] line.text[i]))
            ==> answer(line, enter) == Said::Edit,
        edited(line, enter) == line,
{
    lemma_trimmed_of_blank(line.text);
}

/// The prompt is cancelled by Esc, by Ctrl-C, by Ctrl-D on an empty line, and by
/// nothing else; it is answered by Enter alone.
pub proof fn only_these_keys_end_the_prompt(line: Typed, key: KeyEvent)
    ensures
        answer(line, key) == Said::Cancel <==> key.code == KeyCode::Esc || key.ctrl && (key.code
            == KeyCode::Char('c') || key.code == KeyCode::Char('d') && line.text.len() == 0),
        answer(line, key) is Submit ==> key.code == KeyCode::Enter,
        key.code != KeyCode::Enter && answer(line, key) != Said::Cancel ==> answer(line, key)
            == Said::Edit,
{
}

/// A letter that is held with neither Ctrl nor Alt is put in at the cursor, which
/// goes behind it.
pub proof fn a_letter_is_put_in_at_the_cursor(line: Typed, key: KeyEvent, c: char)
    requires
        line.cursor <= line.text.len(),
        key.code == KeyCode::Char(c),
        !key.ctrl,
        !key.alt,
    ensures
        edited(line, key).text == line.text.insert(line.cursor as int, c),
        edited(line, key).cursor == line.cursor + 1,
{
    assert(edited(line, key).text =~= line.text.insert(line.cursor as int, c));
}

/// Backspace takes the character before the cursor, Delete and Ctrl-D the one
/// under it, and each changes nothing where there is no such character.
pub proof fn one_character_is_taken_out(line: Typed, key: KeyEvent)
    requires
        line.cursor <= line.text.len(),
    ensures
        key.code == KeyCode::Backspace ==> edited(line, key) == (if line.cursor == 0 {
            line
        } else {
            Typed {
                text: line.text.remove(line.cursor - 1),
                cursor: (line.cursor - 1) as nat,
            }
        }),
        key.code == KeyCode::Delete || key.ctrl && key.code == KeyCode::Char('d') ==> edited(
            line,
            key,
        ) == (if line.cursor == line.text.len() {
            line
        } else {
            Typed { text: line.text.remove(line.cursor as int), cursor: line.cursor }
        }),
{
    if key.code == KeyCode::Backspace && line.cursor > 0 {
        assert(edited(line, key).text =~= line.text.remove(line.cursor - 1));
    }
    if (key.code == KeyCode::Delete || key.ctrl && key.code == KeyCode::Char('d')) && line.cursor
        < line.text.len() {
        assert(edited(line, key).text =~= line.text.remove(line.cursor as int));
    }
}

/// The keys that move the cursor, and the letters that do with Ctrl, change
/// nothing of the text: by one to the left or right as far as the text goes, to
/// its start, or to its end.
pub proof fn moving_keeps_the_text(line: Typed, key: KeyEvent)
    requires
        line.cursor <= line.text.len(),
    ensures
        ({
            let after = edited(line, key);
            &&& key.code == KeyCode::Left || key.ctrl && key.code == KeyCode::Char('b') ==> after.text
                == line.text && (line.cursor > 0 ==> after.cursor + 1 == line.cursor) && (
            line.cursor == 0 ==> after.cursor == 0)
            &&& key.code == KeyCode::Right || key.ctrl && key.code == KeyCode::Char('f')
                ==> after.text == line.text && (line.cursor < line.text.len() ==> after.cursor
                == line.cursor + 1) && (line.cursor == line.text.len() ==> after.cursor
                == line.cursor)
            &&& key.code == KeyCode::Home || key.ctrl && key.code == KeyCode::Char('a') ==> after.text
                == line.text && after.cursor == 0
            &&& key.code == KeyCode::End || key.ctrl && key.code == KeyCode::Char('e') ==> after.text
                == line.text && after.cursor == line.text.len()
        }),
{
}

/// A letter held with Alt, or with Ctrl where that has no meaning, is not typed,
/// and neither is any other key: the line stays.
pub proof fn other_keys_leave_the_line(line: Typed, key: KeyEvent, c: char)
    ensures
        key.code == KeyCode::Other || key.code == KeyCode::Esc || key.code == KeyCode::Enter
            ==> edited(line, key) == line,
        key.code == KeyCode::Char(c) && key.alt && !key.ctrl ==> edited(line, key) == line
            && answer(line, key) == Said::Edit,
        key.code == KeyCode::Char(c) && key.ctrl && c != 'a' && c != 'b' && c != 'd' && c != 'e' && c
            != 'f' && c != 'k' && c != 'u' && c != 'w' ==> edited(line, key) == line,
{
}

/// Ctrl changes what a letter means whether Alt is held or not, and Alt changes
/// nothing of a key that is no letter.
pub proof fn alt_counts_for_letters_alone(line: Typed, key: KeyEvent, other: KeyEvent)
    requires
        key.code == other.code,
        key.ctrl == other.ctrl,
        key.ctrl || !(key.code is Char),
    ensures
        edited(line, key) == edited(line, other),
        answer(line, key) == answer(line, other),
{
}

/// The rows of a prompt without colour: each label behind the spaces it lacks of
/// the wider one, ` › ` and the value, and a hint that starts under the values.
pub proof fn a_frame_shows_labels_and_values(
    label: Seq<char>,
    cells: nat,
    text: Seq<char>,
    preview_label: Seq<char>,
    preview_cells: nat,
    preview: Seq<char>,
    width: nat,
)
    requires
        width >= cells,
        width >= preview_cells,
        width == cells || width == preview_cells,
    ensures
        ({
            let rows = rows_text(label, cells, text, preview_label, preview_cells, preview, false);
            let gap = (width - cells) as nat;
            let preview_gap = (width - preview_cells) as nat;
            &&& rows.len() == 3
            &&& rows[0] == spaces(gap) + label + " › "@ + text
            &&& rows[1] == spaces(preview_gap) + preview_label + " › "@ + preview
            &&& rows[2] == spaces(width + 3) + "enter to create · esc to cancel"@
        }),
{
    reveal_strlit(" ");
    reveal_strlit("›");
    reveal_strlit(" › ");
    reveal_strlit("   enter to create · esc to cancel");
    reveal_strlit("enter to create · esc to cancel");
    let rows = rows_text(label, cells, text, preview_label, preview_cells, preview, false);
    assert(rows[0] =~= spaces((width - cells) as nat) + label + " › "@ + text);
    assert(rows[1] =~= spaces((width - preview_cells) as nat) + preview_label + " › "@ + preview);
    assert(rows[2] =~= spaces(width + 3) + "enter to create · esc to cancel"@);
}

/// The colours of a frame: the labels bold, the arrows cyan, what is typed as it
/// is, the preview bold and green, the hint in the secondary colour.
pub proof fn a_frame_is_colored_part_by_part(
    label: Seq<char>,
    cells: nat,
    text: Seq<char>,
    preview_label: Seq<char>,
    preview_cells: nat,
    preview: Seq<char>,
    width: nat,
)
    requires
        width >= cells,
        width >= preview_cells,
        width == cells || width == preview_cells,
    ensures
        ({
            let rows = rows_text(label, cells, text, preview_label, preview_cells, preview, true);
            let gap = (width - cells) as nat;
            let preview_gap = (width - preview_cells) as nat;
            let arrow = " "@ + styled("›"@, Some(6u8), false, true) + " "@;
            &&& rows.len() == 3
            &&& rows[0] == styled(spaces(gap) + label, None, true, true) + arrow + text
            &&& rows[1] == styled(spaces(preview_gap) + preview_label, None, true, true) + arrow
                + styled(preview, Some(2u8), true, true)
            &&& rows[2] == styled(
                spaces(width) + "   enter to create · esc to cancel"@,
                Some(8u8),
                false,
                true,
            )
        }),
{
    let rows = rows_text(label, cells, text, preview_label, preview_cells, preview, true);
    let arrow = " "@ + styled("›"@, Some(6u8), false, true) + " "@;
    let first = styled(spaces((width - cells) as nat) + label, None, true, true);
    let second = styled(spaces((width - preview_cells) as nat) + preview_label, None, true, true);
    assert(rows[0] =~= first + arrow + text);
    assert(rows[1] =~= second + arrow + styled(preview, Some(2u8), true, true));
}

/// A step says what it is, and what is submitted with it.
pub proof fn a_step_says_what_it_is(text: String)
    ensures
        Step::Edit@ == Said::Edit,
        Step::Cancel@ == Said::Cancel,
        Step::Submit(text)@ == Said::Submit(text@),
{
}

/// The column of the cursor: behind the wider of the two labels, three cells and
/// the text before it.
pub proof fn the_cursor_is_behind_the_text_before_it(
    label: Seq<char>,
    preview_label: Seq<char>,
    line: Typed,
    width: nat,
)
    ensures
        label_width(label, preview_label) >= str_cells(label),
        label_width(label, preview_label) >= str_cells(preview_label),
        label_width(label, preview_label) == str_cells(label) || label_width(label, preview_label)
            == str_cells(preview_label),
        cursor_column(line, width) == width + 3 + str_cells(
            line.text.subrange(0, line.cursor as int),
        ),
{
    assert(line.text.take(line.cursor as int) == line.text.subrange(0, line.cursor as int));
}

} // verus!
