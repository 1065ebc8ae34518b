use cid::escapes::strip_escapes;
use cid::prompt::{
    checked_render, draw, render, render_rows, Event, KeyCode, KeyEvent, Line, Step,
};
use unicode_width::UnicodeWidthStr;

fn key(code: KeyCode) -> KeyEvent {
    KeyEvent { code, ctrl: false, alt: false }
}

fn ctrl(c: char) -> KeyEvent {
    KeyEvent { code: KeyCode::Char(c), ctrl: true, alt: false }
}

fn typed(text: &str) -> Line {
    let mut line = Line::default();
    for c in text.chars() {
        line.apply(key(KeyCode::Char(c)));
    }
    line
}

#[test]
fn typing_inserts_at_the_cursor() {
    let mut line = typed("Migrate AWS");
    for _ in 0..3 {
        line.apply(key(KeyCode::Left));
    }
    for c in "to ".chars() {
        line.apply(key(KeyCode::Char(c)));
    }
    assert_eq!(line.text(), "Migrate to AWS");
    assert_eq!(line.before_cursor(), "Migrate to ");
}

#[test]
fn enter_submits_the_trimmed_text_but_not_a_blank_line() {
    assert_eq!(typed("   ").apply(key(KeyCode::Enter)), Step::Edit);
    assert_eq!(
        typed(" Migrate ").apply(key(KeyCode::Enter)),
        Step::Submit("Migrate".into())
    );
}

#[test]
fn esc_and_ctrl_c_cancel_and_ctrl_d_cancels_only_an_empty_line() {
    assert_eq!(typed("a").apply(key(KeyCode::Esc)), Step::Cancel);
    assert_eq!(typed("a").apply(ctrl('c')), Step::Cancel);
    assert_eq!(typed("").apply(ctrl('d')), Step::Cancel);
    assert_eq!(typed("a").apply(ctrl('d')), Step::Edit);
}

#[test]
fn backspace_removes_a_whole_character_whatever_its_width_in_bytes() {
    let mut line = typed("Møte");
    line.apply(key(KeyCode::Left));
    line.apply(key(KeyCode::Left));
    line.apply(key(KeyCode::Backspace));
    assert_eq!(line.text(), "Mte");
}

#[test]
fn ctrl_w_cuts_the_word_behind_the_cursor_and_the_spaces_after_it() {
    let mut line = typed("Migrate to  ");
    line.apply(ctrl('w'));
    assert_eq!(line.text(), "Migrate ");
}

#[test]
fn ctrl_u_and_ctrl_k_cut_either_side_of_the_cursor() {
    let mut line = typed("Migrate to AWS");
    line.apply(ctrl('b'));
    line.apply(ctrl('b'));
    line.apply(ctrl('b'));
    let mut after = line.clone();
    line.apply(ctrl('u'));
    assert_eq!(line.text(), "AWS");
    after.apply(ctrl('k'));
    assert_eq!(after.text(), "Migrate to ");
}

#[test]
fn the_cursor_stays_inside_the_text() {
    let mut line = Line::new("ab");
    line.apply(key(KeyCode::Right));
    line.apply(ctrl('f'));
    assert_eq!(line.before_cursor(), "ab");
    line.apply(key(KeyCode::Home));
    line.apply(key(KeyCode::Left));
    assert_eq!(line.before_cursor(), "");
}

#[test]
fn a_modified_letter_is_not_typed() {
    let mut line = typed("a");
    line.apply(KeyEvent { code: KeyCode::Char('x'), ctrl: false, alt: true });
    line.apply(ctrl('z'));
    assert_eq!(line.text(), "a");
}

#[test]
fn a_frame_lines_up_the_values_and_places_the_cursor_after_the_text() {
    let (rows, column) = render("Title", &Line::new("Møte"), "File", "x.md", false);
    assert_eq!(rows[0], "Title › Møte");
    assert_eq!(rows[1], " File › x.md");
    assert_eq!(column, "Title › ".width() + "Møte".width());
}

#[test]
fn a_frame_without_colour_carries_no_escape_codes() {
    let (rows, _) = render("Title", &Line::new("a"), "File", "a.md", false);
    assert!(rows.iter().all(|row| !row.contains('\x1b')));
}

fn text_and_cursor(line: &Line) -> (&str, usize) {
    (line.text(), line.before_cursor().chars().count())
}

#[test]
fn a_line_starts_with_the_cursor_at_its_end() {
    assert_eq!(text_and_cursor(&Line::new("Møte")), ("Møte", 4));
    assert_eq!(text_and_cursor(&Line::default()), ("", 0));
    assert_eq!(Line::new("Møte"), typed("Møte"));
}

#[test]
fn backspace_takes_back_what_was_typed() {
    for c in ['a', 'ø', '情', '🦀', '\u{301}'] {
        let mut line = Line::new("to AWS");
        line.apply(key(KeyCode::Left));
        let before = line.clone();
        line.apply(key(KeyCode::Char(c)));
        assert_ne!(line, before);
        line.apply(key(KeyCode::Backspace));
        assert_eq!(line, before);
    }
}

#[test]
fn keys_at_the_ends_of_the_text_change_nothing() {
    let mut line = Line::new("ab");
    assert_eq!(line.apply(key(KeyCode::Delete)), Step::Edit);
    assert_eq!(line.apply(ctrl('d')), Step::Edit);
    assert_eq!(text_and_cursor(&line), ("ab", 2));
    line.apply(ctrl('a'));
    assert_eq!(line.apply(key(KeyCode::Backspace)), Step::Edit);
    line.apply(ctrl('u'));
    line.apply(ctrl('w'));
    assert_eq!(text_and_cursor(&line), ("ab", 0));
}

#[test]
fn delete_takes_the_character_under_the_cursor() {
    for delete in [key(KeyCode::Delete), ctrl('d')] {
        let mut line = Line::new("Møte");
        line.apply(key(KeyCode::Home));
        line.apply(key(KeyCode::Right));
        line.apply(delete);
        assert_eq!(text_and_cursor(&line), ("Mte", 1));
    }
}

#[test]
fn the_cursor_moves_by_letters_and_by_keys_alike() {
    for (letter, code) in [
        ('a', KeyCode::Home),
        ('e', KeyCode::End),
        ('b', KeyCode::Left),
        ('f', KeyCode::Right),
    ] {
        let mut by_letter = Line::new("Møte");
        let mut by_key = Line::new("Møte");
        for line in [&mut by_letter, &mut by_key] {
            line.apply(key(KeyCode::Left));
            line.apply(key(KeyCode::Left));
        }
        assert_eq!(by_letter.apply(ctrl(letter)), Step::Edit);
        assert_eq!(by_key.apply(key(code)), Step::Edit);
        assert_eq!(by_letter, by_key);
        assert_eq!(by_letter.text(), "Møte");
    }
}

#[test]
fn ctrl_w_keeps_what_is_behind_the_cursor() {
    let mut line = Line::new("Migrate to\u{a0} AWS");
    for _ in 0..3 {
        line.apply(key(KeyCode::Left));
    }
    line.apply(ctrl('w'));
    assert_eq!(text_and_cursor(&line), ("Migrate AWS", 8));
    line.apply(ctrl('w'));
    assert_eq!(text_and_cursor(&line), ("AWS", 0));
}

#[test]
fn cutting_both_sides_cuts_all() {
    let mut before = Line::new("Migrate to AWS");
    for _ in 0..5 {
        before.apply(key(KeyCode::Left));
    }
    let mut after = before.clone();
    before.apply(ctrl('k'));
    after.apply(ctrl('u'));
    assert_eq!(format!("{}{}", before.text(), after.text()), "Migrate to AWS");
}

#[test]
fn ctrl_and_alt_held_together_type_nothing() {
    let mut line = Line::new("a");
    for (c, ctrl, alt) in [('x', true, true), ('x', false, true), ('d', false, true)] {
        let step = line.apply(KeyEvent { code: KeyCode::Char(c), ctrl, alt });
        assert_eq!(step, Step::Edit);
    }
    assert_eq!(line.text(), "a");
    assert_eq!(
        line.apply(KeyEvent { code: KeyCode::Char('c'), ctrl: true, alt: true }),
        Step::Cancel
    );
}

#[test]
fn an_answer_leaves_the_line_as_it_is() {
    for key in [key(KeyCode::Enter), key(KeyCode::Esc), ctrl('c'), key(KeyCode::Other)] {
        let mut line = Line::new(" Migrate ");
        line.apply(self::key(KeyCode::Left));
        let before = line.clone();
        line.apply(key);
        assert_eq!(line, before);
    }
}

#[test]
fn only_keys_that_go_down_are_applied() {
    let mut line = Line::new("a");
    let b = key(KeyCode::Char('b'));
    assert_eq!(line.hear(Event::Pressed(b)), Step::Edit);
    assert_eq!(line.hear(Event::Released(b)), Step::Edit);
    assert_eq!(line.hear(Event::Other), Step::Edit);
    assert_eq!(line.hear(Event::Released(key(KeyCode::Esc))), Step::Edit);
    assert_eq!(line.text(), "ab");
    assert_eq!(line.hear(Event::Pressed(key(KeyCode::Enter))), Step::Submit("ab".to_string()));
    assert_eq!(line.hear(Event::Pressed(key(KeyCode::Esc))), Step::Cancel);
}

#[test]
fn the_cursor_is_where_the_text_before_it_ends() {
    for text in ["", "Møte", "情報 møte", "👩\u{200d}🔬"] {
        let mut line = Line::new(text);
        line.apply(key(KeyCode::Left));
        let (rows, column) = render("Title", &line, "File", "x.md", false);
        let shown = format!("Title › {}", line.before_cursor());
        assert!(rows[0].starts_with(&shown));
        assert_eq!(column, shown.width());
        let (colored, colored_column) = render("Title", &line, "File", "x.md", true);
        assert!(strip_escapes(&colored[0]).starts_with(&shown));
        assert_eq!(colored_column, column);
        assert_eq!(checked_render("Title", &line, "File", "x.md", false), Some((rows, column)));
    }
}

#[test]
fn labels_are_aligned_by_the_cells_they_take() {
    let (rows, column) = render("情報", &Line::new("x"), "Title", "y", false);
    assert_eq!(rows[0], " 情報 › x");
    assert_eq!(rows[1], "Title › y");
    assert_eq!(rows[2], "        enter to create · esc to cancel");
    assert_eq!(column, 9);

    let (rows, column) = render("情報", &Line::new("a"), "File", "x.md", false);
    assert_eq!(rows[0], "情報 › a");
    assert_eq!(rows[1], "File › x.md");
    assert_eq!(column, 8);

    assert_eq!(
        render_rows("a", 1, "x", "bc", 3, "y", false),
        ["  a › x", "bc › y", "      enter to create · esc to cancel"]
    );
}

#[test]
fn the_values_of_a_frame_line_up_whatever_the_labels() {
    let labels = ["", "Title", "情報", "e\u{301}n", "👩\u{200d}🔬", "tab\t", "❤\u{fe0f}"];
    for label in labels {
        for preview_label in labels {
            let line = Line::new("情 x");
            for color in [false, true] {
                let (rows, column) = render(label, &line, preview_label, "y", color);
                let first = strip_escapes(&rows[0]);
                let second = strip_escapes(&rows[1]);
                let width = label.width().max(preview_label.width());
                assert_eq!(first.strip_suffix("情 x").unwrap().width(), width + 3);
                assert_eq!(second.strip_suffix("y").unwrap().width(), width + 3);
                assert_eq!(first.width(), column);
                assert_eq!(column, width + 3 + "情 x".width());
            }
        }
    }
}

#[test]
fn a_frame_is_drawn_row_by_row() {
    let rows = ["one".to_string(), "two".to_string(), "three".to_string()];
    let drawing = draw(&rows, 65_546);
    assert_eq!(drawing.text, "one\r\ntwo\r\nthree");
    assert_eq!(drawing.up, 2);
    assert_eq!(drawing.column, 10);
    let drawing = draw(&rows[..1], 7);
    assert_eq!((drawing.text.as_str(), drawing.up, drawing.column), ("one", 0, 7));
    assert_eq!(draw(&[], 0).up, 0);
}
