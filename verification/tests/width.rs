use cid::project::report::{cut, fitted, last_fitting, truncate};
use unicode_width::{UnicodeWidthChar, UnicodeWidthStr};

/// One or more characters for each rule by which a text takes another number of
/// cells than its characters do, and some of the ordinary ones.
const CHARS: [char; 64] = [
    'a', '#', '5', '~', ' ', '\u{a0}', '\0', '\t', '\n', '\r', '\x1b', '\x7f', '\u{85}', '\u{ad}',
    'ø', '…', '›', '情', '\u{3000}', '\u{ff9e}', '\u{300}', '\u{338}', '<', '=', '>', '\u{20d2}',
    '\u{200b}', '\u{200c}', '\u{200d}', '\u{2060}', '\u{fe00}', '\u{fe01}', '\u{fe02}', '\u{fe0e}',
    '\u{fe0f}', '\u{20e3}', '❤', '☺', '⏩', '⚙', '“', '”', '🦀', '👩', '👍', '🏽', '🇳', '🇴', '🏴',
    '\u{e0067}', '\u{e007f}', '\u{644}', '\u{622}', '\u{627}', '\u{5d0}', '\u{5dc}', '\u{17d2}',
    '\u{1780}', '\u{1a10}', '\u{2d4f}', '\u{2d7f}', '\u{a4fc}', '\u{a4fd}', '\u{11d9}',
];

#[test]
fn only_control_characters_have_no_width() {
    for c in '\0'..=char::MAX {
        assert_eq!(c.width().is_none(), c.is_control(), "{c:?}");
    }
}

#[test]
fn narrow_characters_take_a_cell_each() {
    let narrow = || (' '..='~').chain(['…', '›']);
    assert_eq!("".width(), 0);
    for c in narrow() {
        assert_eq!(c.width(), Some(1));
        assert_eq!(c.to_string().width(), 1);
        for d in narrow() {
            assert_eq!(format!("{c}{d}").width(), 2);
            for e in narrow() {
                assert_eq!(format!("{c}{d}{e}").width(), 3);
            }
        }
    }
}

#[test]
fn flags_beside_a_space_keep_their_cells() {
    for joined in ["", "\u{200d}👩", "\u{200d}🏽", "\u{200d}\u{20e3}"] {
        for count in 0..20 {
            let text = format!("{}{joined}", "🇳".repeat(count));
            assert_eq!(format!("{text} {text} ").width(), 2 * text.width() + 2, "{text:?}");
        }
    }
}

#[test]
fn the_cells_on_two_sides_of_a_space_add_up() {
    for a in CHARS {
        for b in CHARS {
            for c in CHARS {
                let before = format!("{a}{b}");
                let after = c.to_string();
                for gap in [" ", "  "] {
                    let text = format!("{before}{gap}{after}");
                    assert_eq!(text.width(), before.width() + gap.len() + after.width(), "{text:?}");
                    let text = format!("{text}{gap}");
                    assert_eq!(
                        text.width(),
                        before.width() + 2 * gap.len() + after.width(),
                        "{text:?}"
                    );
                }
                let before = a.to_string();
                let after = format!("{b}{c}");
                let text = format!("{before} {after}");
                assert_eq!(text.width(), before.width() + 1 + after.width(), "{text:?}");
                assert_eq!(format!(" {after}").width(), 1 + after.width(), "{after:?}");
            }
        }
    }
}

#[test]
fn every_character_beside_a_space_keeps_its_cells() {
    for c in '\0'..=char::MAX {
        let own = c.to_string().width();
        assert_eq!(format!("{c} a").width(), own + 2, "{c:?}");
        assert_eq!(format!("a {c}").width(), own + 2, "{c:?}");
        assert_eq!(format!("a {c}  ").width(), own + 4, "{c:?}");
        assert_eq!(format!(" {c}").width(), own + 1, "{c:?}");
        assert_eq!(format!("👩 {c}\u{fe0f}").width(), 3 + format!("{c}\u{fe0f}").width(), "{c:?}");
    }
}

#[test]
fn truncated_text_keeps_to_its_columns() {
    for text in [
        "resolving 情報 packages from the registry",
        "👩\u{200d}🔬 at work",
        "e\u{301}e\u{301}e\u{301}",
        "\u{644}\u{627}\u{644}\u{627}",
        "情報情報",
        "❤\u{fe0f}❤\u{fe0f}❤\u{fe0f}",
        "a\tb\u{1b}\u{7}c",
        "“\u{fe01}”\u{fe01}x",
    ] {
        for columns in 0..50 {
            let out = truncate(text, columns);
            assert!(out.width() <= columns, "{columns}: {out:?}");
            assert_eq!(out == text, text.width() <= columns);
            assert!(out == text || columns == 0 || out.ends_with('…'));
        }
    }
}

#[test]
fn a_start_that_is_wider_than_its_characters_is_cut_further() {
    assert_eq!(truncate("❤\u{fe0f}❤\u{fe0f}❤\u{fe0f}", 4), "❤\u{fe0f}❤…");
    assert_eq!(truncate("a\tbcd", 3), "a\t…");
    assert_eq!(truncate("\t\t", 0), "");
}

#[test]
fn truncation_counts_what_the_whole_text_takes() {
    assert_eq!(truncate("👩\u{200d}🔬", 2), "👩\u{200d}🔬");
    assert_eq!(truncate("👩\u{200d}🔬", 1), "…");
    assert_eq!(truncate("情報情報", 4), "情…");
    assert_eq!(truncate("e\u{301}a\u{301}o\u{301}", 2), "e\u{301}…");
}

#[test]
fn as_many_characters_fit_as_the_room_holds() {
    assert_eq!(fitted(&[1, 1, 1], 2), 2);
    assert_eq!(fitted(&[2, 2, 2], 3), 1);
    assert_eq!(fitted(&[2, 2, 2], 4), 2);
    assert_eq!(fitted(&[0, 0, 1], 0), 2);
    assert_eq!(fitted(&[1, 1], 9), 2);
    assert_eq!(fitted(&[], 9), 0);
}

#[test]
fn the_last_width_within_the_columns_is_found() {
    assert_eq!(last_fitting(&[1, 2, 3, 3, 4], 3), 3);
    assert_eq!(last_fitting(&[1, 2, 3, 2, 4], 2), 3);
    assert_eq!(last_fitting(&[1, 2], 9), 1);
    assert_eq!(last_fitting(&[1, 2], 1), 0);
    assert_eq!(last_fitting(&[0, 2], 1), 0);
}

#[test]
fn a_cut_is_marked_where_there_is_room() {
    assert_eq!(cut("abc", 2, 3), "ab…");
    assert_eq!(cut("情報", 1, 3), "情…");
    assert_eq!(cut("abc", 0, 1), "…");
    assert_eq!(cut("abc", 2, 0), "ab");
}
