use cid::text::{
    decimal, is_control, is_white_space, join, signed_decimal, split, trim, trim_end,
};
use cid::utf8::{byte, split_behind};

#[test]
fn white_space_is_what_unicode_says_it_is() {
    for c in '\0'..=char::MAX {
        assert_eq!(is_white_space(c), c.is_whitespace(), "{c:?}");
    }
}

#[test]
fn control_characters_are_what_unicode_says_they_are() {
    for c in '\0'..=char::MAX {
        assert_eq!(is_control(c), c.is_control(), "{c:?}");
    }
}

const TEXTS: [&str; 9] = [
    "",
    " ",
    "a",
    " a b ",
    "\t\u{a0}æ øå\u{3000}\n",
    "\r\n",
    "情報 ",
    " 🦀",
    "\u{200b} a \u{200b}",
];

#[test]
fn trimming_takes_white_space_off() {
    for text in TEXTS {
        assert_eq!(trim(text), text.trim());
        assert_eq!(trim_end(text), text.trim_end());
    }
    assert_eq!(trim("\u{2003}Migrate to\u{85}"), "Migrate to");
}

#[test]
fn trimming_twice_is_trimming_once() {
    for text in TEXTS {
        assert_eq!(trim(&trim(text)), trim(text));
    }
}

#[test]
fn joining_puts_the_separator_between() {
    let none: [String; 0] = [];
    assert_eq!(join(&none, ", "), "");
    assert_eq!(join(&["a".to_string()], ", "), "a");
    assert_eq!(join(&["a".to_string(), String::new(), "ø".to_string()], ", "), "a, , ø");
}

#[test]
fn splitting_keeps_empty_pieces() {
    for text in ["", "a", "\r", "a\rb", "\ra\r\rø\r"] {
        assert_eq!(split(text, '\r'), text.split('\r').collect::<Vec<_>>());
    }
}

#[test]
fn numerals_are_decimal() {
    for n in [0, 7, 10, 99, 100, 1_234_567_890, u64::MAX] {
        assert_eq!(decimal(n), n.to_string());
    }
    for n in [0, 1, -1, 127, -130, i32::MAX, i32::MIN] {
        assert_eq!(signed_decimal(n), n.to_string());
    }
}

#[test]
fn bytes_are_counted_up_to_a_character() {
    assert_eq!(byte("Møte", 0), 0);
    assert_eq!(byte("Møte", 1), 1);
    assert_eq!(byte("Møte", 2), 3);
    assert_eq!(byte("Møte", 4), 5);
    assert_eq!(byte("Møte", 9), 5);
    assert_eq!(byte("a情🦀", 3), 8);
}

#[test]
fn a_text_is_split_between_two_characters() {
    assert_eq!(split_behind("a情🦀", 0), ("", "a情🦀"));
    assert_eq!(split_behind("a情🦀", 2), ("a情", "🦀"));
    assert_eq!(split_behind("a情🦀", 3), ("a情🦀", ""));
}
