use cid::cmd::lines::{self, lines, record, shown, strip_ending, LineReader};
use cid::text::split;

#[test]
fn lines_are_reported_without_their_endings() {
    assert_eq!(lines(b"one\r\ntwo\n\nthree"), ["one", "two", "", "three"]);
}

#[test]
fn an_empty_stream_reports_nothing() {
    assert!(lines(b"").is_empty());
}

#[test]
fn invalid_utf8_stays_readable() {
    assert_eq!(lines(&[0xff, b'a', b'\n']), ["\u{fffd}a"]);
}

#[test]
fn lines_are_the_same_in_whatever_pieces_they_come() {
    let source = "én\r\ntwo\n\n情報\rthree".as_bytes();
    let whole = lines(source);
    assert_eq!(whole, ["én", "two", "", "情報\rthree"]);
    for first in 0..=source.len() {
        for second in first..=source.len() {
            let mut reader = LineReader::new();
            let mut pieces = reader.push(&source[..first]);
            pieces.extend(reader.push(&source[first..second]));
            pieces.extend(reader.push(&source[second..]));
            pieces.extend(reader.finish());
            assert_eq!(pieces, whole);
        }
    }
}

#[test]
fn a_reader_with_nothing_pending_has_no_last_line() {
    let mut reader = LineReader::new();
    assert_eq!(reader.push(b"one\n"), ["one"]);
    assert_eq!(reader.finish(), None);
}

#[test]
fn endings_are_stripped_whole_and_nothing_else_is() {
    assert_eq!(strip_ending("a\r\r\n"), "a");
    assert_eq!(strip_ending("\r\na \n"), "\r\na ");
    assert_eq!(lines::line(b"\n"), "");
    assert_eq!(lines::line(b"10%\r50%\r\n"), "10%\r50%");
    assert_eq!(lines::line(&[0xe6, 0x83, b'x']), "\u{fffd}x");
}

#[test]
fn output_is_kept_line_by_line() {
    let mut output = String::new();
    record(&mut output, "one");
    record(&mut output, "");
    record(&mut output, "two");
    assert_eq!(output, "one\n\ntwo\n");
    assert_eq!(split(&output, '\n'), ["one", "", "two", ""]);
}

#[test]
fn output_is_shown_with_its_lines_joined_and_its_end_trimmed() {
    let cases: [(&[&str], &str); 6] = [
        (&[], ""),
        (&["one"], "one"),
        (&["one", "", "two"], "one\n\ntwo"),
        (&["  one ", "two \t", "", " "], "  one \ntwo"),
        (&["", "one"], "\none"),
        (&["", " "], ""),
    ];
    for (lines, expected) in cases {
        let mut output = String::new();
        for text in lines {
            record(&mut output, text);
        }
        assert_eq!(shown(&output), expected);
        assert_eq!(shown(&output), lines.join("\n").trim_end());
    }
}
