//! Colour and weight on a terminal, and text reduced to what one row can show.

use vstd::prelude::*;

use crate::text::{chars, control, decimal, digits, is_control};

verus! {

/// The palette colour of what a row says beside the thing it names.
pub const SECONDARY: u8 = 8;

/// The parameters of the escape sequence that sets a palette colour, bold
/// weight, or both.
pub open spec fn parameters(code: Option<u8>, bold: bool) -> Seq<char> {
    match code {
        Some(code) => (if bold {
            "1;38;5;"@
        } else {
            "38;5;"@
        }) + digits(code as nat),
        None => "1"@,
    }
}

/// `text` in the given colour and weight, reset behind it; as it is when there
/// is neither to set, or no colour is wanted at all.
pub open spec fn styled(text: Seq<char>, code: Option<u8>, bold: bool, color: bool) -> Seq<char> {
    if color && (code is Some || bold) {
        "\x1b["@ + parameters(code, bold) + "m"@ + text + "\x1b[0m"@
    } else {
        text
    }
}

/// `text` in a palette colour.
pub open spec fn painted(text: Seq<char>, code: u8, color: bool) -> Seq<char> {
    styled(text, Some(code), false, color)
}

/// `text` in the given colour and weight, reset behind it; as it is when there
/// is neither to set, or no colour is wanted at all.
pub fn style(text: &str, code: Option<u8>, bold: bool, color: bool) -> (out: String)
    ensures
        out@ == styled(text@, code, bold, color),
{
    if !color || (code.is_none() && !bold) {
        return text.to_string();
    }
    let mut out = "\x1b[".to_string();
    match code {
        Some(code) => {
            if bold {
                out.append("1;38;5;");
            } else {
                out.append("38;5;");
            }
            out.append(decimal(code as u64).as_str());
        },
        None => {
            out.append("1");
        },
    }
    out.append("m");
    out.append(text);
    out.append("\x1b[0m");
    assert(out@ =~= styled(text@, code, bold, color));
    out
}

/// `text` in a palette colour.
pub fn paint(text: &str, code: u8, color: bool) -> (out: String)
    ensures
        out@ == painted(text@, code, color),
{
    style(text, Some(code), false, color)
}

/// `text` in bold.
pub fn bold(text: &str, color: bool) -> (out: String)
    ensures
        out@ == styled(text@, None, true, color),
{
    style(text, None, true, color)
}

/// `text` without its control characters, any of which could move a terminal's
/// cursor off the row.
pub open spec fn on_one_row(text: Seq<char>) -> Seq<char> {
    text.filter(|c: char| !control(c))
}

/// `text` without its control characters, any of which could move a terminal's
/// cursor off the row.
pub fn one_row(text: &str) -> (out: String)
    ensures
        out@ == on_one_row(text@),
{
    let all = chars(text);
    let mut out = String::new();
    let mut i: usize = 0;
    assert(text@.take(0) =~= Seq::empty());
    while i < all.len()
        invariant
            i <= all.len(),
            all@ == text@,
            out@ == on_one_row(text@.take(i as int)),
        decreases all.len() - i,
    {
        reveal(Seq::filter);
        assert(text@.take(i + 1).drop_last() =~= text@.take(i as int));
        if !is_control(all[i]) {
            out.push(all[i]);
        }
        i += 1;
    }
    assert(text@.take(i as int) =~= text@);
    out
}

/// A row keeps every character that is no control character, in order, and no
/// other: the row of two texts is that of the one and then that of the other,
/// and each character alone stays or goes.
pub proof fn a_row_loses_control_characters_alone(text: Seq<char>, next: Seq<char>, c: char)
    ensures
        on_one_row(text + next) == on_one_row(text) + on_one_row(next),
        on_one_row(seq![c]) == (if c <= '\u{1f}' || '\u{7f}' <= c <= '\u{9f}' {
            Seq::empty()
        } else {
            seq![c]
        }),
        on_one_row(Seq::empty()).len() == 0,
{
    let keep = |c: char| !control(c);
    Seq::filter_distributes_over_add(text, next, keep);
    reveal(Seq::filter);
    assert(seq![c].drop_last() =~= Seq::empty());
    assert(Seq::<char>::empty().filter(keep) =~= Seq::empty());
    assert(on_one_row(seq![c]) =~= (if control(c) {
        Seq::empty()
    } else {
        seq![c]
    }));
}

/// Styled text is the text between the sequence that sets the style and the one
/// that resets it, and as it is where no colour is wanted or there is nothing to
/// set.
pub proof fn a_style_is_set_and_reset(text: Seq<char>, code: u8, bold: bool)
    ensures
        styled(text, Some(code), false, true) == "\x1b[38;5;"@ + digits(code as nat) + "m"@ + text
            + "\x1b[0m"@,
        styled(text, Some(code), true, true) == "\x1b[1;38;5;"@ + digits(code as nat) + "m"@ + text
            + "\x1b[0m"@,
        styled(text, None, true, true) == "\x1b[1m"@ + text + "\x1b[0m"@,
        styled(text, None, false, true) == text,
        styled(text, Some(code), bold, false) == text,
        styled(text, None, bold, false) == text,
        painted(text, code, true) == styled(text, Some(code), false, true),
        painted(text, code, false) == text,
{
    reveal_strlit("\x1b[");
    reveal_strlit("\x1b[38;5;");
    reveal_strlit("\x1b[1;38;5;");
    reveal_strlit("\x1b[1m");
    reveal_strlit("38;5;");
    reveal_strlit("1;38;5;");
    reveal_strlit("1");
    reveal_strlit("m");
    let number = digits(code as nat);
    assert(styled(text, Some(code), false, true) =~= "\x1b[38;5;"@ + number + "m"@ + text
        + "\x1b[0m"@);
    assert(styled(text, Some(code), true, true) =~= "\x1b[1;38;5;"@ + number + "m"@ + text
        + "\x1b[0m"@);
    assert(styled(text, None, true, true) =~= "\x1b[1m"@ + text + "\x1b[0m"@);
}

} // verus!
