//! Telling the escape sequences in a line of output from what it says.

use vstd::prelude::*;

use crate::term::{parameters, styled};
use crate::text::{chars, lemma_digits};

verus! {

/// The character that every escape sequence starts with.
pub const ESC: char = '\x1b';

/// The character that can end an OSC sequence.
pub const BEL: char = '\x07';

/// Whether `c` is a final byte, which ends a CSI sequence.
pub open spec fn final_byte(c: char) -> bool {
    '\x40' <= c <= '\x7e'
}

/// How much of `text`, which follows `ESC [`, belongs to the CSI sequence: all
/// of it up to and with the first final byte.
pub open spec fn csi_length(text: Seq<char>) -> nat
    decreases text.len(),
{
    if text.len() == 0 {
        0
    } else if final_byte(text[0]) {
        1
    } else {
        1 + csi_length(text.drop_first())
    }
}

/// How much of `text`, which follows `ESC ]`, belongs to the OSC sequence: all
/// of it up to and with the first BEL or `ESC \`.
pub open spec fn osc_length(text: Seq<char>) -> nat
    decreases text.len(),
{
    if text.len() == 0 {
        0
    } else if text[0] == BEL {
        1
    } else if text[0] == ESC && text.len() > 1 && text[1] == '\\' {
        2
    } else {
        1 + osc_length(text.drop_first())
    }
}

/// How many characters the escape sequence that `text` starts with takes. What
/// is neither CSI nor OSC is taken for two characters long.
pub open spec fn sequence_length(text: Seq<char>) -> nat
    recommends
        text.len() > 0 && text[0] == ESC,
{
    if text.len() < 2 {
        text.len()
    } else if text[1] == '[' {
        2 + csi_length(text.skip(2))
    } else if text[1] == ']' {
        2 + osc_length(text.skip(2))
    } else {
        2
    }
}

/// An escape sequence takes at least one character and no more than there are.
proof fn lemma_sequence_length(text: Seq<char>)
    requires
        text.len() > 0,
    ensures
        0 < sequence_length(text) <= text.len(),
{
    if text.len() >= 2 {
        lemma_csi_length(text.skip(2));
        lemma_osc_length(text.skip(2));
    }
}

proof fn lemma_csi_length(text: Seq<char>)
    ensures
        csi_length(text) <= text.len(),
    decreases text.len(),
{
    if text.len() > 0 {
        lemma_csi_length(text.drop_first());
    }
}

proof fn lemma_osc_length(text: Seq<char>)
    ensures
        osc_length(text) <= text.len(),
    decreases text.len(),
{
    if text.len() > 0 {
        lemma_osc_length(text.drop_first());
    }
}

/// `text` without its escape sequences.
pub open spec fn stripped(text: Seq<char>) -> Seq<char>
    decreases text.len(),
    via stripped_decreases
{
    if text.len() == 0 {
        Seq::empty()
    } else if text[0] != ESC {
        seq![text[0]] + stripped(text.drop_first())
    } else {
        stripped(text.skip(sequence_length(text) as int))
    }
}

#[via_fn]
proof fn stripped_decreases(text: Seq<char>) {
    if text.len() > 0 {
        lemma_sequence_length(text);
    }
}

/// Where the CSI sequence that `from` follows the start of ends.
fn csi_end(all: &Vec<char>, from: usize) -> (end: usize)
    requires
        from <= all@.len(),
    ensures
        end == from + csi_length(all@.skip(from as int)),
        end <= all@.len(),
{
    let mut i: usize = from;
    while i < all.len()
        invariant
            from <= i <= all@.len(),
            from + csi_length(all@.skip(from as int)) == i + csi_length(all@.skip(i as int)),
        decreases all.len() - i,
    {
        let c = all[i];
        assert(all@.skip(i as int).drop_first() =~= all@.skip(i + 1));
        i += 1;
        if '\x40' <= c && c <= '\x7e' {
            return i;
        }
    }
    i
}

/// Where the OSC sequence that `from` follows the start of ends.
fn osc_end(all: &Vec<char>, from: usize) -> (end: usize)
    requires
        from <= all@.len(),
    ensures
        end == from + osc_length(all@.skip(from as int)),
        end <= all@.len(),
{
    let mut i: usize = from;
    while i < all.len()
        invariant
            from <= i <= all@.len(),
            from + osc_length(all@.skip(from as int)) == i + osc_length(all@.skip(i as int)),
        decreases all.len() - i,
    {
        let c = all[i];
        assert(all@.skip(i as int).drop_first() =~= all@.skip(i + 1));
        i += 1;
        if c == BEL {
            return i;
        }
        if c == ESC && i < all.len() && all[i] == '\\' {
            return i + 1;
        }
    }
    i
}

/// `text` without its ANSI escape sequences: CSI (`ESC [` … final byte) and
/// OSC (`ESC ]` … BEL or `ESC \`). Of anything else the escape character and
/// the one behind it are dropped, and what is left of it may be control
/// characters, which [`crate::term::one_row`] drops.
pub fn strip_escapes(text: &str) -> (out: String)
    ensures
        out@ == stripped(text@),
{
    let all = chars(text);
    let mut out = String::new();
    let mut i: usize = 0;
    assert(all@.skip(0) =~= all@);
    while i < all.len()
        invariant
            i <= all@.len(),
            all@ == text@,
            stripped(text@) == out@ + stripped(all@.skip(i as int)),
        decreases all.len() - i,
    {
        let ghost rest = all@.skip(i as int);
        proof {
            lemma_sequence_length(rest);
        }
        if all[i] != ESC {
            let ghost before = out@;
            out.push(all[i]);
            i += 1;
            assert(rest.drop_first() =~= all@.skip(i as int));
            assert(before + (seq![rest[0]] + stripped(rest.drop_first())) =~= out@ + stripped(
                all@.skip(i as int),
            ));
        } else {
            let ghost start = i as int;
            if i + 1 >= all.len() {
                i += 1;
            } else {
                let kind = all[i + 1];
                i += 2;
                assert(rest.skip(2) =~= all@.skip(i as int));
                if kind == '[' {
                    i = csi_end(&all, i);
                } else if kind == ']' {
                    i = osc_end(&all, i);
                }
            }
            assert(i == start + sequence_length(rest));
            assert(rest.skip(sequence_length(rest) as int) =~= all@.skip(i as int));
        }
    }
    assert(out@ + stripped(all@.skip(i as int)) =~= out@);
    out
}

/// Whether `text` holds no escape character.
pub open spec fn plain(text: Seq<char>) -> bool {
    forall|i: int| 0 <= i < text.len() ==> #[trigger] text[i] != ESC
}

/// Stripping leaves no escape character, changes nothing of a text that has
/// none, and so is done when it is done once.
pub proof fn stripping_leaves_plain_text(text: Seq<char>)
    ensures
        plain(stripped(text)),
        plain(text) ==> stripped(text) == text,
        stripped(stripped(text)) == stripped(text),
{
    lemma_stripped_is_plain(text);
    lemma_stripped_of_plain(text);
    lemma_stripped_of_plain(stripped(text));
}

proof fn lemma_stripped_is_plain(text: Seq<char>)
    ensures
        plain(stripped(text)),
    decreases text.len(),
{
    if text.len() > 0 {
        if text[0] != ESC {
            lemma_stripped_is_plain(text.drop_first());
        } else {
            lemma_sequence_length(text);
            lemma_stripped_is_plain(text.skip(sequence_length(text) as int));
        }
    }
}

proof fn lemma_stripped_of_plain(text: Seq<char>)
    ensures
        plain(text) ==> stripped(text) == text,
{
    if plain(text) {
        lemma_strips_plain(text);
        assert(text + Seq::empty() =~= text);
        assert(stripped(text + Seq::empty()) == text + stripped(Seq::empty()));
        assert(text + stripped(Seq::empty()) =~= text);
    }
}

/// Whether what is left of `text` by stripping is `said`, whatever follows it.
pub open spec fn strips_to(text: Seq<char>, said: Seq<char>) -> bool {
    forall|rest: Seq<char>| #[trigger] stripped(text + rest) == said + stripped(rest)
}

/// A text that strips to something does so at the end of a line too.
pub(crate) proof fn lemma_strips_alone(text: Seq<char>, said: Seq<char>)
    requires
        strips_to(text, said),
    ensures
        stripped(text) == said,
{
    assert(text + Seq::empty() =~= text);
    assert(stripped(text + Seq::empty()) == said + stripped(Seq::empty()));
    assert(said + stripped(Seq::empty()) =~= said);
}

/// Two texts in a row strip to what each of them does.
pub(crate) proof fn lemma_strips_in_a_row(
    text: Seq<char>,
    said: Seq<char>,
    next: Seq<char>,
    next_said: Seq<char>,
)
    requires
        strips_to(text, said),
        strips_to(next, next_said),
    ensures
        strips_to(text + next, said + next_said),
{
    assert forall|rest: Seq<char>| #[trigger]
        stripped((text + next) + rest) == (said + next_said) + stripped(rest) by {
        assert((text + next) + rest =~= text + (next + rest));
        assert(stripped(text + (next + rest)) == said + stripped(next + rest));
        assert(said + (next_said + stripped(rest)) =~= (said + next_said) + stripped(rest));
    }
}

/// Text without an escape character strips to itself.
pub(crate) proof fn lemma_strips_plain(text: Seq<char>)
    requires
        plain(text),
    ensures
        strips_to(text, text),
    decreases text.len(),
{
    if text.len() == 0 {
        assert forall|rest: Seq<char>| #[trigger] stripped(text + rest) == text + stripped(
            rest,
        ) by {
            assert(text + rest =~= rest);
            assert(text + stripped(rest) =~= stripped(rest));
        }
    } else {
        let tail = text.drop_first();
        lemma_strips_plain(tail);
        assert forall|rest: Seq<char>| #[trigger] stripped(text + rest) == text + stripped(
            rest,
        ) by {
            assert((text + rest).drop_first() =~= tail + rest);
            assert(stripped(tail + rest) == tail + stripped(rest));
            assert(seq![text[0]] + (tail + stripped(rest)) =~= text + stripped(rest));
        }
    }
}

/// A CSI sequence strips to nothing.
proof fn lemma_strips_csi(parameters: Seq<char>)
    requires
        forall|i: int| 0 <= i < parameters.len() ==> !final_byte(#[trigger] parameters[i]),
    ensures
        strips_to("\x1b["@ + parameters + "m"@, Seq::empty()),
{
    reveal_strlit("\x1b[");
    reveal_strlit("m");
    let text = "\x1b["@ + parameters + "m"@;
    assert forall|rest: Seq<char>| #[trigger] stripped(text + rest) == Seq::<char>::empty()
        + stripped(rest) by {
        let all = text + rest;
        lemma_csi_behind(parameters, rest);
        assert(all.skip(2) =~= parameters + ("m"@ + rest));
        assert(sequence_length(all) == text.len());
        assert(all.skip(text.len() as int) =~= rest);
        assert(Seq::<char>::empty() + stripped(rest) =~= stripped(rest));
    }
}

proof fn lemma_csi_behind(parameters: Seq<char>, rest: Seq<char>)
    requires
        forall|i: int| 0 <= i < parameters.len() ==> !final_byte(#[trigger] parameters[i]),
    ensures
        csi_length(parameters + ("m"@ + rest)) == parameters.len() + 1,
    decreases parameters.len(),
{
    reveal_strlit("m");
    let all = parameters + ("m"@ + rest);
    if parameters.len() > 0 {
        lemma_csi_behind(parameters.drop_first(), rest);
        assert(all.drop_first() =~= parameters.drop_first() + ("m"@ + rest));
    }
}

/// Colour and weight change nothing of what a text says: stripped of escape
/// sequences, styled text is the text.
#[verifier::rlimit(40)]
pub proof fn style_strips_away(text: Seq<char>, code: Option<u8>, bold: bool, color: bool)
    requires
        plain(text),
    ensures
        strips_to(styled(text, code, bold, color), text),
        stripped(styled(text, code, bold, color)) == text,
{
    lemma_strips_plain(text);
    if color && (code is Some || bold) {
        reveal_strlit("1;38;5;");
        reveal_strlit("38;5;");
        reveal_strlit("1");
        reveal_strlit("0");
        reveal_strlit("\x1b[0m");
        reveal_strlit("\x1b[");
        reveal_strlit("m");
        if let Some(code) = code {
            lemma_digits(code as nat);
        }
        let set = "\x1b["@ + parameters(code, bold) + "m"@;
        let reset = "\x1b["@ + "0"@ + "m"@;
        lemma_strips_csi(parameters(code, bold));
        lemma_strips_csi("0"@);
        assert(reset =~= "\x1b[0m"@);
        lemma_strips_in_a_row(set, Seq::empty(), text, text);
        lemma_strips_in_a_row(set + text, Seq::empty() + text, reset, Seq::empty());
        assert((Seq::<char>::empty() + text) + Seq::<char>::empty() =~= text);
    }
    lemma_strips_alone(styled(text, code, bold, color), text);
}

/// A CSI sequence ends at its first byte from `@` to `~`, whichever it is, and
/// where there is none, it takes all that is left.
pub proof fn a_csi_sequence_ends_at_its_final_byte(parameters: Seq<char>, c: char, rest: Seq<char>)
    requires
        forall|i: int|
            0 <= i < parameters.len() ==> !('\x40' <= #[trigger] parameters[i] <= '\x7e'),
        '\x40' <= c <= '\x7e',
    ensures
        stripped("\x1b["@ + parameters + seq![c] + rest) == stripped(rest),
        stripped("\x1b["@ + parameters).len() == 0,
{
    reveal_strlit("\x1b[");
    let text = "\x1b["@ + parameters + seq![c];
    let all = text + rest;
    lemma_csi_ends(parameters, seq![c] + rest);
    lemma_csi_ends(parameters, Seq::empty());
    assert(all.skip(2) =~= parameters + (seq![c] + rest));
    assert(sequence_length(all) == text.len());
    assert(all.skip(text.len() as int) =~= rest);
    let unended = "\x1b["@ + parameters;
    assert(unended.skip(2) =~= parameters + Seq::empty());
    assert(sequence_length(unended) == unended.len());
    assert(unended.skip(unended.len() as int) =~= Seq::empty());
    assert(stripped(Seq::empty()).len() == 0);
}

proof fn lemma_csi_ends(parameters: Seq<char>, rest: Seq<char>)
    requires
        forall|i: int|
            0 <= i < parameters.len() ==> !('\x40' <= #[trigger] parameters[i] <= '\x7e'),
        rest.len() == 0 || '\x40' <= rest[0] <= '\x7e',
    ensures
        csi_length(parameters + rest) == parameters.len() + (if rest.len() == 0 {
            0nat
        } else {
            1
        }),
    decreases parameters.len(),
{
    let all = parameters + rest;
    if parameters.len() > 0 {
        lemma_csi_ends(parameters.drop_first(), rest);
        assert(all.drop_first() =~= parameters.drop_first() + rest);
    }
}

/// Whether `text` holds neither BEL nor an escape character with a backslash
/// behind it.
pub open spec fn unterminated(text: Seq<char>) -> bool {
    &&& forall|i: int| 0 <= i < text.len() ==> #[trigger] text[i] != '\x07'
    &&& forall|i: int|
        0 <= i < text.len() - 1 && #[trigger] text[i] == '\x1b' ==> text[i + 1] != '\\'
}

/// An OSC sequence ends at its first BEL or `ESC \`, and where there is neither,
/// it takes all that is left.
pub proof fn an_osc_sequence_ends_at_its_terminator(title: Seq<char>, rest: Seq<char>)
    requires
        unterminated(title),
    ensures
        stripped("\x1b]"@ + title + "\x07"@ + rest) == stripped(rest),
        stripped("\x1b]"@ + title + "\x1b\\"@ + rest) == stripped(rest),
        stripped("\x1b]"@ + title).len() == 0,
{
    reveal_strlit("\x1b]");
    reveal_strlit("\x07");
    reveal_strlit("\x1b\\");
    let start = "\x1b]"@ + title;
    lemma_osc_ends(title, "\x07"@ + rest);
    lemma_osc_ends(title, "\x1b\\"@ + rest);
    lemma_osc_ends(title, Seq::empty());
    let bel = start + "\x07"@ + rest;
    assert(bel.skip(2) =~= title + ("\x07"@ + rest));
    assert(bel.skip(start.len() as int + 1) =~= rest);
    assert(sequence_length(bel) == start.len() + 1);
    let st = start + "\x1b\\"@ + rest;
    assert(st.skip(2) =~= title + ("\x1b\\"@ + rest));
    assert(st.skip(start.len() as int + 2) =~= rest);
    assert(sequence_length(st) == start.len() + 2);
    assert(start.skip(2) =~= title + Seq::empty());
    assert(sequence_length(start) == start.len());
    assert(start.skip(start.len() as int) =~= Seq::empty());
    assert(stripped(Seq::empty()).len() == 0);
}

proof fn lemma_osc_ends(title: Seq<char>, rest: Seq<char>)
    requires
        unterminated(title),
        rest.len() == 0 || rest[0] == '\x07' || rest[0] == '\x1b' && rest.len() > 1 && rest[1]
            == '\\',
    ensures
        osc_length(title + rest) == title.len() + (if rest.len() == 0 {
            0nat
        } else if rest[0] == '\x07' {
            1
        } else {
            2
        }),
    decreases title.len(),
{
    let all = title + rest;
    if title.len() > 0 {
        let tail = title.drop_first();
        assert forall|i: int|
            0 <= i < tail.len() - 1 && #[trigger] tail[i] == '\x1b' implies tail[i + 1] != '\\' by {
            assert(title[i + 1] == '\x1b');
        }
        lemma_osc_ends(tail, rest);
        assert(all.drop_first() =~= tail + rest);
        assert(title[0] != '\x07');
        if title[0] == '\x1b' && all.len() > 1 {
            if title.len() > 1 {
                assert(all[1] == title[1]);
            } else {
                assert(all[1] == rest[0]);
            }
        }
    }
}

/// Of an escape character that starts neither CSI nor OSC, it and the character
/// behind it are dropped; text without an escape character stays, whatever
/// follows it.
pub proof fn other_escapes_take_two_characters(text: Seq<char>, c: char, rest: Seq<char>)
    requires
        forall|i: int| 0 <= i < text.len() ==> #[trigger] text[i] != '\x1b',
        c != '[' && c != ']',
    ensures
        stripped("\x1b"@ + seq![c] + rest) == stripped(rest),
        stripped("\x1b"@).len() == 0,
        stripped(text + rest) == text + stripped(rest),
        stripped(text) == text,
{
    reveal_strlit("\x1b");
    let all = "\x1b"@ + seq![c] + rest;
    assert(all.skip(2) =~= rest);
    assert("\x1b"@.skip(1) =~= Seq::empty());
    assert(stripped(Seq::empty()).len() == 0);
    lemma_strips_plain(text);
    lemma_strips_alone(text, text);
}

} // verus!
