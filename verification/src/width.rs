//! How many terminal cells text takes, which is `unicode-width`'s to say: a
//! character may take none, one or two, and some sequences of characters take
//! another number of cells than the characters do one by one.

use vstd::prelude::*;

use crate::text::{control, spaces};

verus! {

/// The cells of `text` as a whole: what `UnicodeWidthStr::width` returns.
pub uninterp spec fn str_cells(text: Seq<char>) -> nat;

/// The cells of one character: what `UnicodeWidthChar::width` returns.
pub uninterp spec fn char_cells(c: char) -> Option<usize>;

/// The cells of one character, a control character counting for none.
pub open spec fn own_cells(c: char) -> usize {
    match char_cells(c) {
        Some(cells) => cells,
        None => 0,
    }
}

/// The cells of each character of `text`.
pub open spec fn each_cells(text: Seq<char>) -> Seq<usize> {
    text.map_values(|c: char| own_cells(c))
}

/// The sum of `cells`.
pub open spec fn total(cells: Seq<usize>) -> nat
    decreases cells.len(),
{
    if cells.len() == 0 {
        0
    } else {
        total(cells.drop_last()) + cells.last() as nat
    }
}

/// Whether every character of `text` is one of ASCII's printable ones, or one of
/// the two signs `…` and `›`.
pub open spec fn narrow(text: Seq<char>) -> bool {
    forall|i: int|
        0 <= i < text.len() ==> ' ' <= #[trigger] text[i] <= '~' || text[i] == '…' || text[i]
            == '›'
}

/// Whether the cells of `text` and of what stands before it add up, wherever
/// there is a space between the two, and so do those of spaces behind it.
pub open spec fn adds_up(text: Seq<char>) -> bool {
    forall|before: Seq<char>, n: nat, m: nat|
        n > 0 ==> #[trigger] str_cells(before + spaces(n) + text + spaces(m)) == str_cells(before)
            + n + str_cells(text) + m
}

/// `UnicodeWidthStr::width`, and what of its rules is used here. The characters
/// are read from the last to the first, and a space takes one cell and forgets
/// what was read, so the cells on its two sides add up. Printable ASCII takes a
/// cell for each character, and so do `…`, which is of the Ambiguous category and
/// taken as narrow, and `›`, which is narrow.
#[verifier::external_body]
pub(crate) fn str_width(text: &str) -> (width: usize)
    ensures
        width == str_cells(text@),
        forall|n: nat| #[trigger] str_cells(spaces(n) + text@) == n + width,
        forall|before: Seq<char>, n: nat, m: nat|
            n > 0 ==> #[trigger] str_cells(before + spaces(n) + text@ + spaces(m)) == str_cells(
                before,
            ) + n + width + m,
        narrow(text@) ==> width == text@.len(),
{
    unicode_width::UnicodeWidthStr::width(text)
}

/// `UnicodeWidthChar::width`: nothing for a control character, and one cell for
/// a printable ASCII character.
#[verifier::external_body]
pub(crate) fn char_width(c: char) -> (width: Option<usize>)
    ensures
        width == char_cells(c),
        width is None <==> control(c),
        ' ' <= c <= '~' ==> width == Some(1usize),
{
    unicode_width::UnicodeWidthChar::width(c)
}

/// The sum of `cells` with one more before them.
pub(crate) proof fn lemma_total_from_front(cells: Seq<usize>)
    requires
        cells.len() > 0,
    ensures
        total(cells) == cells[0] + total(cells.drop_first()),
    decreases cells.len(),
{
    if cells.len() > 1 {
        lemma_total_from_front(cells.drop_last());
        assert(cells.drop_last().drop_first() =~= cells.drop_first().drop_last());
    } else {
        assert(cells.drop_last() =~= Seq::empty());
        assert(cells.drop_first() =~= Seq::empty());
    }
}

/// Each character of a text counts for what it takes alone, a control character
/// for nothing, and the cells of two lists add up.
pub proof fn cells_are_counted_one_by_one(
    text: Seq<char>,
    i: int,
    cells: Seq<usize>,
    more: Seq<usize>,
    one: usize,
)
    requires
        0 <= i < text.len(),
    ensures
        each_cells(text).len() == text.len(),
        char_cells(text[i]) is Some ==> each_cells(text)[i] == char_cells(text[i])->0,
        char_cells(text[i]) is None ==> each_cells(text)[i] == 0,
        total(cells + more) == total(cells) + total(more),
        total(seq![one]) == one,
        total(Seq::empty()) == 0,
    decreases more.len(),
{
    if more.len() == 0 {
        assert(cells + more =~= cells);
    } else {
        cells_are_counted_one_by_one(text, i, cells, more.drop_last(), one);
        assert((cells + more).drop_last() =~= cells + more.drop_last());
    }
    assert(seq![one].drop_last() =~= Seq::empty());
    assert(total(Seq::empty()) == 0);
}

} // verus!
