//! Text, character by character: counting, padding, trimming, joining and the
//! decimal numerals of the integers that reports are full of.

use vstd::prelude::*;

verus! {

/// `String::push`: the character stands behind what the string held.
pub assume_specification[ String::push ](s: &mut String, c: char)
    ensures
        final(s)@ == old(s)@.push(c),
;

/// Counts with `Chars::count`. No text is longer than `isize::MAX` bytes, which
/// is the size no Rust allocation exceeds, and each character takes at least
/// one of them.
#[verifier::external_body]
pub(crate) fn char_count(text: &str) -> (count: usize)
    ensures
        count == text@.len(),
        count <= isize::MAX,
{
    text.chars().count()
}

/// The contents of a list of strings.
pub open spec fn texts(strings: Seq<String>) -> Seq<Seq<char>> {
    strings.map_values(|s: String| s@)
}

/// The contents of a list of string slices.
pub open spec fn views(strs: Seq<&str>) -> Seq<Seq<char>> {
    strs.map_values(|s: &str| s@)
}

/// The number of characters of each of `texts`.
pub open spec fn lengths(texts: Seq<Seq<char>>) -> Seq<nat> {
    texts.map_values(|text: Seq<char>| text.len())
}

/// The characters of `text`, one by one.
pub(crate) fn chars(text: &str) -> (out: Vec<char>)
    ensures
        out@ == text@,
{
    let mut out: Vec<char> = Vec::new();
    for c in it: text.chars()
        invariant
            it.seq() == text@,
            out@ == text@.take(it.index()),
    {
        out.push(c);
    }
    out
}

/// `n` spaces.
pub open spec fn spaces(n: nat) -> Seq<char> {
    Seq::new(n, |i: int| ' ')
}

/// `text` with spaces behind it up to `width` characters, or as it is when it
/// is that long already.
pub open spec fn padded(text: Seq<char>, width: int) -> Seq<char> {
    text + spaces(short_of(text, width))
}

/// How many characters `text` lacks of `width`.
pub open spec fn short_of(text: Seq<char>, width: int) -> nat {
    if width > text.len() {
        (width - text.len()) as nat
    } else {
        0
    }
}

/// Append `n` spaces to `out`.
pub(crate) fn push_spaces(out: &mut String, n: usize)
    ensures
        final(out)@ == old(out)@ + spaces(n as nat),
{
    let mut i: usize = 0;
    while i < n
        invariant
            i <= n,
            out@ == old(out)@ + spaces(i as nat),
        decreases n - i,
    {
        out.push(' ');
        i += 1;
        assert(out@ =~= old(out)@ + spaces(i as nat));
    }
}

/// Whether `c` has Unicode's `White_Space` property.
pub open spec fn white_space(c: char) -> bool {
    ||| '\u{9}' <= c <= '\u{d}'
    ||| c == ' '
    ||| c == '\u{85}'
    ||| c == '\u{a0}'
    ||| c == '\u{1680}'
    ||| '\u{2000}' <= c <= '\u{200a}'
    ||| '\u{2028}' <= c <= '\u{2029}'
    ||| c == '\u{202f}'
    ||| c == '\u{205f}'
    ||| c == '\u{3000}'
}

/// Whether `c` has Unicode's `White_Space` property.
pub fn is_white_space(c: char) -> (holds: bool)
    ensures
        holds == white_space(c),
{
    ('\u{9}' <= c && c <= '\u{d}') || c == ' ' || c == '\u{85}' || c == '\u{a0}' || c == '\u{1680}'
        || ('\u{2000}' <= c && c <= '\u{200a}') || ('\u{2028}' <= c && c <= '\u{2029}') || c
        == '\u{202f}' || c == '\u{205f}' || c == '\u{3000}'
}

/// Whether `c` is a control character, of Unicode's general category `Cc`.
pub open spec fn control(c: char) -> bool {
    c <= '\u{1f}' || '\u{7f}' <= c <= '\u{9f}'
}

/// Whether `c` is a control character, of Unicode's general category `Cc`.
pub fn is_control(c: char) -> (holds: bool)
    ensures
        holds == control(c),
{
    c <= '\u{1f}' || ('\u{7f}' <= c && c <= '\u{9f}')
}

/// `text` without the white space it ends in.
pub open spec fn end_trimmed(text: Seq<char>) -> Seq<char>
    decreases text.len(),
{
    if text.len() > 0 && white_space(text.last()) {
        end_trimmed(text.drop_last())
    } else {
        text
    }
}

/// `text` without the white space it starts with.
pub open spec fn start_trimmed(text: Seq<char>) -> Seq<char>
    decreases text.len(),
{
    if text.len() > 0 && white_space(text.first()) {
        start_trimmed(text.drop_first())
    } else {
        text
    }
}

/// `text` without the white space around it.
pub open spec fn trimmed(text: Seq<char>) -> Seq<char> {
    start_trimmed(end_trimmed(text))
}

/// `text` without the white space it ends in.
pub fn trim_end(text: &str) -> (out: String)
    ensures
        out@ == end_trimmed(text@),
{
    let all = chars(text);
    let mut end: usize = all.len();
    assert(text@.take(end as int) =~= text@);
    while end > 0 && is_white_space(all[end - 1])
        invariant
            end <= all.len(),
            all@ == text@,
            end_trimmed(text@) == end_trimmed(text@.take(end as int)),
        decreases end,
    {
        assert(text@.take(end as int).drop_last() =~= text@.take(end - 1));
        end -= 1;
    }
    assert(text@.take(end as int) =~= text@.subrange(0, end as int));
    text.substring_char(0, end).to_string()
}

/// `text` without the white space around it.
pub fn trim(text: &str) -> (out: String)
    ensures
        out@ == trimmed(text@),
{
    let ended = trim_end(text);
    let all = chars(ended.as_str());
    let mut start: usize = 0;
    assert(ended@.skip(0) =~= ended@);
    while start < all.len() && is_white_space(all[start])
        invariant
            start <= all.len(),
            all@ == ended@,
            start_trimmed(ended@) == start_trimmed(ended@.skip(start as int)),
        decreases all.len() - start,
    {
        assert(ended@.skip(start as int).drop_first() =~= ended@.skip(start + 1));
        start += 1;
    }
    assert(ended@.skip(start as int) =~= ended@.subrange(start as int, ended@.len() as int));
    ended.as_str().substring_char(start, all.len()).to_string()
}

/// Trimmed text neither starts nor ends with white space, and trimming it once
/// more changes nothing.
pub proof fn trimmed_has_no_outer_white_space(text: Seq<char>)
    ensures
        trimmed(text).len() > 0 ==> !white_space(trimmed(text).first()),
        trimmed(text).len() > 0 ==> !white_space(trimmed(text).last()),
        trimmed(trimmed(text)) == trimmed(text),
{
    lemma_end_trimmed(text);
    lemma_start_trimmed(end_trimmed(text));
}

/// `end_trimmed` leaves a prefix that white space does not end.
pub(crate) proof fn lemma_end_trimmed(text: Seq<char>)
    ensures
        end_trimmed(text).len() <= text.len(),
        end_trimmed(text) == text.take(end_trimmed(text).len() as int),
        end_trimmed(text).len() > 0 ==> !white_space(end_trimmed(text).last()),
    decreases text.len(),
{
    if text.len() > 0 && white_space(text.last()) {
        lemma_end_trimmed(text.drop_last());
        let kept = end_trimmed(text).len() as int;
        assert(text.drop_last().take(kept) =~= text.take(kept));
    } else {
        assert(text.take(text.len() as int) =~= text);
    }
}

/// `start_trimmed` leaves a suffix that white space does not start.
pub(crate) proof fn lemma_start_trimmed(text: Seq<char>)
    ensures
        start_trimmed(text).len() <= text.len(),
        start_trimmed(text) == text.skip(text.len() - start_trimmed(text).len()),
        start_trimmed(text).len() > 0 ==> !white_space(start_trimmed(text).first()),
    decreases text.len(),
{
    if text.len() > 0 && white_space(text.first()) {
        lemma_start_trimmed(text.drop_first());
        let kept = start_trimmed(text).len();
        assert(text.drop_first().skip(text.len() - 1 - kept) =~= text.skip(text.len() - kept));
    } else {
        assert(text.skip(0) =~= text);
    }
}

/// Trimming the end of a text stops at what is not white space.
pub(crate) proof fn lemma_end_trimmed_behind(text: Seq<char>, tail: Seq<char>)
    requires
        text.len() > 0,
        !white_space(text.last()),
    ensures
        end_trimmed(text + tail) == text + end_trimmed(tail),
    decreases tail.len(),
{
    let all = text + tail;
    if tail.len() == 0 {
        assert(all =~= text);
        assert(text + end_trimmed(tail) =~= text);
    } else if white_space(tail.last()) {
        lemma_end_trimmed_behind(text, tail.drop_last());
        assert(all.drop_last() =~= text + tail.drop_last());
    }
}

/// Trimming leaves nothing of a text exactly where it is all white space.
pub(crate) proof fn lemma_trimmed_of_blank(text: Seq<char>)
    ensures
        trimmed(text).len() == 0 <==> forall|i: int|
            0 <= i < text.len() ==> white_space(#[trigger] text[i]),
{
    lemma_end_trimmed(text);
    lemma_start_trimmed(end_trimmed(text));
    let ended = end_trimmed(text);
    if forall|i: int| 0 <= i < text.len() ==> white_space(#[trigger] text[i]) {
        if ended.len() > 0 {
            assert(white_space(text[ended.len() - 1]));
        }
    }
    if trimmed(text).len() == 0 {
        if ended.len() > 0 {
            lemma_start_trimmed_of_visible(ended);
        }
        lemma_end_trimmed_of_visible(text);
    }
}

proof fn lemma_start_trimmed_of_visible(text: Seq<char>)
    requires
        text.len() > 0,
        !white_space(text.last()),
    ensures
        start_trimmed(text).len() > 0,
    decreases text.len(),
{
    if white_space(text.first()) {
        lemma_start_trimmed_of_visible(text.drop_first());
    }
}

proof fn lemma_end_trimmed_of_visible(text: Seq<char>)
    ensures
        end_trimmed(text).len() == 0 ==> forall|i: int|
            0 <= i < text.len() ==> white_space(#[trigger] text[i]),
    decreases text.len(),
{
    if text.len() > 0 && white_space(text.last()) {
        lemma_end_trimmed_of_visible(text.drop_last());
        if end_trimmed(text).len() == 0 {
            assert forall|i: int| 0 <= i < text.len() implies white_space(#[trigger] text[i]) by {
                if i < text.len() - 1 {
                    assert(text[i] == text.drop_last()[i]);
                }
            }
        }
    }
}

/// The parts one after the other, with `separator` between every two.
pub open spec fn joined(parts: Seq<Seq<char>>, separator: Seq<char>) -> Seq<char>
    decreases parts.len(),
{
    if parts.len() == 0 {
        Seq::empty()
    } else if parts.len() == 1 {
        parts[0]
    } else {
        joined(parts.drop_last(), separator) + separator + parts.last()
    }
}

/// The parts one after the other, with `separator` between every two.
pub fn join(parts: &[String], separator: &str) -> (out: String)
    ensures
        out@ == joined(texts(parts@), separator@),
{
    let mut out = String::new();
    let mut i: usize = 0;
    let ghost all = texts(parts@);
    assert(all.take(0) =~= Seq::empty());
    while i < parts.len()
        invariant
            i <= parts@.len(),
            all == texts(parts@),
            out@ == joined(all.take(i as int), separator@),
        decreases parts.len() - i,
    {
        if i > 0 {
            out.append(separator);
        }
        out.append(parts[i].as_str());
        proof {
            let upto = all.take(i + 1);
            assert(upto.drop_last() =~= all.take(i as int));
            assert(upto.last() == parts@[i as int]@);
            if i == 0 {
                assert(out@ =~= upto[0]);
            }
        }
        i += 1;
    }
    assert(all.take(i as int) =~= all);
    out
}

/// The stretches of `text` between one `separator` and the next: one more than
/// it has separators.
pub open spec fn pieces(text: Seq<char>, separator: char) -> Seq<Seq<char>>
    decreases text.len(),
{
    if text.len() == 0 {
        seq![Seq::empty()]
    } else {
        let before = pieces(text.drop_last(), separator);
        if text.last() == separator {
            before.push(Seq::empty())
        } else {
            before.drop_last().push(before.last().push(text.last()))
        }
    }
}

/// The stretches of `text` between one `separator` and the next.
pub fn split(text: &str, separator: char) -> (out: Vec<String>)
    ensures
        texts(out@) == pieces(text@, separator),
        out@.len() > 0,
{
    let all = chars(text);
    let mut out: Vec<String> = Vec::new();
    let mut piece = String::new();
    let mut i: usize = 0;
    proof {
        assert(text@.take(0) =~= Seq::empty());
        assert(texts(out@).push(piece@) =~= pieces(text@.take(0), separator));
    }
    while i < all.len()
        invariant
            i <= all.len(),
            all@ == text@,
            texts(out@).push(piece@) == pieces(text@.take(i as int), separator),
        decreases all.len() - i,
    {
        let c = all[i];
        let ghost before = texts(out@).push(piece@);
        assert(text@.take(i + 1).drop_last() =~= text@.take(i as int));
        assert(before.drop_last() =~= texts(out@));
        if c == separator {
            out.push(piece);
            piece = String::new();
            assert(texts(out@) =~= before);
        } else {
            piece.push(c);
        }
        i += 1;
    }
    let ghost before = texts(out@).push(piece@);
    out.push(piece);
    assert(texts(out@) =~= before);
    assert(text@.take(i as int) =~= text@);
    out
}

/// The character of a decimal digit.
pub open spec fn digit(d: nat) -> char {
    (48 + d) as char
}

/// The decimal numeral of `n`.
pub open spec fn digits(n: nat) -> Seq<char>
    decreases n,
{
    if n < 10 {
        seq![digit(n)]
    } else {
        digits(n / 10).push(digit(n % 10))
    }
}

/// The decimal numeral of `n`, behind a minus sign when it is negative.
pub open spec fn signed_digits(n: int) -> Seq<char> {
    if n < 0 {
        "-"@ + digits((-n) as nat)
    } else {
        digits(n as nat)
    }
}

/// The decimal numeral of `n`.
pub fn decimal(n: u64) -> (out: String)
    ensures
        out@ == digits(n as nat),
    decreases n,
{
    let mut out = if n < 10 {
        String::new()
    } else {
        decimal(n / 10)
    };
    let last: u8 = 48 + (n % 10) as u8;
    out.push(last as char);
    assert(out@ =~= digits(n as nat));
    out
}

/// The decimal numeral of `n`, behind a minus sign when it is negative.
pub fn signed_decimal(n: i32) -> (out: String)
    ensures
        out@ == signed_digits(n as int),
{
    if n < 0 {
        let mut out = "-".to_string();
        let size: i64 = -(n as i64);
        out.append(decimal(size as u64).as_str());
        out
    } else {
        decimal(n as u64)
    }
}

/// A decimal numeral is made of the digits `0` to `9` alone.
pub(crate) proof fn lemma_digits(n: nat)
    ensures
        digits(n).len() > 0,
        forall|i: int| 0 <= i < digits(n).len() ==> '0' <= #[trigger] digits(n)[i] <= '9',
    decreases n,
{
    if n >= 10 {
        lemma_digits(n / 10);
    }
}

/// The number that a row of decimal digits stands for.
pub open spec fn value(digits: Seq<char>) -> nat
    decreases digits.len(),
{
    if digits.len() == 0 {
        0
    } else {
        value(digits.drop_last()) * 10 + (digits.last() as nat - '0' as nat) as nat
    }
}

/// A numeral reads back as the number it was made of, and has no digit more
/// than it needs.
pub proof fn a_numeral_reads_back(n: nat)
    ensures
        value(digits(n)) == n,
        digits(n).len() > 0,
        forall|i: int| 0 <= i < digits(n).len() ==> '0' <= #[trigger] digits(n)[i] <= '9',
        digits(n)[0] == '0' <==> n == 0,
        n == 0 ==> digits(n).len() == 1,
    decreases n,
{
    lemma_digits(n);
    if n >= 10 {
        a_numeral_reads_back(n / 10);
        assert(digits(n).drop_last() =~= digits(n / 10));
        assert(digits(n)[0] == digits(n / 10)[0]);
        assert(digits(n).last() as nat == 48 + n % 10);
    } else {
        assert(digits(n).drop_last() =~= Seq::empty());
        assert(digits(n).last() as nat == 48 + n);
        assert(value(Seq::empty()) == 0);
    }
}

/// No two numbers have the same numeral, and the numeral of a greater number is
/// no shorter.
pub proof fn numerals_tell_numbers_apart(n: nat, m: nat)
    ensures
        digits(n) == digits(m) ==> n == m,
        n <= m ==> digits(n).len() <= digits(m).len(),
    decreases m,
{
    a_numeral_reads_back(n);
    a_numeral_reads_back(m);
    if n <= m && n >= 10 {
        numerals_tell_numbers_apart(n / 10, m / 10);
    }
}

/// A signed numeral reads back as the number it was made of: behind a minus
/// sign where it is negative, and as it is where it is not.
pub proof fn a_signed_numeral_reads_back(n: int)
    ensures
        n >= 0 ==> value(signed_digits(n)) == n && signed_digits(n)[0] != '-',
        n < 0 ==> signed_digits(n)[0] == '-' && value(signed_digits(n).drop_first()) == -n,
{
    reveal_strlit("-");
    if n < 0 {
        a_numeral_reads_back((-n) as nat);
        assert(signed_digits(n).drop_first() =~= digits((-n) as nat));
    } else {
        a_numeral_reads_back(n as nat);
    }
}

/// Padding puts spaces behind a text and nothing else, as many as it lacks of
/// the width.
pub proof fn padding_adds_spaces_alone(text: Seq<char>, width: int)
    ensures
        padded(text, width).len() >= text.len(),
        padded(text, width).len() >= width,
        padded(text, width).len() == text.len() || padded(text, width).len() == width,
        padded(text, width).take(text.len() as int) == text,
        forall|i: int|
            text.len() <= i < padded(text, width).len() ==> #[trigger] padded(text, width)[i]
                == ' ',
{
    assert(padded(text, width).take(text.len() as int) =~= text);
}

/// Trimming takes white space off the two ends and nothing else: what is left
/// is a stretch of the text, with white space alone before and behind it, and
/// neither starts nor ends with any.
pub proof fn trimming_takes_white_space_alone(text: Seq<char>)
    ensures
        ({
            let end = end_trimmed(text).len() as int;
            let start = end - trimmed(text).len();
            &&& 0 <= start <= end <= text.len()
            &&& end_trimmed(text) == text.subrange(0, end)
            &&& trimmed(text) == text.subrange(start, end)
            &&& forall|i: int|
                end <= i < text.len() ==> white_space(#[trigger] text[i])
            &&& forall|i: int| 0 <= i < start ==> white_space(#[trigger] text[i])
            &&& end > 0 ==> !white_space(text[end - 1])
            &&& start < end ==> !white_space(text[start])
        }),
{
    let ended = end_trimmed(text);
    lemma_end_trimmed(text);
    lemma_start_trimmed(ended);
    lemma_trimmed_off_the_end(text);
    lemma_trimmed_off_the_start(ended);
    let end = ended.len() as int;
    let start = end - trimmed(text).len();
    assert(trimmed(text) =~= text.subrange(start, end));
    assert(ended =~= text.subrange(0, end));
    assert forall|i: int| 0 <= i < start implies white_space(#[trigger] text[i]) by {
        assert(ended[i] == text[i]);
    }
}

/// What trimming the end of a text takes off is white space.
proof fn lemma_trimmed_off_the_end(text: Seq<char>)
    ensures
        forall|i: int|
            end_trimmed(text).len() <= i < text.len() ==> white_space(#[trigger] text[i]),
    decreases text.len(),
{
    if text.len() > 0 && white_space(text.last()) {
        lemma_trimmed_off_the_end(text.drop_last());
        assert forall|i: int| end_trimmed(text).len() <= i < text.len() implies white_space(
            #[trigger] text[i],
        ) by {
            if i < text.len() - 1 {
                assert(text.drop_last()[i] == text[i]);
            }
        }
    }
}

/// What trimming the start of a text takes off is white space.
proof fn lemma_trimmed_off_the_start(text: Seq<char>)
    ensures
        forall|i: int|
            0 <= i < text.len() - start_trimmed(text).len() ==> white_space(#[trigger] text[i]),
    decreases text.len(),
{
    if text.len() > 0 && white_space(text.first()) {
        lemma_trimmed_off_the_start(text.drop_first());
        assert forall|i: int|
            0 <= i < text.len() - start_trimmed(text).len() implies white_space(
            #[trigger] text[i],
        ) by {
            if i > 0 {
                assert(text.drop_first()[i - 1] == text[i]);
            }
        }
    }
}

/// Joining puts one separator between every two parts and none elsewhere:
/// nothing is put before or behind a part alone, and two lists in a row are
/// each joined, with one separator between the two.
pub proof fn joining_separates_neighbours(
    head: Seq<Seq<char>>,
    tail: Seq<Seq<char>>,
    part: Seq<char>,
    separator: Seq<char>,
)
    ensures
        joined(Seq::empty(), separator).len() == 0,
        joined(seq![part], separator) == part,
        head.len() > 0 && tail.len() > 0 ==> joined(head + tail, separator) == joined(
            head,
            separator,
        ) + separator + joined(tail, separator),
    decreases tail.len(),
{
    if head.len() > 0 && tail.len() > 0 {
        let all = head + tail;
        assert(all.last() == tail.last());
        if tail.len() == 1 {
            assert(all.drop_last() =~= head);
        } else {
            assert(all.drop_last() =~= head + tail.drop_last());
            joining_separates_neighbours(head, tail.drop_last(), part, separator);
            assert(joined(all, separator) =~= joined(head, separator) + separator + joined(
                tail,
                separator,
            ));
        }
    }
}

/// Splitting a text takes it apart at its separators and nowhere else: no piece
/// holds one, and the pieces joined by it are the text.
pub proof fn pieces_are_what_separators_part(text: Seq<char>, separator: char)
    ensures
        pieces(text, separator).len() > 0,
        joined(pieces(text, separator), seq![separator]) == text,
        forall|i: int|
            0 <= i < pieces(text, separator).len() ==> !(#[trigger] pieces(
                text,
                separator,
            )[i]).contains(separator),
    decreases text.len(),
{
    let all = pieces(text, separator);
    let between = seq![separator];
    if text.len() == 0 {
        assert(all[0] =~= Seq::empty());
    } else {
        let before = pieces(text.drop_last(), separator);
        pieces_are_what_separators_part(text.drop_last(), separator);
        assert(text.drop_last().push(text.last()) =~= text);
        if text.last() == separator {
            assert(all.drop_last() =~= before);
            assert(joined(all, between) == joined(before, between) + between + Seq::empty());
            assert(joined(all, between) =~= text);
            assert forall|i: int| 0 <= i < all.len() implies !(#[trigger] all[i]).contains(
                separator,
            ) by {
                if i < before.len() {
                    assert(all[i] == before[i]);
                }
            }
        } else {
            let last = before.last().push(text.last());
            assert(all.drop_last() =~= before.drop_last());
            assert(all.last() == last);
            if before.len() == 1 {
                assert(joined(all, between) =~= text);
            } else {
                let head = joined(before.drop_last(), between) + between;
                assert(joined(before, between) == head + before.last());
                assert(joined(all, between) == head + last);
                assert(head + last =~= (head + before.last()).push(text.last()));
            }
            assert forall|i: int| 0 <= i < all.len() implies !(#[trigger] all[i]).contains(
                separator,
            ) by {
                if i < before.len() - 1 {
                    assert(all[i] == before[i]);
                } else {
                    let piece = before[before.len() - 1];
                    assert(!piece.contains(separator));
                    if last.contains(separator) {
                        let k = choose|k: int| 0 <= k < last.len() && last[k] == separator;
                        assert(piece[k] == separator);
                    }
                }
            }
        }
    }
}

/// The contents and lengths of a list stand in the places of what they are of.
pub proof fn contents_stand_in_their_places(
    strings: Seq<String>,
    strs: Seq<&str>,
    parts: Seq<Seq<char>>,
    i: int,
)
    ensures
        texts(strings).len() == strings.len(),
        0 <= i < strings.len() ==> texts(strings)[i] == strings[i]@,
        views(strs).len() == strs.len(),
        0 <= i < strs.len() ==> views(strs)[i] == strs[i]@,
        lengths(parts).len() == parts.len(),
        0 <= i < parts.len() ==> lengths(parts)[i] == parts[i].len(),
{
}

/// A number of spaces is that many characters, all of them spaces.
pub proof fn spaces_are_spaces(n: nat, i: int)
    requires
        0 <= i < n,
    ensures
        spaces(n).len() == n,
        spaces(n)[i] == ' ',
        spaces(0).len() == 0,
{
}

} // verus!
