//! The lines of a command's output, which arrives in whatever pieces it is
//! read in.

use vstd::prelude::*;
use vstd::utf8::{decode_utf8, valid_utf8};

use crate::text::{chars, end_trimmed, joined, pieces, texts, trim_end};

verus! {

/// What `String::from_utf8_lossy` makes of `bytes`.
pub uninterp spec fn lossy_text(bytes: Seq<u8>) -> Seq<char>;

/// Stands for bytes that are not UTF-8.
pub const REPLACEMENT: char = '\u{fffd}';

/// `String::from_utf8_lossy`: the text that the bytes encode where they are
/// UTF-8, and otherwise a text with replacement characters in it. How many of
/// them, and where, only the name says.
#[verifier::external_body]
fn from_utf8_lossy(bytes: &[u8]) -> (text: String)
    ensures
        text@ == lossy_text(bytes@),
        valid_utf8(bytes@) ==> text@ == decode_utf8(bytes@),
        !valid_utf8(bytes@) ==> text@.contains(REPLACEMENT),
{
    String::from_utf8_lossy(bytes).into_owned()
}

/// `text` without the line feeds and carriage returns that it ends in.
pub open spec fn without_ending(text: Seq<char>) -> Seq<char>
    decreases text.len(),
{
    if text.len() > 0 && (text.last() == '\n' || text.last() == '\r') {
        without_ending(text.drop_last())
    } else {
        text
    }
}

/// `text` without the line feeds and carriage returns that it ends in.
pub fn strip_ending(text: &str) -> (out: String)
    ensures
        out@ == without_ending(text@),
{
    let all = chars(text);
    let mut end: usize = all.len();
    assert(text@.take(end as int) =~= text@);
    while end > 0 && (all[end - 1] == '\n' || all[end - 1] == '\r')
        invariant
            end <= all.len(),
            all@ == text@,
            without_ending(text@) == without_ending(text@.take(end as int)),
        decreases end,
    {
        assert(text@.take(end as int).drop_last() =~= text@.take(end - 1));
        end -= 1;
    }
    assert(text@.take(end as int) =~= text@.subrange(0, end as int));
    text.substring_char(0, end).to_string()
}

/// A line without its ending does not end in another.
pub proof fn an_ending_is_stripped_whole(text: Seq<char>)
    ensures
        without_ending(text).len() > 0 ==> without_ending(text).last() != '\n' && without_ending(
            text,
        ).last() != '\r',
        without_ending(text).is_prefix_of(text),
    decreases text.len(),
{
    if text.len() > 0 && (text.last() == '\n' || text.last() == '\r') {
        an_ending_is_stripped_whole(text.drop_last());
    }
}

/// The byte that ends a line.
pub const LINE_FEED: u8 = 10;

/// The bytes behind the last line feed, which make no whole line yet.
pub open spec fn unended(bytes: Seq<u8>) -> Seq<u8>
    decreases bytes.len(),
{
    if bytes.len() == 0 || bytes.last() == LINE_FEED {
        Seq::empty()
    } else {
        unended(bytes.drop_last()).push(bytes.last())
    }
}

/// The stretches of bytes that end in a line feed.
pub open spec fn ended(bytes: Seq<u8>) -> Seq<Seq<u8>>
    decreases bytes.len(),
{
    if bytes.len() == 0 {
        Seq::empty()
    } else if bytes.last() == LINE_FEED {
        ended(bytes.drop_last()).push(unended(bytes.drop_last()).push(LINE_FEED))
    } else {
        ended(bytes.drop_last())
    }
}

/// The text of one line, given the bytes of it.
pub open spec fn line_text(bytes: Seq<u8>) -> Seq<char> {
    without_ending(lossy_text(bytes))
}

/// The text of each line, given the bytes of them.
pub open spec fn lines_text(lines: Seq<Seq<u8>>) -> Seq<Seq<char>> {
    lines.map_values(|line: Seq<u8>| line_text(line))
}

/// Whether `text` is what `bytes` say, without the line ending, with something
/// in the place of what is not UTF-8.
pub open spec fn readable(bytes: Seq<u8>, text: Seq<char>) -> bool {
    if valid_utf8(bytes) {
        text == without_ending(decode_utf8(bytes))
    } else {
        text.contains(REPLACEMENT)
    }
}

/// The text of one line, given the bytes of it. Bytes that are not UTF-8 are
/// replaced rather than dropped.
pub fn line(bytes: &[u8]) -> (text: String)
    ensures
        text@ == line_text(bytes@),
        readable(bytes@, text@),
{
    let text = from_utf8_lossy(bytes);
    proof {
        if text@.contains(REPLACEMENT) {
            lemma_ending_has_no_replacement(text@);
        }
    }
    strip_ending(text.as_str())
}

proof fn lemma_ending_has_no_replacement(text: Seq<char>)
    requires
        text.contains(REPLACEMENT),
    ensures
        without_ending(text).contains(REPLACEMENT),
    decreases text.len(),
{
    if text.last() == '\n' || text.last() == '\r' {
        let i = choose|i: int| 0 <= i < text.len() && text[i] == REPLACEMENT;
        assert(text.drop_last()[i] == REPLACEMENT);
        lemma_ending_has_no_replacement(text.drop_last());
    }
}

/// Puts the pieces of output together to lines. Its view is the bytes of the
/// line that has not ended yet.
pub struct LineReader {
    pending: Vec<u8>,
}

impl View for LineReader {
    type V = Seq<u8>;

    closed spec fn view(&self) -> Seq<u8> {
        self.pending@
    }
}

impl LineReader {
    #[verifier::type_invariant]
    spec fn well_formed(self) -> bool {
        !self.pending@.contains(LINE_FEED)
    }

    /// A reader that has been given nothing.
    pub fn new() -> (reader: LineReader)
        ensures
            reader@ == Seq::<u8>::empty(),
    {
        LineReader { pending: Vec::new() }
    }

    /// Take the next piece of output, and give the lines that it ends.
    pub fn push(&mut self, piece: &[u8]) -> (lines: Vec<String>)
        ensures
            texts(lines@) == lines_text(ended(old(self)@ + piece@)),
            forall|i: int|
                0 <= i < lines@.len() ==> readable(
                    ended(old(self)@ + piece@)[i],
                    (#[trigger] lines@[i])@,
                ),
            final(self)@ == unended(old(self)@ + piece@),
    {
        proof {
            use_type_invariant(&*self);
            lemma_one_unended_line(self@);
        }
        let ghost before = self@;
        let mut pending: Vec<u8> = Vec::new();
        std::mem::swap(&mut pending, &mut self.pending);
        let mut lines: Vec<String> = Vec::new();
        let mut i: usize = 0;
        assert(before + piece@.take(0) =~= before);
        assert(texts(lines@) =~= lines_text(ended(before)));
        while i < piece.len()
            invariant
                i <= piece@.len(),
                self@ == Seq::<u8>::empty(),
                pending@ == unended(before + piece@.take(i as int)),
                texts(lines@) == lines_text(ended(before + piece@.take(i as int))),
                lines@.len() == ended(before + piece@.take(i as int)).len(),
                forall|k: int|
                    0 <= k < lines@.len() ==> readable(
                        ended(before + piece@.take(i as int))[k],
                        (#[trigger] lines@[k])@,
                    ),
            decreases piece.len() - i,
        {
            let ghost so_far = before + piece@.take(i as int);
            let ghost given = texts(lines@);
            assert((before + piece@.take(i + 1)).drop_last() =~= so_far);
            pending.push(piece[i]);
            if piece[i] == LINE_FEED {
                lines.push(line(pending.as_slice()));
                assert(texts(lines@) =~= given.push(line_text(pending@)));
                assert(texts(lines@) =~= lines_text(ended(before + piece@.take(i + 1))));
                pending = Vec::new();
            }
            i += 1;
        }
        assert(piece@.take(i as int) =~= piece@);
        proof {
            lemma_unended_has_no_line_feed(before + piece@);
        }
        self.pending = pending;
        lines
    }

    /// The line that no line feed ended, when the output is over.
    pub fn finish(self) -> (last: Option<String>)
        ensures
            match last {
                Some(text) => self@.len() > 0 && text@ == line_text(self@) && readable(
                    self@,
                    text@,
                ),
                None => self@.len() == 0,
            },
    {
        if self.pending.is_empty() {
            None
        } else {
            Some(line(self.pending.as_slice()))
        }
    }
}

/// The bytes of every line of `source`, the last one whether a line feed ends
/// it or not.
pub open spec fn all_lines(source: Seq<u8>) -> Seq<Seq<u8>> {
    if unended(source).len() == 0 {
        ended(source)
    } else {
        ended(source).push(unended(source))
    }
}

/// Each line of `source`, without its line ending. Bytes that are not UTF-8 are
/// replaced rather than dropped.
pub fn lines(source: &[u8]) -> (lines: Vec<String>)
    ensures
        texts(lines@) == lines_text(all_lines(source@)),
        forall|i: int|
            0 <= i < lines@.len() ==> readable(all_lines(source@)[i], (#[trigger] lines@[i])@),
{
    let mut reader = LineReader::new();
    assert(reader@ + source@ =~= source@);
    let mut lines = reader.push(source);
    let ghost given = texts(lines@);
    if let Some(last) = reader.finish() {
        lines.push(last);
        assert(texts(lines@) =~= given.push(line_text(unended(source@))));
        assert(texts(lines@) =~= lines_text(all_lines(source@)));
    }
    lines
}

/// Bytes without a line feed are one line that has not ended.
proof fn lemma_one_unended_line(bytes: Seq<u8>)
    requires
        !bytes.contains(LINE_FEED),
    ensures
        unended(bytes) == bytes,
        ended(bytes).len() == 0,
    decreases bytes.len(),
{
    if bytes.len() > 0 {
        let before = bytes.drop_last();
        assert(bytes[bytes.len() - 1] != LINE_FEED);
        assert(!before.contains(LINE_FEED)) by {
            if before.contains(LINE_FEED) {
                let i = choose|i: int| 0 <= i < before.len() && before[i] == LINE_FEED;
                assert(bytes[i] == LINE_FEED);
            }
        }
        lemma_one_unended_line(before);
        assert(before.push(bytes.last()) =~= bytes);
    }
}

proof fn lemma_unended_has_no_line_feed(bytes: Seq<u8>)
    ensures
        !unended(bytes).contains(LINE_FEED),
    decreases bytes.len(),
{
    if bytes.len() > 0 && bytes.last() != LINE_FEED {
        lemma_unended_has_no_line_feed(bytes.drop_last());
        let before = unended(bytes.drop_last());
        if unended(bytes).contains(LINE_FEED) {
            let i = choose|i: int|
                0 <= i < unended(bytes).len() && unended(bytes)[i] == LINE_FEED;
            assert(before[i] == LINE_FEED);
        }
    }
}

/// The lines do not depend on where the output was cut into pieces: those of
/// two pieces are the ones that the first ends, and then the ones that the
/// second ends behind what the first left.
pub proof fn lines_do_not_depend_on_the_pieces(first: Seq<u8>, second: Seq<u8>)
    ensures
        ended(first + second) == ended(first) + ended(unended(first) + second),
        unended(first + second) == unended(unended(first) + second),
    decreases second.len(),
{
    let left = unended(first);
    if second.len() == 0 {
        lemma_unended_has_no_line_feed(first);
        lemma_one_unended_line(left);
        assert(first + second =~= first);
        assert(left + second =~= left);
        assert(ended(first) + ended(left) =~= ended(first));
    } else {
        let shorter = second.drop_last();
        lines_do_not_depend_on_the_pieces(first, shorter);
        assert((first + second).drop_last() =~= first + shorter);
        assert((left + second).drop_last() =~= left + shorter);
        assert(ended(first + second) =~= ended(first) + ended(left + second));
    }
}

/// No byte of the output is lost: the lines in a row, and what has not ended
/// behind them, are the output.
pub proof fn lines_hold_all_of_the_output(source: Seq<u8>)
    ensures
        ended(source).flatten() + unended(source) == source,
    decreases source.len(),
{
    if source.len() == 0 {
        assert(ended(source).flatten() + unended(source) =~= source);
    } else {
        let before = source.drop_last();
        lines_hold_all_of_the_output(before);
        let lines = ended(before);
        let left = unended(before);
        assert(before.push(source.last()) =~= source);
        if source.last() == LINE_FEED {
            lines.lemma_flatten_push(left.push(LINE_FEED));
            assert(lines.flatten() + left.push(LINE_FEED) =~= (lines.flatten() + left).push(
                LINE_FEED,
            ));
        } else {
            assert(lines.flatten() + left.push(source.last()) =~= (lines.flatten() + left).push(
                source.last(),
            ));
        }
        assert(ended(source).flatten() + unended(source) =~= source);
    }
}

/// `output` with one more line of it.
pub open spec fn recorded(output: Seq<char>, line: Seq<char>) -> Seq<char> {
    output + line + "\n"@
}

/// What is kept of output that came line by line.
pub open spec fn transcript(lines: Seq<Seq<char>>) -> Seq<char>
    decreases lines.len(),
{
    if lines.len() == 0 {
        Seq::empty()
    } else {
        recorded(transcript(lines.drop_last()), lines.last())
    }
}

/// Every line is kept, in the order they came: taken apart at its line feeds,
/// what is kept gives the lines back, with nothing behind the last line feed.
pub proof fn a_transcript_holds_every_line(lines: Seq<Seq<char>>)
    requires
        forall|i: int| 0 <= i < lines.len() ==> !(#[trigger] lines[i]).contains('\n'),
    ensures
        pieces(transcript(lines), '\n') == lines.push(Seq::empty()),
    decreases lines.len(),
{
    if lines.len() == 0 {
        assert(pieces(transcript(lines), '\n') =~= lines.push(Seq::empty()));
    } else {
        let earlier = lines.drop_last();
        assert forall|i: int| 0 <= i < earlier.len() implies !(#[trigger] earlier[i]).contains(
            '\n',
        ) by {
            assert(earlier[i] == lines[i]);
        }
        a_transcript_holds_every_line(earlier);
        let before = transcript(earlier);
        let line = lines.last();
        assert(!lines[lines.len() - 1].contains('\n'));
        lemma_pieces_behind(before, line, '\n');
        assert(earlier.push(Seq::empty()).drop_last() =~= earlier);
        assert(Seq::<char>::empty() + line =~= line);
        assert(pieces(before + line, '\n') =~= lines);
        reveal_strlit("\n");
        assert(transcript(lines) =~= (before + line).push('\n'));
        assert((before + line).push('\n').drop_last() =~= before + line);
    }
}

/// Text without a separator behind another belongs to its last piece.
proof fn lemma_pieces_behind(text: Seq<char>, tail: Seq<char>, separator: char)
    requires
        !tail.contains(separator),
    ensures
        pieces(text, separator).len() > 0,
        pieces(text + tail, separator) == pieces(text, separator).drop_last().push(
            pieces(text, separator).last() + tail,
        ),
    decreases text.len() + tail.len(),
{
    let empty = Seq::<char>::empty();
    if tail.len() == 0 {
        if text.len() > 0 {
            lemma_pieces_behind(text.drop_last(), empty, separator);
        }
        let all = pieces(text, separator);
        assert(text + tail =~= text);
        assert(all.last() + tail =~= all.last());
        assert(all.drop_last().push(all.last()) =~= all);
    } else {
        let shorter = tail.drop_last();
        assert(tail[tail.len() - 1] != separator);
        assert(!shorter.contains(separator)) by {
            if shorter.contains(separator) {
                let i = choose|i: int| 0 <= i < shorter.len() && shorter[i] == separator;
                assert(tail[i] == separator);
            }
        }
        lemma_pieces_behind(text, shorter, separator);
        let all = pieces(text, separator);
        let before = pieces(text + shorter, separator);
        assert((text + tail).drop_last() =~= text + shorter);
        assert(before.drop_last() =~= all.drop_last());
        assert(before.last().push(tail.last()) =~= all.last() + tail);
    }
}

/// What is shown of the lines that were kept is all of them, joined by line
/// feeds, without the white space at the end.
pub proof fn a_transcript_shows_its_lines_joined(lines: Seq<Seq<char>>)
    ensures
        end_trimmed(transcript(lines)) == end_trimmed(joined(lines, "\n"@)),
        lines.len() > 0 ==> transcript(lines) == joined(lines, "\n"@) + "\n"@,
    decreases lines.len(),
{
    if lines.len() > 0 {
        let earlier = lines.drop_last();
        let whole = joined(lines, "\n"@);
        a_transcript_shows_its_lines_joined(earlier);
        assert(transcript(lines) =~= whole + "\n"@);
        reveal_strlit("\n");
        assert(transcript(lines).last() == '\n');
        assert(transcript(lines).drop_last() =~= whole);
    }
}

/// What is shown of the output that was kept line by line: the lines joined by
/// line feeds, without the white space at the end.
pub fn shown(output: &str) -> (text: String)
    ensures
        text@ == end_trimmed(output@),
        forall|lines: Seq<Seq<char>>|
            output@ == #[trigger] transcript(lines) ==> text@ == end_trimmed(
                joined(lines, "\n"@),
            ),
{
    proof {
        assert forall|lines: Seq<Seq<char>>|
            output@ == #[trigger] transcript(lines) implies end_trimmed(output@) == end_trimmed(
            joined(lines, "\n"@),
        ) by {
            a_transcript_shows_its_lines_joined(lines);
        }
    }
    trim_end(output)
}

/// Keep a line of output, for a failure to show.
pub fn record(output: &mut String, line: &str)
    ensures
        final(output)@ == recorded(old(output)@, line@),
{
    output.append(line);
    output.append("\n");
}

/// Stripping its ending takes line feeds and carriage returns off the end of a
/// line, all of them and nothing else.
pub proof fn an_ending_is_line_feeds_and_carriage_returns(text: Seq<char>)
    ensures
        ({
            let end = without_ending(text).len() as int;
            &&& end <= text.len()
            &&& without_ending(text) == text.take(end)
            &&& end > 0 ==> text[end - 1] != '\n' && text[end - 1] != '\r'
            &&& forall|i: int|
                end <= i < text.len() ==> #[trigger] text[i] == '\n' || text[i] == '\r'
        }),
    decreases text.len(),
{
    if text.len() > 0 && (text.last() == '\n' || text.last() == '\r') {
        let before = text.drop_last();
        an_ending_is_line_feeds_and_carriage_returns(before);
        let end = without_ending(text).len() as int;
        assert(before.take(end) =~= text.take(end));
        assert forall|i: int| end <= i < text.len() implies #[trigger] text[i] == '\n' || text[i]
            == '\r' by {
            if i < text.len() - 1 {
                assert(before[i] == text[i]);
            }
        }
    } else {
        assert(text.take(text.len() as int) =~= text);
    }
}

/// Output is cut behind its line feeds and nowhere else: each line that has
/// ended ends in the only line feed it has, and what has not ended has none.
pub proof fn lines_end_at_line_feeds(source: Seq<u8>)
    ensures
        forall|i: int|
            0 <= i < ended(source).len() ==> (#[trigger] ended(source)[i]).len() > 0 && ended(
                source,
            )[i].last() == 10 && !ended(source)[i].drop_last().contains(10u8),
        !unended(source).contains(10u8),
    decreases source.len(),
{
    lemma_unended_has_no_line_feed(source);
    if source.len() > 0 {
        let before = source.drop_last();
        lines_end_at_line_feeds(before);
        let all = ended(source);
        assert forall|i: int| 0 <= i < all.len() implies (#[trigger] all[i]).len() > 0
            && all[i].last() == 10 && !all[i].drop_last().contains(10u8) by {
            if i < ended(before).len() {
                assert(all[i] == ended(before)[i]);
            } else {
                assert(all[i].drop_last() =~= unended(before));
            }
        }
    }
}

/// Every byte of the output is in one of its lines, in order, the last one
/// whether a line feed ends it or not; output of nothing has no line.
pub proof fn all_lines_are_all_of_the_output(source: Seq<u8>)
    ensures
        all_lines(source).flatten() == source,
        source.len() == 0 ==> all_lines(source).len() == 0,
        forall|i: int|
            0 <= i < all_lines(source).len() ==> (#[trigger] all_lines(source)[i]).len() > 0,
        forall|i: int|
            0 <= i < all_lines(source).len() - 1 ==> (#[trigger] all_lines(source)[i]).last() == 10,
        forall|i: int|
            0 <= i < all_lines(source).len() ==> !(#[trigger] all_lines(
                source,
            )[i]).drop_last().contains(10u8),
{
    lines_hold_all_of_the_output(source);
    lines_end_at_line_feeds(source);
    let lines = ended(source);
    let left = unended(source);
    if left.len() == 0 {
        assert(lines.flatten() + left =~= lines.flatten());
    } else {
        lines.lemma_flatten_push(left);
        if left.drop_last().contains(10u8) {
            let k = choose|k: int| 0 <= k < left.drop_last().len() && left.drop_last()[k] == 10u8;
            assert(left[k] == 10u8);
        }
    }
}

/// The text of a line is what its bytes say without the ending, line by line,
/// with something in the place of what is not UTF-8.
pub proof fn lines_are_read_one_by_one(lines: Seq<Seq<u8>>, i: int, text: Seq<char>)
    requires
        0 <= i < lines.len(),
    ensures
        lines_text(lines).len() == lines.len(),
        lines_text(lines)[i] == without_ending(lossy_text(lines[i])),
        readable(lines[i], text) && valid_utf8(lines[i]) ==> text == without_ending(
            decode_utf8(lines[i]),
        ),
        readable(lines[i], text) && !valid_utf8(lines[i]) ==> text.contains('\u{fffd}'),
{
}

/// A line that is kept stands behind what was kept before, with a line feed
/// behind it.
pub proof fn a_recorded_line_is_kept_whole(output: Seq<char>, line: Seq<char>)
    ensures
        recorded(output, line) == output + line + seq!['\n'],
{
    reveal_strlit("\n");
    assert(recorded(output, line) =~= output + line + seq!['\n']);
}

} // verus!
