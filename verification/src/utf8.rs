//! Where the characters of a text start and end among its bytes.

use vstd::prelude::*;
use vstd::utf8::*;

use crate::text::chars;

verus! {

/// The number of bytes that the first `count` characters of `text` take, or all
/// of them when there are no more.
pub open spec fn byte_offset(text: Seq<char>, count: nat) -> nat {
    if count < text.len() {
        encode_utf8(text.take(count as int)).len()
    } else {
        encode_utf8(text).len()
    }
}

/// Text is encoded character by character.
proof fn lemma_encode_in_a_row(text: Seq<char>, next: Seq<char>)
    ensures
        encode_utf8(text + next) == encode_utf8(text) + encode_utf8(next),
    decreases text.len(),
{
    if text.len() == 0 {
        assert(text + next =~= next);
        assert(encode_utf8(text) + encode_utf8(next) =~= encode_utf8(next));
    } else {
        let rest = text.drop_first();
        lemma_encode_in_a_row(rest, next);
        assert((text + next).drop_first() =~= rest + next);
        assert(encode_utf8(text + next) =~= encode_utf8(text) + encode_utf8(next));
    }
}

/// The end of one text and the start of the next is a boundary between
/// characters.
proof fn lemma_boundary_in_a_row(text: Seq<char>, next: Seq<char>)
    ensures
        is_char_boundary(encode_utf8(text + next), encode_utf8(text).len() as int),
    decreases text.len(),
{
    broadcast use encode_utf8_valid_utf8;

    let all = text + next;
    if text.len() > 0 {
        let rest = text.drop_first();
        encode_utf8_first_scalar(all);
        lemma_boundary_in_a_row(rest, next);
        lemma_encode_in_a_row(text, next);
        assert(all.drop_first() =~= rest + next);
        assert(pop_first_scalar(encode_utf8(all)) =~= encode_utf8(rest + next));
    }
}

/// No two texts are encoded alike.
proof fn lemma_encode_is_injective(text: Seq<char>, other: Seq<char>)
    requires
        encode_utf8(text) == encode_utf8(other),
    ensures
        text == other,
{
    encode_utf8_decode_utf8(text);
    encode_utf8_decode_utf8(other);
}

/// The number of bytes that `c` takes.
fn utf8_len(c: char) -> (len: usize)
    ensures
        len == encode_scalar(c as u32).len(),
        1 <= len <= 4,
{
    let scalar: u32 = c as u32;
    if scalar <= 0x7f {
        1
    } else if scalar <= 0x7ff {
        2
    } else if scalar <= 0xffff {
        3
    } else {
        4
    }
}

/// The number of bytes that the first `count` characters of `text` take, or all
/// of them when there are no more.
pub fn byte(text: &str, count: usize) -> (at: usize)
    ensures
        at == byte_offset(text@, count as nat),
{
    let all = chars(text);
    let bytes = text.as_bytes().len();
    let mut at: usize = 0;
    let mut i: usize = 0;
    assert(text@.take(0) =~= Seq::empty());
    while i < all.len() && i < count
        invariant
            i <= all@.len(),
            i <= count,
            all@ == text@,
            bytes == encode_utf8(text@).len(),
            at == encode_utf8(text@.take(i as int)).len(),
        decreases all.len() - i,
    {
        proof {
            let upto = text@.take(i as int);
            let one = seq![text@[i as int]];
            let beyond = text@.skip(i + 1);
            assert(text@.take(i + 1) =~= upto + one);
            assert(text@ =~= (upto + one) + beyond);
            lemma_encode_in_a_row(upto, one);
            lemma_encode_in_a_row(upto + one, beyond);
            assert(one.drop_first() =~= Seq::empty());
            reveal_with_fuel(encode_utf8, 2);
        }
        at += utf8_len(all[i]);
        i += 1;
    }
    assert(i == text@.len() ==> text@.take(i as int) =~= text@);
    at
}

/// `text` in two, behind its first `count` characters.
pub fn split_behind(text: &str, count: usize) -> (halves: (&str, &str))
    requires
        count <= text@.len(),
    ensures
        halves.0@ == text@.take(count as int),
        halves.1@ == text@.skip(count as int),
{
    let at = byte(text, count);
    proof {
        let first = text@.take(count as int);
        let second = text@.skip(count as int);
        assert(first + second =~= text@);
        assert(count == text@.len() ==> first =~= text@);
        lemma_encode_in_a_row(first, second);
        lemma_boundary_in_a_row(first, second);
    }
    let halves = text.split_at(at);
    proof {
        let first = text@.take(count as int);
        let second = text@.skip(count as int);
        assert(encode_utf8(halves.0@) =~= encode_utf8(first));
        assert(encode_utf8(halves.1@) =~= encode_utf8(second));
        lemma_encode_is_injective(halves.0@, first);
        lemma_encode_is_injective(halves.1@, second);
    }
    halves
}

/// Where a character starts among the bytes is where those before it end, and
/// behind the last character all of them end.
pub proof fn a_character_starts_where_those_before_it_end(text: Seq<char>, count: nat)
    ensures
        count <= text.len() ==> byte_offset(text, count) == encode_utf8(
            text.subrange(0, count as int),
        ).len(),
        count >= text.len() ==> byte_offset(text, count) == encode_utf8(text).len(),
        byte_offset(text, 0) == 0,
{
    assert(count <= text.len() ==> text.take(count as int) =~= text.subrange(0, count as int));
    if count == text.len() {
        assert(text.subrange(0, count as int) =~= text);
    }
    assert(text.take(0) =~= Seq::empty());
    assert(text.len() == 0 ==> text =~= Seq::empty());
}

} // verus!
