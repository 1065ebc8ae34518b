//! Lengths of time, in whole seconds and nanoseconds, and the text that a
//! report shows them as.

use vstd::prelude::*;

use crate::text::{
    a_numeral_reads_back, decimal, digit, digits, lemma_digits, numerals_tell_numbers_apart, value,
};

verus! {

/// The nanoseconds in a second.
pub const SECOND: u32 = 1_000_000_000;

/// The nanoseconds in a millisecond.
pub const MILLISECOND: u32 = 1_000_000;

/// A length of time. Its view is the number of its nanoseconds.
#[derive(Debug, Clone, Copy, PartialEq, Eq)]
pub struct Duration {
    secs: u64,
    nanos: u32,
}

impl View for Duration {
    type V = nat;

    closed spec fn view(&self) -> nat {
        self.secs as nat * SECOND as nat + self.nanos as nat
    }
}

impl Duration {
    #[verifier::type_invariant]
    spec fn well_formed(self) -> bool {
        self.nanos < SECOND
    }

    /// `secs` seconds and `nanos` nanoseconds more.
    pub fn new(secs: u64, nanos: u32) -> (duration: Duration)
        requires
            nanos < SECOND,
        ensures
            duration@ == secs * SECOND + nanos,
    {
        Duration { secs, nanos }
    }

    /// `secs` seconds.
    pub fn from_secs(secs: u64) -> (duration: Duration)
        ensures
            duration@ == secs * SECOND,
    {
        Duration { secs, nanos: 0 }
    }

    /// `millis` milliseconds.
    pub fn from_millis(millis: u64) -> (duration: Duration)
        ensures
            duration@ == millis * MILLISECOND,
    {
        let nanos: u32 = (millis % 1000) as u32 * MILLISECOND;
        Duration { secs: millis / 1000, nanos }
    }

    /// The whole seconds.
    pub fn as_secs(&self) -> (secs: u64)
        ensures
            secs == self@ / SECOND as nat,
    {
        proof {
            use_type_invariant(self);
        }
        self.secs
    }

    /// The nanoseconds beyond the whole seconds.
    pub fn subsec_nanos(&self) -> (nanos: u32)
        ensures
            nanos == self@ % SECOND as nat,
    {
        proof {
            use_type_invariant(self);
        }
        self.nanos
    }

    /// What is left of this length of time after `other`, or nothing when
    /// `other` is longer.
    pub fn saturating_sub(&self, other: Duration) -> (left: Duration)
        ensures
            left@ == if self@ > other@ {
                self@ - other@
            } else {
                0
            },
    {
        proof {
            use_type_invariant(self);
            use_type_invariant(&other);
        }
        if self.secs > other.secs && self.nanos < other.nanos {
            Duration {
                secs: self.secs - other.secs - 1,
                nanos: SECOND - other.nanos + self.nanos,
            }
        } else if self.secs >= other.secs && self.nanos >= other.nanos {
            Duration { secs: self.secs - other.secs, nanos: self.nanos - other.nanos }
        } else {
            Duration { secs: 0, nanos: 0 }
        }
    }
}

/// A number of tenths as a numeral with one digit behind the point.
pub open spec fn one_decimal(tenths: nat) -> Seq<char> {
    digits(tenths / 10) + "."@ + seq![digit(tenths % 10)]
}

/// Whether `tenths` of a second come as close to `nanos` nanoseconds as any
/// number of tenths does.
pub open spec fn nearest_tenth(tenths: nat, nanos: nat) -> bool {
    let apart: int = 2 * (tenths * 100 * MILLISECOND - nanos);
    -100 * MILLISECOND <= apart <= 100 * MILLISECOND
}

/// Whether `text` is a numeral with one digit behind the point and, for less
/// than 2^24 seconds, the one of a nearest tenth.
pub open spec fn shows_tenths(text: Seq<char>, nanos: nat) -> bool {
    exists|tenths: nat| #[trigger]
        one_decimal(tenths) == text && (nanos < 0x100_0000 * SECOND ==> nearest_tenth(
            tenths,
            nanos,
        ))
}

/// `nanos` nanoseconds as a number of seconds with one digit behind the point:
/// what `{:.1}` shows of `Duration::as_secs_f64`.
pub uninterp spec fn seconds_text(nanos: nat) -> Seq<char>;

/// `Duration::as_secs_f64` as the `{:.1}` of `format!` shows it: one digit
/// behind the point. Below 2^24 seconds a double is less than a nanosecond off,
/// so the digit shown is that of a nearest tenth. Which of two equally near
/// tenths it is, and what is shown of longer times, only the name says.
#[verifier::external_body]
fn seconds(secs: u64, nanos: u32) -> (out: String)
    requires
        nanos < SECOND,
    ensures
        out@ == seconds_text((secs * SECOND + nanos) as nat),
        shows_tenths(out@, (secs * SECOND + nanos) as nat),
{
    format!("{:.1}", std::time::Duration::new(secs, nanos).as_secs_f64())
}

/// The text of a length of time: whole milliseconds under a second, and seconds
/// as `seconds` shows them from there on.
pub open spec fn duration_text(nanos: nat, seconds: Seq<char>) -> Seq<char> {
    if nanos / (MILLISECOND as nat) < 1000 {
        digits(nanos / (MILLISECOND as nat)) + "ms"@
    } else {
        seconds + "s"@
    }
}

/// [`duration_text`] with the seconds as they are shown.
pub open spec fn formatted(nanos: nat) -> Seq<char> {
    duration_text(nanos, seconds_text(nanos))
}

/// The text of a length of time of which `seconds` is shown where it is a
/// second or more.
pub fn label_duration(duration: Duration, seconds: &str) -> (out: String)
    ensures
        out@ == duration_text(duration@, seconds@),
{
    let secs = duration.as_secs();
    let nanos = duration.subsec_nanos();
    if secs == 0 {
        let mut out = decimal((nanos / MILLISECOND) as u64);
        out.append("ms");
        out
    } else {
        let mut out = seconds.to_string();
        out.append("s");
        out
    }
}

/// Milliseconds under a second, one decimal of a second above it. A step that
/// takes minutes is still reported in seconds: it is a number to compare with
/// the step beside it, not a clock.
pub fn format_duration(duration: Duration) -> (out: String)
    ensures
        out@ == formatted(duration@),
        duration@ >= SECOND ==> shows_tenths(seconds_text(duration@), duration@),
{
    if duration.as_secs() == 0 {
        return label_duration(duration, "");
    }
    let shown = seconds(duration.as_secs(), duration.subsec_nanos());
    label_duration(duration, shown.as_str())
}

/// The text of a length of time holds digits, points and the letters of its
/// unit alone.
pub(crate) proof fn lemma_formatted(nanos: nat)
    requires
        nanos >= SECOND ==> shows_tenths(seconds_text(nanos), nanos),
    ensures
        forall|i: int|
            0 <= i < formatted(nanos).len() ==> '.' <= #[trigger] formatted(nanos)[i] <= '9'
                || formatted(nanos)[i] == 'm' || formatted(nanos)[i] == 's',
{
    let tenths = choose|tenths: nat| #[trigger] one_decimal(tenths) == seconds_text(nanos);
    reveal_strlit(".");
    reveal_strlit("ms");
    reveal_strlit("s");
    lemma_digits(nanos / (MILLISECOND as nat));
    lemma_digits(tenths / 10);
}

/// Under a second the milliseconds are shown, all of them and no fraction, and
/// from a second on the seconds; the unit tells which.
pub proof fn a_duration_is_shown_in_one_unit(nanos: nat)
    ensures
        nanos < 1_000_000_000 ==> formatted(nanos) == digits(nanos / 1_000_000) + "ms"@
            && nanos / 1_000_000 < 1000,
        nanos >= 1_000_000_000 ==> formatted(nanos) == seconds_text(nanos) + "s"@,
{
}

/// No two lengths of time under a second that differ in their milliseconds are
/// shown alike.
pub proof fn milliseconds_are_told_apart(nanos: nat, others: nat)
    requires
        nanos < 1_000_000_000,
        others < 1_000_000_000,
        formatted(nanos) == formatted(others),
    ensures
        nanos / 1_000_000 == others / 1_000_000,
{
    let shown = digits(nanos / 1_000_000);
    let other = digits(others / 1_000_000);
    reveal_strlit("ms");
    assert(formatted(nanos).take(formatted(nanos).len() - 2) =~= shown);
    assert(formatted(others).take(formatted(others).len() - 2) =~= other);
    numerals_tell_numbers_apart(nanos / 1_000_000, others / 1_000_000);
}

/// The numeral of tenths has one digit behind its point, and reads back.
pub proof fn tenths_read_back(tenths: nat)
    ensures
        ({
            let text = one_decimal(tenths);
            let point = text.len() - 2;
            &&& point > 0
            &&& text[point] == '.'
            &&& value(text.take(point)) * 10 + value(text.skip(point + 1)) == tenths
        }),
{
    reveal_strlit(".");
    a_numeral_reads_back(tenths / 10);
    a_numeral_reads_back(tenths % 10);
    let text = one_decimal(tenths);
    let point = text.len() - 2;
    assert(text.take(point) =~= digits(tenths / 10));
    assert(text.skip(point + 1) =~= digits(tenths % 10));
}

/// A nearest tenth is within half a tenth of a second.
pub proof fn a_nearest_tenth_is_within_half_a_tenth(tenths: nat, nanos: nat)
    ensures
        nearest_tenth(tenths, nanos) <==> tenths * 100_000_000 <= nanos + 50_000_000 && nanos
            <= tenths * 100_000_000 + 50_000_000,
{
}

} // verus!
