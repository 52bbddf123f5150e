//! Exact representation of a CPU percentage.
//!
//! The tracker derives a percentage as `100 * busy_ticks / (rate * elapsed)`.
//! Rather than rounding to a float, the value is kept as the exact rational
//! `numer / denom` (in percent units), so contracts can pin it down precisely
//! and the display layer decides how to round.

use vstd::prelude::*;

verus! {

/// Scale factor turning a busy-tick delta into the numerator of a
/// percentage over a millisecond window: `100` (percent) times `1000`
/// (milliseconds per second).
pub const PERCENT_SCALE: u128 = 100_000;

/// Largest busy-tick delta a window can show: the sum of two `u64` tick
/// counters (`2 * (2^64 - 1)`).
pub const MAX_BUSY_DELTA: u128 = 36_893_488_147_419_103_230;

/// A CPU percentage as the exact rational `numer / denom`, in percent
/// units. `CpuPercent { numer: 10_000, denom: 100 }` is 100%.
#[derive(Clone, Copy, Debug, PartialEq, Eq, Structural, Hash)]
pub struct CpuPercent {
    /// Numerator: `PERCENT_SCALE` times the busy-tick delta of the window.
    pub numer: u128,
    /// Denominator: tick rate times the window's width in milliseconds.
    pub denom: u128,
}

impl CpuPercent {
    /// The zero percentage, used while a process has too little history
    /// for a rate to be computed.
    pub open spec fn spec_zero() -> CpuPercent {
        CpuPercent { numer: 0, denom: 1 }
    }

    /// Every percentage the tracker produces satisfies this: a positive
    /// denominator, and a numerator no larger than the scale allows, so
    /// rendering arithmetic cannot overflow.
    pub open spec fn wf(self) -> bool {
        &&& 1 <= self.denom
        &&& self.numer <= PERCENT_SCALE * MAX_BUSY_DELTA
    }

    /// Whether the value is exactly zero percent.
    pub open spec fn is_zero(self) -> bool {
        self.numer == 0
    }

    /// Constructs the zero percentage.
    pub fn zero() -> (r: CpuPercent)
        ensures
            r == CpuPercent::spec_zero(),
            r.wf(),
            r.is_zero(),
    {
        CpuPercent { numer: 0, denom: 1 }
    }

    /// The value in tenths of a percent, rounded half away from zero.
    pub open spec fn spec_tenths(self) -> int {
        (10 * self.numer + self.denom / 2) / (self.denom as int)
    }

    /// The characters `render` produces: the whole percent, a dot, the
    /// tenths digit and a percent sign.
    pub open spec fn rendered(self) -> Seq<char> {
        ascii_view(
            dec_bytes(self.spec_tenths() / 10) + seq![46u8] + seq![
                digit_byte(self.spec_tenths() % 10),
            ] + seq![37u8],
        )
    }

    /// Renders the value with one decimal digit and a trailing percent
    /// sign, rounding half away from zero: a third becomes `"33.3%"`. A
    /// value outside `wf` (which the tracker never produces) renders as
    /// zero.
    pub fn render(&self) -> (r: String)
        ensures
            self.wf() ==> r@ == self.rendered(),
            !self.wf() ==> r@ == CpuPercent::spec_zero().rendered(),
    {
        let bound: u128 = PERCENT_SCALE * MAX_BUSY_DELTA;
        let (nu, de): (u128, u128) = if 1 <= self.denom && self.numer <= bound {
            (self.numer, self.denom)
        } else {
            (0, 1)
        };
        let t: u128 = (10 * nu + de / 2) / de;
        let mut bytes: Vec<u8> = Vec::new();
        push_dec(t / 10, &mut bytes);
        bytes.push(46);
        bytes.push(48 + (t % 10) as u8);
        bytes.push(37);
        proof {
            lemma_dec_bytes_ascii((t / 10) as int);
            assert(bytes@ =~= dec_bytes((t / 10) as int) + seq![46u8] + seq![
                digit_byte((t % 10) as int),
            ] + seq![37u8]);
            assert forall|i: int| 0 <= i < bytes@.len() implies bytes@[i] < 128 by {
                if i < dec_bytes((t / 10) as int).len() {
                    assert(bytes@[i] == dec_bytes((t / 10) as int)[i]);
                }
            }
        }
        ascii_to_string(bytes)
    }
}

/// The byte of a decimal digit: `0` through `9` become `'0'` through
/// `'9'`.
pub open spec fn digit_byte(d: int) -> u8 {
    (48 + d) as u8
}

/// The decimal digits of a nonnegative number, most significant first.
pub open spec fn dec_bytes(n: int) -> Seq<u8>
    decreases n,
{
    if n < 10 {
        seq![digit_byte(n)]
    } else {
        dec_bytes(n / 10).push(digit_byte(n % 10))
    }
}

/// Decimal digits are ASCII digit bytes.
pub proof fn lemma_dec_bytes_ascii(n: int)
    requires
        0 <= n,
    ensures
        1 <= dec_bytes(n).len(),
        forall|i: int| 0 <= i < dec_bytes(n).len() ==> 48 <= #[trigger] dec_bytes(n)[i] <= 57,
    decreases n,
{
    if n >= 10 {
        lemma_dec_bytes_ascii(n / 10);
        assert forall|i: int| 0 <= i < dec_bytes(n).len() implies 48 <= #[trigger] dec_bytes(
            n,
        )[i] <= 57 by {
            if i < dec_bytes(n / 10).len() {
                assert(dec_bytes(n)[i] == dec_bytes(n / 10)[i]);
            }
        }
    }
}

/// The characters of a buffer of ASCII bytes.
pub open spec fn ascii_view(bs: Seq<u8>) -> Seq<char> {
    Seq::new(bs.len(), |i: int| bs[i] as char)
}

/// Appends the decimal digits of `n`, most significant first.
fn push_dec(n: u128, out: &mut Vec<u8>)
    ensures
        final(out)@ == old(out)@ + dec_bytes(n as int),
    decreases n,
{
    if n >= 10 {
        push_dec(n / 10, out);
    }
    out.push(48 + (n % 10) as u8);
    proof {
        assert(final(out)@ =~= old(out)@ + dec_bytes(n as int));
    }
}

/// Relies on `String::from_utf8`: a buffer of bytes below 128 is valid
/// UTF-8 (it is ASCII) and decodes to exactly those characters.
#[verifier::external_body]
fn ascii_to_string(bytes: Vec<u8>) -> (r: String)
    requires
        forall|i: int| 0 <= i < bytes@.len() ==> bytes@[i] < 128,
    ensures
        r@ == ascii_view(bytes@),
{
    String::from_utf8(bytes).unwrap_or_default()
}

} // verus!
