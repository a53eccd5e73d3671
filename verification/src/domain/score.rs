//! Documentation scores as binary fractions.

use crate::domain::text;
use crate::domain::text::push_decimal;
use vstd::prelude::*;
use vstd::string::StringExecFns;

verus! {

/// A documentation score: the bit pattern of a single precision number in the
/// IEEE 754 interchange format (sign, eight exponent bits, 23 fraction bits).
#[derive(Debug, Clone, Copy, PartialEq, Eq, Hash, Structural)]
pub struct Score {
    pub bits: u32,
}

impl Score {
    /// The pattern without its sign bit.
    pub open spec fn magnitude(self) -> int {
        self.bits as int % 0x8000_0000
    }

    pub open spec fn negative(self) -> bool {
        self.bits >= 0x8000_0000
    }

    /// Whether the pattern stands for no number: an exponent of all ones with a
    /// fraction that is not zero.
    pub open spec fn is_nan(self) -> bool {
        self.magnitude() > 0x7f80_0000
    }

    /// The place of the number in the order of all numbers. Patterns of one sign
    /// are ordered as their magnitudes are, and the two zeros share a place.
    pub open spec fn rank(self) -> int {
        if self.negative() {
            -self.magnitude()
        } else {
            self.magnitude()
        }
    }

    /// Whether the number is at least `other`; false where either is no number.
    pub open spec fn spec_at_least(self, other: Score) -> bool {
        !self.is_nan() && !other.is_nan() && self.rank() >= other.rank()
    }

    /// Whether the number is below `other`; false where either is no number.
    pub open spec fn spec_below(self, other: Score) -> bool {
        !self.is_nan() && !other.is_nan() && self.rank() < other.rank()
    }

    /// One half.
    pub open spec fn spec_half() -> Score {
        Score { bits: 0x3f00_0000 }
    }

    pub fn half() -> (score: Score)
        ensures
            score == Score::spec_half(),
    {
        Score { bits: 0x3f00_0000 }
    }

    /// The significand: the fraction bits, with the implied leading bit of numbers
    /// that are not very small.
    pub open spec fn significand(self) -> nat {
        let fraction = (self.magnitude() % 0x80_0000) as nat;
        if self.magnitude() < 0x80_0000 {
            fraction
        } else {
            fraction + 0x80_0000
        }
    }

    /// The power of two by which the significand is multiplied.
    pub open spec fn exponent(self) -> int {
        if self.magnitude() < 0x80_0000 {
            -149
        } else {
            self.magnitude() / 0x80_0000 - 150
        }
    }

    /// The number in decimal with three places, rounded to the nearest and in the
    /// middle to even.
    pub open spec fn thousandths(self) -> Seq<char> {
        if self.is_nan() {
            "NaN"@
        } else {
            (if self.negative() {
                "-"@
            } else {
                ""@
            }) + (if self.magnitude() == 0x7f80_0000 {
                "inf"@
            } else if self.exponent() >= 0 {
                with_places(self.significand() * two_to(self.exponent() as nat) * 1000)
            } else {
                with_places(
                    rounded_quotient(
                        self.significand() * 1000,
                        two_to((-self.exponent()) as nat),
                    ),
                )
            })
        }
    }

    /// Appends the number in decimal with three places.
    pub fn push_thousandths(self, text: &mut String)
        ensures
            final(text)@ == old(text)@ + self.thousandths(),
    {
        let magnitude: u32 = self.bits % 0x8000_0000;
        if magnitude > 0x7f80_0000 {
            text.append("NaN");
            return;
        }
        let ghost start = text@;
        if self.bits >= 0x8000_0000 {
            text.append("-");
        } else {
            text.append("");
        }
        let ghost signed = text@;
        if magnitude == 0x7f80_0000 {
            text.append("inf");
            assert(text@ =~= start + self.thousandths());
            return;
        }
        let fraction: u32 = magnitude % 0x80_0000;
        if magnitude < 0x80_0000 {
            proof {
                lemma_two_to_monotonic(40, 149);
                lemma_small_quotient(self.significand() * 1000, 149);
            }
            push_with_places(text, 0, 0);
            assert(text@ =~= start + self.thousandths());
            return;
        }
        let significand: u128 = (fraction + 0x80_0000) as u128;
        let biased: u32 = magnitude / 0x80_0000;
        if biased >= 150 {
            let exponent: u32 = biased - 150;
            assert(exponent <= 104);
            let whole: u128 = shifted(significand, exponent);
            push_with_places(text, whole, 0);
            proof {
                let n = self.significand() * two_to(self.exponent() as nat);
                assert(n == whole);
                assert((n * 1000) / 1000 == n && (n * 1000) % 1000 == 0);
                assert(text@ =~= start + self.thousandths());
            }
        } else {
            let shift: u32 = 150 - biased;
            let product: u128 = significand * 1000;
            if shift > 40 {
                proof {
                    lemma_small_quotient(self.significand() * 1000, shift as nat);
                }
                push_with_places(text, 0, 0);
                assert(text@ =~= start + self.thousandths());
                return;
            }
            let divisor: u128 = shifted(1, shift);
            proof {
                lemma_two_to_monotonic(0, shift as nat);
                assert(1 * two_to(shift as nat) == two_to(shift as nat));
            }
            let quotient: u128 = product / divisor;
            let rest: u128 = product % divisor;
            proof {
                assert(quotient <= product) by (nonlinear_arith)
                    requires
                        divisor >= 1,
                        quotient == product / divisor,
                ;
                lemma_two_to_40();
                lemma_two_to_monotonic(shift as nat, 40);
            }
            let up: bool = 2 * rest > divisor || (2 * rest == divisor && quotient % 2 == 1);
            let rounded: u128 = if up {
                quotient + 1
            } else {
                quotient
            };
            push_with_places(text, rounded / 1000, (rounded % 1000) as u32);
            assert(text@ =~= start + self.thousandths());
        }
    }

    pub fn from_bits(bits: u32) -> (score: Score)
        ensures
            score.bits == bits,
    {
        Score { bits }
    }

    pub fn to_bits(self) -> (bits: u32)
        ensures
            bits == self.bits,
    {
        self.bits
    }

    fn signed(self) -> (r: i64)
        ensures
            r == self.rank(),
    {
        let magnitude: i64 = (self.bits % 0x8000_0000) as i64;
        if self.bits >= 0x8000_0000 {
            -magnitude
        } else {
            magnitude
        }
    }

    /// `self >= other` as single precision numbers compare.
    pub fn at_least(self, other: Score) -> (r: bool)
        ensures
            r == self.spec_at_least(other),
    {
        self.bits % 0x8000_0000 <= 0x7f80_0000 && other.bits % 0x8000_0000 <= 0x7f80_0000
            && self.signed() >= other.signed()
    }

    /// `self < other` as single precision numbers compare.
    pub fn below(self, other: Score) -> (r: bool)
        ensures
            r == self.spec_below(other),
    {
        self.bits % 0x8000_0000 <= 0x7f80_0000 && other.bits % 0x8000_0000 <= 0x7f80_0000
            && self.signed() < other.signed()
    }
}

/// A power of two.
pub open spec fn two_to(k: nat) -> nat
    decreases k,
{
    if k == 0 {
        1
    } else {
        2 * two_to((k - 1) as nat)
    }
}

/// The quotient, rounded to the nearest and in the middle to even.
pub open spec fn rounded_quotient(a: nat, b: nat) -> nat {
    let quotient = a / b;
    let rest = a % b;
    if 2 * rest > b || (2 * rest == b && quotient % 2 == 1) {
        quotient + 1
    } else {
        quotient
    }
}

/// A number of thousandths in decimal with three places.
pub open spec fn with_places(n: nat) -> Seq<char> {
    text::decimal(n / 1000) + "."@ + places(n % 1000)
}

/// Three decimal places.
pub open spec fn places(n: nat) -> Seq<char> {
    seq![
        text::digit((n / 100) as int),
        text::digit((n / 10 % 10) as int),
        text::digit((n % 10) as int),
    ]
}

/// Appends a number with three places.
fn push_with_places(text: &mut String, whole: u128, part: u32)
    requires
        part < 1000,
    ensures
        final(text)@ == old(text)@ + (text::decimal(whole as nat) + "."@ + places(part as nat)),
{
    let ghost start = text@;
    push_decimal(text, whole);
    text.append(".");
    text.push(((part / 100) as u8 + 48) as char);
    text.push(((part / 10 % 10) as u8 + 48) as char);
    text.push(((part % 10) as u8 + 48) as char);
    assert(text@ =~= start + (text::decimal(whole as nat) + "."@ + places(part as nat)));
}

proof fn lemma_two_to_monotonic(a: nat, b: nat)
    requires
        a <= b,
    ensures
        1 <= two_to(a) <= two_to(b),
    decreases b,
{
    if b > 0 {
        if a < b {
            lemma_two_to_monotonic(a, (b - 1) as nat);
        } else {
            lemma_two_to_monotonic((a - 1) as nat, (b - 1) as nat);
        }
    }
}

proof fn lemma_two_to_add(a: nat, b: nat)
    ensures
        two_to(a + b) == two_to(a) * two_to(b),
    decreases b,
{
    if b > 0 {
        lemma_two_to_add(a, (b - 1) as nat);
        let (x, y) = (two_to(a), two_to((b - 1) as nat));
        assert(x * (2 * y) == 2 * (x * y)) by (nonlinear_arith);
    } else {
        assert(two_to(a) * 1 == two_to(a));
    }
}

proof fn lemma_two_to_40()
    ensures
        two_to(40) == 0x100_0000_0000,
{
    reveal_with_fuel(two_to, 21);
    assert(two_to(20) == 0x10_0000);
    lemma_two_to_add(20, 20);
    assert(0x10_0000 * 0x10_0000 == 0x100_0000_0000int) by (nonlinear_arith);
}

proof fn lemma_two_to_104()
    ensures
        two_to(104) == 0x100_0000_0000_0000_0000_0000_0000,
{
    lemma_two_to_40();
    lemma_two_to_add(40, 40);
    reveal_with_fuel(two_to, 25);
    assert(two_to(24) == 0x100_0000);
    lemma_two_to_add(80, 24);
    assert(0x100_0000_0000 * 0x100_0000_0000 == 0x1_0000_0000_0000_0000_0000int)
        by (nonlinear_arith);
    assert(0x1_0000_0000_0000_0000_0000 * 0x100_0000
        == 0x100_0000_0000_0000_0000_0000_0000int) by (nonlinear_arith);
}

/// A significand is far too small for a large divisor.
proof fn lemma_small_quotient(a: nat, k: nat)
    requires
        a < 0x4_0000_0000,
        k >= 40,
    ensures
        rounded_quotient(a, two_to(k)) == 0,
{
    lemma_two_to_40();
    lemma_two_to_monotonic(40, k);
    let b = two_to(k);
    assert(a / b == 0 && a % b == a) by (nonlinear_arith)
        requires
            0 <= a < b,
    ;
}

/// A number times a power of two.
fn shifted(n: u128, k: u32) -> (r: u128)
    requires
        n <= 0xff_ffff,
        k <= 104,
    ensures
        r == n * two_to(k as nat),
{
    let mut r: u128 = n;
    let mut i: u32 = 0;
    assert(two_to(0) == 1);
    assert(n * 1 == n);
    while i < k
        invariant
            n <= 0xff_ffff,
            i <= k <= 104,
            r == n * two_to(i as nat),
        decreases k - i,
    {
        proof {
            lemma_two_to_104();
            lemma_two_to_monotonic((i + 1) as nat, 104);
            let (x, y) = (n as int, two_to(i as nat) as int);
            assert(two_to((i + 1) as nat) == 2 * two_to(i as nat));
            assert(x * (2 * y) == 2 * (x * y)) by (nonlinear_arith);
            let z = 2 * y;
            assert(x * z <= 0xff_ffff * 0x100_0000_0000_0000_0000_0000_0000)
                by (nonlinear_arith)
                requires
                    0 <= x <= 0xff_ffff,
                    0 <= z <= 0x100_0000_0000_0000_0000_0000_0000,
            ;
        }
        r = r * 2;
        i += 1;
    }
    r
}

} // verus!
