//! Exact decimal money.
//!
//! An amount is a whole number of millionths of the currency unit, of any
//! size: sums, differences and percentages never overflow and never round
//! except where a percentage is cut back to whole millionths.

use crate::decimal::{
    add_digits, append_number, append_number_padded, append_numeral, append_padded, canonical, compare_digits, digits_of,
    digits_value, drop_low_digits, half_of_power, lemma_canonical_zero, lemma_low_part_bound,
    lemma_shift_times, lemma_without_digits, mul_digits, numeral, padded, shift, sub_digits,
    trim, with_zeros, without_digits,
};
use vstd::prelude::*;

verus! {

/// Millionths in one currency unit.
pub const UNITS_PER_ONE: u64 = 1_000_000;

/// Billionths in a rate of one (100%).
pub const RATE_ONE: i64 = 1_000_000_000;

/// The quotient of `x` by the positive `d`, rounded toward zero.
pub open spec fn truncated_quotient(x: int, d: int) -> int {
    if x >= 0 {
        x / d
    } else {
        -((-x) / d)
    }
}

/// What `amount` millionths times a rate of `rate` billionths comes to, in whole
/// millionths, the fraction cut off.
pub open spec fn portion(amount: int, rate: int) -> int {
    truncated_quotient(amount * rate, RATE_ONE as int)
}

/// The magnitude `magnitude` in millionths as a whole number of units of the
/// `places`-th decimal place: padded with zeros where `places` is more than
/// six, and rounded to the nearest unit, a half away from zero, where it is
/// less.
pub open spec fn rounded(magnitude: nat, places: nat) -> nat {
    if places >= 6 {
        shift(magnitude as int, (places - 6) as nat) as nat
    } else {
        without_digits(
            (magnitude + shift(5, (5 - places) as nat)) as nat,
            (6 - places) as nat,
        )
    }
}

/// The text of an amount of `value` millionths with `places` decimals: `$`, a
/// `-` for an amount below zero, the whole units, and, where `places` is not
/// zero, a `.` and the decimals.
pub open spec fn money_text(value: int, places: nat) -> Seq<char> {
    let magnitude = (if value < 0 {
        -value
    } else {
        value
    }) as nat;
    let shown = rounded(magnitude, places);
    seq!['$'] + (if value < 0 {
        seq!['-']
    } else {
        Seq::empty()
    }) + numeral(without_digits(shown, places)) + (if places > 0 {
        seq!['.'] + padded(shown, places)
    } else {
        Seq::empty()
    })
}

/// A number of `width` decimals without the zeros at its end: what is left of
/// the number, and how many decimals are left.
pub open spec fn without_end_zeros(decimals: nat, width: nat) -> (nat, nat)
    decreases width,
{
    if width > 0 && decimals % 10 == 0 {
        without_end_zeros(decimals / 10, (width - 1) as nat)
    } else {
        (decimals, width)
    }
}

/// The text of a rate of `rate` billionths as a decimal number: a `-` for a
/// rate below zero, the whole part, and, where the rate is not whole, a `.`
/// and the decimals up to the last one that is not zero.
pub open spec fn rate_text(rate: int) -> Seq<char> {
    let magnitude = (if rate < 0 {
        -rate
    } else {
        rate
    }) as nat;
    let decimals = magnitude % 1_000_000_000;
    let shown = without_end_zeros(decimals, 9);
    (if rate < 0 {
        seq!['-']
    } else {
        Seq::empty()
    }) + numeral(magnitude / 1_000_000_000) + (if decimals > 0 {
        seq!['.'] + padded(shown.0, shown.1)
    } else {
        Seq::empty()
    })
}

/// The text of a rate of `rate` billionths in hundredths, with two decimals,
/// rounded to the nearest, a half away from zero: a `-` for a rate below
/// zero, the whole hundredths, a `.` and two decimals.
pub open spec fn percent_text(rate: int) -> Seq<char> {
    let magnitude = (if rate < 0 {
        -rate
    } else {
        rate
    }) as nat;
    let shown = (magnitude + 50_000) / 100_000;
    (if rate < 0 {
        seq!['-']
    } else {
        Seq::empty()
    }) + numeral(shown / 100) + seq!['.'] + padded(shown, 2)
}

/// The sum of the amounts.
pub open spec fn amounts_sum(amounts: Seq<int>) -> int
    decreases amounts.len(),
{
    if amounts.len() == 0 {
        0
    } else {
        amounts_sum(amounts.drop_last()) + amounts.last()
    }
}

/// The amounts of a list of money.
pub open spec fn amounts_of(items: Seq<Money>) -> Seq<int> {
    Seq::new(items.len(), |i: int| items[i]@)
}

/// A rate such as a percentage or an interest rate, in billionths.
#[derive(Clone, Copy, Debug, PartialEq, Eq, Structural)]
pub struct Rate {
    pub billionths: i64,
}

impl View for Rate {
    type V = int;

    open spec fn view(&self) -> int {
        self.billionths as int
    }
}

impl Rate {
    /// The rate of the given number of billionths.
    pub fn new(billionths: i64) -> (rate: Rate)
        ensures
            rate@ == billionths,
    {
        Rate { billionths }
    }

    /// The size of the rate without its sign.
    fn magnitude(self) -> (m: u64)
        ensures
            m == if self@ < 0 {
                -self@
            } else {
                self@
            },
    {
        if self.billionths < 0 {
            ((-(self.billionths + 1)) as u64) + 1
        } else {
            self.billionths as u64
        }
    }

    /// The rate as a decimal number.
    pub fn to_string(&self) -> (text: String)
        ensures
            text@ == rate_text(self@),
    {
        let magnitude = self.magnitude();
        let mut text = String::new();
        proof {
            reveal_strlit("-");
            reveal_strlit(".");
            assert("-"@ =~= seq!['-']);
            assert("."@ =~= seq!['.']);
        }
        if self.billionths < 0 {
            text.append("-");
        }
        append_number(&mut text, magnitude / 1_000_000_000);
        let decimals: u64 = magnitude % 1_000_000_000;
        if decimals > 0 {
            let mut shown: u64 = decimals;
            let mut width: usize = 9;
            while width > 0 && shown % 10 == 0
                invariant
                    without_end_zeros(shown as nat, width as nat) == without_end_zeros(
                        decimals as nat,
                        9,
                    ),
                decreases width,
            {
                shown = shown / 10;
                width = width - 1;
            }
            text.append(".");
            append_number_padded(&mut text, shown, width);
        }
        proof {
            assert(text@ =~= rate_text(self@));
        }
        text
    }

    /// The rate in hundredths, with two decimals.
    pub fn percent(&self) -> (text: String)
        ensures
            text@ == percent_text(self@),
    {
        let magnitude = self.magnitude();
        let shown: u64 = (magnitude / 100_000) + (if magnitude % 100_000 >= 50_000 {
            1u64
        } else {
            0u64
        });
        assert(shown == (magnitude + 50_000) / 100_000);
        let mut text = String::new();
        proof {
            reveal_strlit("-");
            reveal_strlit(".");
            assert("-"@ =~= seq!['-']);
            assert("."@ =~= seq!['.']);
        }
        if self.billionths < 0 {
            text.append("-");
        }
        append_number(&mut text, shown / 100);
        text.append(".");
        append_number_padded(&mut text, shown, 2);
        proof {
            assert(text@ =~= percent_text(self@));
        }
        text
    }

    /// The rate of `percent` in a hundred.
    pub fn from_percent(percent: i32) -> (rate: Rate)
        ensures
            rate@ == percent * 10_000_000,
    {
        Rate { billionths: (percent as i64) * 10_000_000 }
    }
}

/// An amount of money: a signed whole number of millionths.
#[derive(Debug, PartialEq, Eq)]
pub struct Money {
    negative: bool,
    digits: Vec<u8>,
}

impl View for Money {
    type V = int;

    /// The amount in millionths.
    closed spec fn view(&self) -> int {
        if self.negative {
            -(digits_value(self.digits@) as int)
        } else {
            digits_value(self.digits@) as int
        }
    }
}

impl Clone for Money {
    fn clone(&self) -> (copy: Money)
        ensures
            copy@ == self@,
    {
        proof {
            use_type_invariant(self);
        }
        let digits = self.digits.clone();
        assert(digits@ =~= self.digits@);
        Money { negative: self.negative, digits }
    }
}

impl Money {
    /// The magnitude has no leading zeros, and zero has no sign.
    #[verifier::type_invariant]
    spec fn wf(self) -> bool {
        &&& canonical(self.digits@)
        &&& self.digits@.len() == 0 ==> !self.negative
    }

    /// Builds the amount with the given sign and magnitude.
    fn signed(negative: bool, digits: Vec<u8>) -> (money: Money)
        requires
            canonical(digits@),
        ensures
            money@ == if negative {
                -(digits_value(digits@) as int)
            } else {
                digits_value(digits@) as int
            },
    {
        if digits.len() == 0 {
            Money { negative: false, digits }
        } else {
            Money { negative, digits }
        }
    }

    /// No money.
    pub fn zero() -> (money: Money)
        ensures
            money@ == 0,
    {
        Money { negative: false, digits: Vec::new() }
    }

    /// The amount of `units` millionths.
    pub fn from_units(units: i64) -> (money: Money)
        ensures
            money@ == units,
    {
        if units < 0 {
            let magnitude: u64 = ((-(units + 1)) as u64) + 1;
            Money::signed(true, digits_of(magnitude))
        } else {
            Money::signed(false, digits_of(units as u64))
        }
    }

    /// The amount of `value` whole currency units.
    pub fn from_i32(value: i32) -> (money: Money)
        ensures
            money@ == value * UNITS_PER_ONE,
    {
        Money::from_units((value as i64) * 1_000_000)
    }

    /// The amount of `value` whole currency units.
    pub fn from_u32(value: u32) -> (money: Money)
        ensures
            money@ == value * UNITS_PER_ONE,
    {
        Money::from_units((value as i64) * 1_000_000)
    }

    /// The amount of `value` whole currency units, where `value` is no more
    /// than an `i32` holds.
    pub fn from_i64(value: i64) -> (money: Option<Money>)
        ensures
            match money {
                Some(m) => i32::MIN <= value <= i32::MAX && m@ == value * UNITS_PER_ONE,
                None => value < i32::MIN || value > i32::MAX,
            },
    {
        if value >= -2_147_483_648 && value <= 2_147_483_647 {
            Some(Money::from_units(value * 1_000_000))
        } else {
            None
        }
    }

    /// The amount of `value` whole currency units, where `value` is no more
    /// than a `u32` holds.
    pub fn from_u64(value: u64) -> (money: Option<Money>)
        ensures
            match money {
                Some(m) => value <= u32::MAX && m@ == value * UNITS_PER_ONE,
                None => value > u32::MAX,
            },
    {
        if value <= 4_294_967_295 {
            Some(Money::from_units((value * 1_000_000) as i64))
        } else {
            None
        }
    }

    /// The sum of the given amounts.
    pub fn sum(items: Vec<Money>) -> (sum: Money)
        ensures
            sum@ == amounts_sum(amounts_of(items@)),
    {
        let mut result = Money::zero();
        let mut i: usize = 0;
        proof {
            assert(amounts_of(items@).take(0) =~= Seq::<int>::empty());
        }
        while i < items.len()
            invariant
                i <= items@.len(),
                result@ == amounts_sum(amounts_of(items@).take(i as int)),
            decreases items@.len() - i,
        {
            proof {
                let all = amounts_of(items@);
                assert(all.take(i + 1).drop_last() =~= all.take(i as int));
            }
            result = result.plus(&items[i]);
            i = i + 1;
        }
        proof {
            assert(amounts_of(items@).take(i as int) =~= amounts_of(items@));
        }
        result
    }

    /// Whether the amount is below zero.
    pub fn is_negative(&self) -> (b: bool)
        ensures
            b == (self@ < 0),
    {
        proof {
            use_type_invariant(self);
            lemma_canonical_zero(self.digits@);
        }
        self.negative
    }

    /// Whether the amount is zero.
    pub fn is_zero(&self) -> (b: bool)
        ensures
            b == (self@ == 0),
    {
        proof {
            use_type_invariant(self);
            lemma_canonical_zero(self.digits@);
        }
        self.digits.len() == 0
    }

    /// The sum of two amounts, both left in place.
    pub fn plus(&self, other: &Money) -> (sum: Money)
        ensures
            sum@ == self@ + other@,
    {
        proof {
            use_type_invariant(self);
            use_type_invariant(other);
        }
        if self.negative == other.negative {
            Money::signed(self.negative, add_digits(&self.digits, &other.digits))
        } else {
            let (less, _same) = compare_digits(&self.digits, &other.digits);
            if less {
                Money::signed(other.negative, sub_digits(&other.digits, &self.digits))
            } else {
                Money::signed(self.negative, sub_digits(&self.digits, &other.digits))
            }
        }
    }

    /// The amount with its sign turned; this amount is left in place.
    pub fn negated(&self) -> (opposite: Money)
        ensures
            opposite@ == -self@,
    {
        proof {
            use_type_invariant(self);
        }
        let digits = self.digits.clone();
        assert(digits@ =~= self.digits@);
        Money::signed(!self.negative, digits)
    }

    /// The difference of two amounts, both left in place.
    pub fn minus(&self, other: &Money) -> (difference: Money)
        ensures
            difference@ == self@ - other@,
    {
        let opposite = other.negated();
        self.plus(&opposite)
    }

    /// The sum of two amounts.
    pub fn add(self, rhs: Money) -> (sum: Money)
        ensures
            sum@ == self@ + rhs@,
    {
        self.plus(&rhs)
    }

    /// The difference of two amounts.
    pub fn sub(self, rhs: Money) -> (difference: Money)
        ensures
            difference@ == self@ - rhs@,
    {
        self.minus(&rhs)
    }

    /// The amount with its sign turned.
    pub fn neg(self) -> (opposite: Money)
        ensures
            opposite@ == -self@,
    {
        self.negated()
    }

    /// Adds `other` to this amount.
    pub fn add_assign(&mut self, other: Money)
        ensures
            final(self)@ == old(self)@ + other@,
    {
        let sum = self.plus(&other);
        *self = sum;
    }

    /// Takes `other` from this amount.
    pub fn sub_assign(&mut self, other: Money)
        ensures
            final(self)@ == old(self)@ - other@,
    {
        let difference = self.minus(&other);
        *self = difference;
    }

    /// The given share of the amount, cut back to whole millionths.
    pub fn mul_percent(self, percentage: Rate) -> (share: Money)
        ensures
            share@ == portion(self@, percentage@),
    {
        proof {
            use_type_invariant(&self);
        }
        let rate_negative = percentage.billionths < 0;
        let factor: u64 = if rate_negative {
            ((-(percentage.billionths + 1)) as u64) + 1
        } else {
            percentage.billionths as u64
        };
        let product = mul_digits(&self.digits, factor);
        let quotient = trim(drop_low_digits(&product, 9));
        proof {
            let m = digits_value(self.digits@) as int;
            let p = digits_value(product@) as int;
            let q = digits_value(quotient@) as int;
            lemma_low_part_bound(product@, 9);
            assert(shift(1, 9) == 1_000_000_000) by {
                reveal_with_fuel(shift, 10);
            }
            lemma_shift_times(1, q, 9);
            assert(shift(q, 9) == q * 1_000_000_000) by {
                assert(1 * q == q);
            }
            assert(q == p / 1_000_000_000);
            assert(p == m * factor);
            let r = percentage@;
            if self.negative == rate_negative {
                assert(self@ * r == m * factor) by (nonlinear_arith)
                    requires
                        (self@ == m && r == factor) || (self@ == -m && r == -factor),
                ;
            } else {
                assert(-(self@ * r) == m * factor) by (nonlinear_arith)
                    requires
                        (self@ == m && r == -factor) || (self@ == -m && r == factor),
                ;
            }
            lemma_canonical_zero(quotient@);
        }
        Money::signed(self.negative != rate_negative, quotient)
    }

    /// The amount as text with `precision` decimals.
    pub fn format(&self, precision: usize) -> (text: String)
        ensures
            text@ == money_text(self@, precision as nat),
    {
        proof {
            use_type_invariant(self);
            lemma_canonical_zero(self.digits@);
        }
        let shown: Vec<u8> = if precision >= 6 {
            with_zeros(&self.digits, precision - 6)
        } else {
            let cut: usize = 6 - precision;
            let raised = add_digits(&self.digits, &half_of_power(cut - 1));
            proof {
                lemma_without_digits(raised@, cut as nat);
            }
            drop_low_digits(&raised, cut)
        };
        assert(digits_value(shown@) == rounded(digits_value(self.digits@), precision as nat));
        proof {
            lemma_without_digits(shown@, precision as nat);
        }
        let whole = trim(drop_low_digits(&shown, precision));
        let mut text = "$".to_owned();
        proof {
            reveal_strlit("$");
            reveal_strlit("-");
            reveal_strlit(".");
            assert("$"@ =~= seq!['$']);
            assert("-"@ =~= seq!['-']);
            assert("."@ =~= seq!['.']);
        }
        if self.negative {
            text.append("-");
        }
        append_numeral(&mut text, &whole);
        if precision > 0 {
            text.append(".");
            append_padded(&mut text, &shown, precision);
        }
        proof {
            assert(text@ =~= money_text(self@, precision as nat));
        }
        text
    }

    /// The amount as text with two decimals.
    pub fn to_string(&self) -> (text: String)
        ensures
            text@ == money_text(self@, 2),
    {
        self.format(2)
    }

    /// Whether this amount is less than `other`.
    pub fn less_than(&self, other: &Money) -> (b: bool)
        ensures
            b == (self@ < other@),
    {
        proof {
            use_type_invariant(self);
            use_type_invariant(other);
            lemma_canonical_zero(self.digits@);
            lemma_canonical_zero(other.digits@);
        }
        if self.negative != other.negative {
            self.negative
        } else {
            let (less, same) = compare_digits(&self.digits, &other.digits);
            if self.negative {
                !less && !same
            } else {
                less
            }
        }
    }

    /// Whether the two amounts are the same.
    pub fn equals(&self, other: &Money) -> (b: bool)
        ensures
            b == (self@ == other@),
    {
        proof {
            use_type_invariant(self);
            use_type_invariant(other);
            lemma_canonical_zero(self.digits@);
            lemma_canonical_zero(other.digits@);
        }
        if self.negative != other.negative {
            false
        } else {
            let (_less, same) = compare_digits(&self.digits, &other.digits);
            same
        }
    }
}

} // verus!
