//! Unbounded natural numbers as little-endian sequences of decimal digits.
//!
//! `Money` keeps its magnitude in this form so that ledger arithmetic is exact
//! and never overflows.

use vstd::prelude::*;

verus! {

/// `x` times ten to the power `n`.
pub open spec fn shift(x: int, n: nat) -> int
    decreases n,
{
    if n == 0 {
        x
    } else {
        10 * shift(x, (n - 1) as nat)
    }
}

/// The number written by the digits `s`, least significant digit first.
pub open spec fn digits_value(s: Seq<u8>) -> nat
    decreases s.len(),
{
    if s.len() == 0 {
        0
    } else {
        s[0] as nat + 10 * digits_value(s.drop_first())
    }
}

/// Every element is a decimal digit.
pub open spec fn all_digits(s: Seq<u8>) -> bool {
    forall|i: int| 0 <= i < s.len() ==> s[i] < 10
}

/// Decimal digits without a leading zero (the most significant digit is last).
pub open spec fn canonical(s: Seq<u8>) -> bool {
    all_digits(s) && (s.len() > 0 ==> s.last() != 0)
}

/// The digit of weight `10^i`, zero beyond the end.
pub open spec fn digit_at(s: Seq<u8>, i: int) -> int {
    if 0 <= i < s.len() {
        s[i] as int
    } else {
        0
    }
}

/// The number written by the `i` least significant digits of `s`.
pub open spec fn low_part(s: Seq<u8>, i: int) -> nat {
    if 0 <= i < s.len() {
        digits_value(s.take(i))
    } else {
        digits_value(s)
    }
}

/// Shifting is additive.
pub proof fn lemma_shift_add(x: int, y: int, n: nat)
    ensures
        shift(x + y, n) == shift(x, n) + shift(y, n),
    decreases n,
{
    if n > 0 {
        lemma_shift_add(x, y, (n - 1) as nat);
    }
}

/// Zero stays zero when it is shifted.
pub proof fn lemma_shift_zero(n: nat)
    ensures
        shift(0, n) == 0,
    decreases n,
{
    if n > 0 {
        lemma_shift_zero((n - 1) as nat);
    }
}

/// A factor of ten is one more place.
pub proof fn lemma_shift_ten(x: int, n: nat)
    ensures
        shift(10 * x, n) == shift(x, n + 1),
    decreases n,
{
    assert(shift(x, n + 1) == 10 * shift(x, n));
    if n > 0 {
        lemma_shift_ten(x, (n - 1) as nat);
    }
}

/// Shifting keeps the order.
pub proof fn lemma_shift_monotonic(x: int, y: int, n: nat)
    requires
        x <= y,
    ensures
        shift(x, n) <= shift(y, n),
    decreases n,
{
    if n > 0 {
        lemma_shift_monotonic(x, y, (n - 1) as nat);
    }
}

/// A factor can be applied before or after shifting.
pub proof fn lemma_shift_times(x: int, k: int, n: nat)
    ensures
        shift(x, n) * k == shift(x * k, n),
    decreases n,
{
    if n > 0 {
        lemma_shift_times(x, k, (n - 1) as nat);
        let s = shift(x, (n - 1) as nat);
        assert((10 * s) * k == 10 * (s * k)) by (nonlinear_arith);
    }
}

/// Appending a digit at the most significant end adds that digit at its weight.
pub proof fn lemma_value_push(s: Seq<u8>, d: u8)
    ensures
        digits_value(s.push(d)) == digits_value(s) + shift(d as int, s.len()),
    decreases s.len(),
{
    let t = s.push(d);
    assert(digits_value(t) == t[0] as nat + 10 * digits_value(t.drop_first()));
    if s.len() == 0 {
        assert(t.drop_first() =~= Seq::<u8>::empty());
        assert(digits_value(t.drop_first()) == 0);
    } else {
        assert(t.drop_first() =~= s.drop_first().push(d));
        lemma_value_push(s.drop_first(), d);
        assert(shift(d as int, s.len()) == 10 * shift(d as int, (s.len() - 1) as nat));
    }
}

/// `n` decimal digits write a number below `10^n`.
pub proof fn lemma_value_bound(s: Seq<u8>)
    requires
        all_digits(s),
    ensures
        digits_value(s) < shift(1, s.len()),
    decreases s.len(),
{
    if s.len() > 0 {
        lemma_value_bound(s.drop_first());
    }
}

/// One more digit of `s` taken into the low part.
pub proof fn lemma_low_part_step(s: Seq<u8>, i: int)
    requires
        0 <= i,
    ensures
        low_part(s, i + 1) == low_part(s, i) + shift(digit_at(s, i), i as nat),
{
    if i < s.len() {
        assert(s.take(i).push(s[i]) =~= s.take(i + 1));
        lemma_value_push(s.take(i), s[i]);
        if i + 1 == s.len() {
            assert(s.take(i + 1) =~= s);
        }
    } else {
        lemma_shift_zero(i as nat);
    }
}

/// The `i` least significant digits write a number below `10^i`.
pub proof fn lemma_low_part_bound(s: Seq<u8>, i: int)
    requires
        all_digits(s),
        0 <= i,
    ensures
        low_part(s, i) < shift(1, i as nat),
    decreases i,
{
    if i < s.len() {
        lemma_value_bound(s.take(i));
    } else {
        lemma_value_bound(s);
        lemma_power_monotonic(s.len(), i as nat);
    }
}

/// Powers of ten grow with the exponent.
pub proof fn lemma_power_monotonic(m: nat, n: nat)
    requires
        m <= n,
    ensures
        1 <= shift(1, m) <= shift(1, n),
    decreases n,
{
    if n == 0 {
    } else if m == n {
        lemma_power_monotonic((m - 1) as nat, (n - 1) as nat);
    } else {
        lemma_power_monotonic(m, (n - 1) as nat);
    }
}

/// The low digits and the remaining high digits add up to the whole number.
pub proof fn lemma_value_split(s: Seq<u8>, n: int)
    requires
        0 <= n <= s.len(),
    ensures
        digits_value(s) == digits_value(s.take(n)) + shift(digits_value(s.skip(n)) as int, n as nat),
    decreases n,
{
    if n == 0 {
        assert(s.skip(0) =~= s);
        assert(s.take(0) =~= Seq::<u8>::empty());
    } else {
        let t = s.drop_first();
        lemma_value_split(t, n - 1);
        assert(t.take(n - 1) =~= s.take(n).drop_first());
        assert(t.skip(n - 1) =~= s.skip(n));
        assert(s.take(n)[0] == s[0]);
        lemma_shift_ten(digits_value(s.skip(n)) as int, (n - 1) as nat);
        let h = digits_value(s.skip(n)) as int;
        assert(shift(h, n as nat) == 10 * shift(h, (n - 1) as nat));
    }
}

/// A canonical non-empty digit string writes a number of at least `10^(len-1)`.
pub proof fn lemma_value_lower_bound(s: Seq<u8>)
    requires
        canonical(s),
        s.len() > 0,
    ensures
        digits_value(s) >= shift(1, (s.len() - 1) as nat),
{
    let n = s.len() - 1;
    assert(s.drop_last().push(s.last()) =~= s);
    lemma_value_push(s.drop_last(), s.last());
    lemma_shift_monotonic(1, s.last() as int, n as nat);
}

/// A canonical digit string is empty exactly when it writes zero.
pub proof fn lemma_canonical_zero(s: Seq<u8>)
    requires
        canonical(s),
    ensures
        digits_value(s) == 0 <==> s.len() == 0,
{
    if s.len() > 0 {
        lemma_value_lower_bound(s);
        lemma_power_monotonic(0, (s.len() - 1) as nat);
    }
}

/// Removes leading zeros (they stand at the end of the vector).
pub(crate) fn trim(digits: Vec<u8>) -> (out: Vec<u8>)
    requires
        all_digits(digits@),
    ensures
        canonical(out@),
        digits_value(out@) == digits_value(digits@),
{
    let mut out = digits;
    while out.len() > 0 && out[out.len() - 1] == 0
        invariant
            all_digits(out@),
            digits_value(out@) == digits_value(digits@),
        decreases out.len(),
    {
        proof {
            assert(out@.drop_last().push(0u8) =~= out@);
            lemma_value_push(out@.drop_last(), 0u8);
            lemma_shift_zero((out@.len() - 1) as nat);
        }
        out.pop();
    }
    out
}

/// The decimal digits of `n`.
pub(crate) fn digits_of(n: u64) -> (out: Vec<u8>)
    ensures
        canonical(out@),
        digits_value(out@) == n,
{
    let mut out: Vec<u8> = Vec::new();
    let mut rest: u64 = n;
    while rest > 0
        invariant
            all_digits(out@),
            out@.len() > 0 ==> out@.last() != 0 || rest > 0,
            digits_value(out@) + shift(rest as int, out@.len()) == n,
        decreases rest,
    {
        let d: u8 = (rest % 10) as u8;
        proof {
            lemma_value_push(out@, d);
            lemma_shift_add(d as int, 10 * (rest / 10) as int, out@.len());
            lemma_shift_ten((rest / 10) as int, out@.len());
        }
        out.push(d);
        rest = rest / 10;
    }
    proof {
        lemma_shift_zero(out@.len());
    }
    out
}

/// Adds two digit strings.
pub(crate) fn add_digits(a: &Vec<u8>, b: &Vec<u8>) -> (out: Vec<u8>)
    requires
        all_digits(a@),
        all_digits(b@),
    ensures
        canonical(out@),
        digits_value(out@) == digits_value(a@) + digits_value(b@),
{
    let mut out: Vec<u8> = Vec::new();
    let mut carry: u8 = 0;
    let mut i: usize = 0;
    while i < a.len() || i < b.len()
        invariant
            all_digits(a@),
            all_digits(b@),
            all_digits(out@),
            out@.len() == i,
            carry <= 1,
            digits_value(out@) + shift(carry as int, i as nat) == low_part(a@, i as int) + low_part(
                b@,
                i as int,
            ),
        decreases a.len() + b.len() - i,
    {
        let da: u8 = if i < a.len() {
            a[i]
        } else {
            0
        };
        let db: u8 = if i < b.len() {
            b[i]
        } else {
            0
        };
        let t: u8 = da + db + carry;
        let d: u8 = if t >= 10 {
            t - 10
        } else {
            t
        };
        let next: u8 = if t >= 10 {
            1
        } else {
            0
        };
        proof {
            let n = i as nat;
            lemma_low_part_step(a@, i as int);
            lemma_low_part_step(b@, i as int);
            lemma_value_push(out@, d);
            lemma_shift_add(da as int, db as int, n);
            lemma_shift_add(da as int + db as int, carry as int, n);
            lemma_shift_add(d as int, 10 * next as int, n);
            lemma_shift_ten(next as int, n);
        }
        out.push(d);
        carry = next;
        i = i + 1;
    }
    if carry > 0 {
        proof {
            lemma_value_push(out@, carry);
        }
        out.push(carry);
    } else {
        proof {
            lemma_shift_zero(i as nat);
        }
    }
    trim(out)
}

/// Subtracts the digit string `b` from `a`, which must not write a smaller number.
pub(crate) fn sub_digits(a: &Vec<u8>, b: &Vec<u8>) -> (out: Vec<u8>)
    requires
        all_digits(a@),
        all_digits(b@),
        digits_value(a@) >= digits_value(b@),
    ensures
        canonical(out@),
        digits_value(out@) == digits_value(a@) - digits_value(b@),
{
    let mut out: Vec<u8> = Vec::new();
    let mut borrow: u8 = 0;
    let mut i: usize = 0;
    while i < a.len() || i < b.len()
        invariant
            all_digits(a@),
            all_digits(b@),
            all_digits(out@),
            out@.len() == i,
            borrow <= 1,
            digits_value(out@) - shift(borrow as int, i as nat) == low_part(a@, i as int)
                - low_part(b@, i as int),
        decreases a.len() + b.len() - i,
    {
        let da: u8 = if i < a.len() {
            a[i]
        } else {
            0
        };
        let db: u8 = if i < b.len() {
            b[i]
        } else {
            0
        };
        let take: u8 = db + borrow;
        let d: u8 = if da >= take {
            da - take
        } else {
            da + 10 - take
        };
        let next: u8 = if da >= take {
            0
        } else {
            1
        };
        proof {
            let n = i as nat;
            lemma_low_part_step(a@, i as int);
            lemma_low_part_step(b@, i as int);
            lemma_value_push(out@, d);
            lemma_shift_add(db as int, borrow as int, n);
            lemma_shift_add(d as int, take as int, n);
            lemma_shift_add(da as int, 10 * next as int, n);
            lemma_shift_ten(next as int, n);
        }
        out.push(d);
        borrow = next;
        i = i + 1;
    }
    proof {
        lemma_value_bound(out@);
        lemma_shift_zero(i as nat);
    }
    trim(out)
}

/// Compares the numbers written by two digit strings.
pub(crate) fn compare_digits(a: &Vec<u8>, b: &Vec<u8>) -> (r: (bool, bool))
    requires
        all_digits(a@),
        all_digits(b@),
    ensures
        r.0 == (digits_value(a@) < digits_value(b@)),
        r.1 == (digits_value(a@) == digits_value(b@)),
{
    let mut less = false;
    let mut same = true;
    let mut i: usize = 0;
    while i < a.len() || i < b.len()
        invariant
            all_digits(a@),
            all_digits(b@),
            less == (low_part(a@, i as int) < low_part(b@, i as int)),
            same == (low_part(a@, i as int) == low_part(b@, i as int)),
        decreases a.len() + b.len() - i,
    {
        let da: u8 = if i < a.len() {
            a[i]
        } else {
            0
        };
        let db: u8 = if i < b.len() {
            b[i]
        } else {
            0
        };
        proof {
            let n = i as nat;
            lemma_low_part_step(a@, i as int);
            lemma_low_part_step(b@, i as int);
            lemma_low_part_bound(a@, i as int);
            lemma_low_part_bound(b@, i as int);
            if da < db {
                lemma_shift_add(da as int, 1, n);
                lemma_shift_monotonic(da as int + 1, db as int, n);
            } else if db < da {
                lemma_shift_add(db as int, 1, n);
                lemma_shift_monotonic(db as int + 1, da as int, n);
            }
        }
        if da < db {
            less = true;
            same = false;
        } else if db < da {
            less = false;
            same = false;
        }
        i = i + 1;
    }
    (less, same)
}

/// Multiplies a digit string by `k`.
pub(crate) fn mul_digits(a: &Vec<u8>, k: u64) -> (out: Vec<u8>)
    requires
        all_digits(a@),
    ensures
        canonical(out@),
        digits_value(out@) == digits_value(a@) * k,
{
    let mut out: Vec<u8> = Vec::new();
    let mut carry: u128 = 0;
    let mut i: usize = 0;
    proof {
        let zero = low_part(a@, 0);
        assert(zero == 0);
        assert(zero * k == 0) by (nonlinear_arith)
            requires
                zero == 0,
        ;
    }
    while i < a.len()
        invariant
            all_digits(a@),
            all_digits(out@),
            out@.len() == i,
            i <= a.len(),
            carry <= k,
            digits_value(out@) + shift(carry as int, i as nat) == low_part(a@, i as int) * k,
        decreases a.len() - i,
    {
        let da: u8 = a[i];
        assert(da as int * k as int <= 9 * k as int) by (nonlinear_arith)
            requires
                0 <= da <= 9,
                0 <= k,
        ;
        let t: u128 = (da as u128) * (k as u128) + carry;
        let d: u8 = (t % 10) as u8;
        let next: u128 = t / 10;
        proof {
            let n = i as nat;
            lemma_low_part_step(a@, i as int);
            lemma_value_push(out@, d);
            lemma_shift_times(da as int, k as int, n);
            lemma_shift_add(da as int * k as int, carry as int, n);
            lemma_shift_add(d as int, 10 * next as int, n);
            lemma_shift_ten(next as int, n);
            assert((low_part(a@, i as int) + shift(da as int, n)) * k == low_part(a@, i as int) * k
                + shift(da as int, n) * k) by (nonlinear_arith);
        }
        out.push(d);
        carry = next;
        i = i + 1;
    }
    while carry > 0
        invariant
            all_digits(out@),
            digits_value(out@) + shift(carry as int, out@.len()) == digits_value(a@) * k,
        decreases carry,
    {
        let d: u8 = (carry % 10) as u8;
        proof {
            lemma_value_push(out@, d);
            lemma_shift_add(d as int, 10 * (carry / 10) as int, out@.len());
            lemma_shift_ten((carry / 10) as int, out@.len());
        }
        out.push(d);
        carry = carry / 10;
    }
    proof {
        lemma_shift_zero(out@.len());
    }
    trim(out)
}

/// Drops the `n` least significant digits: the quotient by `10^n`.
pub(crate) fn drop_low_digits(a: &Vec<u8>, n: usize) -> (out: Vec<u8>)
    requires
        all_digits(a@),
    ensures
        all_digits(out@),
        n <= a@.len() ==> out@ == a@.skip(n as int),
        n > a@.len() ==> out@.len() == 0,
        digits_value(a@) == low_part(a@, n as int) + shift(digits_value(out@) as int, n as nat),
{
    let mut out: Vec<u8> = Vec::new();
    let mut i: usize = n;
    while i < a.len()
        invariant
            all_digits(a@),
            n <= i,
            n <= a@.len() ==> i <= a@.len() && out@ == a@.subrange(n as int, i as int),
            n > a@.len() ==> out@.len() == 0,
        decreases a.len() - i,
    {
        proof {
            assert(a@.subrange(n as int, i as int).push(a@[i as int]) =~= a@.subrange(
                n as int,
                i + 1,
            ));
        }
        out.push(a[i]);
        i = i + 1;
    }
    proof {
        if n <= a@.len() {
            assert(a@.subrange(n as int, a@.len() as int) =~= a@.skip(n as int));
            lemma_value_split(a@, n as int);
            if n == a@.len() {
                assert(a@.take(n as int) =~= a@);
            }
        } else {
            lemma_shift_zero(n as nat);
        }
    }
    out
}

/// The character of a decimal digit.
pub open spec fn digit_char(d: int) -> char {
    if d == 0 {
        '0'
    } else if d == 1 {
        '1'
    } else if d == 2 {
        '2'
    } else if d == 3 {
        '3'
    } else if d == 4 {
        '4'
    } else if d == 5 {
        '5'
    } else if d == 6 {
        '6'
    } else if d == 7 {
        '7'
    } else if d == 8 {
        '8'
    } else {
        '9'
    }
}

/// The decimal numeral of `n`, without leading zeros.
pub open spec fn numeral(n: nat) -> Seq<char>
    decreases n,
{
    if n < 10 {
        seq![digit_char(n as int)]
    } else {
        numeral(n / 10).push(digit_char((n % 10) as int))
    }
}

/// The last `width` digits of the decimal numeral of `n`, with zeros in front
/// where the numeral is shorter.
pub open spec fn padded(n: nat, width: nat) -> Seq<char>
    decreases width,
{
    if width == 0 {
        Seq::empty()
    } else {
        padded(n / 10, (width - 1) as nat).push(digit_char((n % 10) as int))
    }
}

/// `n` without its last `count` decimal digits.
pub open spec fn without_digits(n: nat, count: nat) -> nat
    decreases count,
{
    if count == 0 {
        n
    } else {
        without_digits(n / 10, (count - 1) as nat)
    }
}

/// The digits of `s` from the most significant on, as characters.
pub open spec fn digits_text(s: Seq<u8>) -> Seq<char> {
    Seq::new(s.len(), |i: int| digit_char(s[s.len() - 1 - i] as int))
}

/// The `width` least significant digits of `s` from the most significant of
/// them on, as characters.
pub open spec fn low_digits_text(s: Seq<u8>, width: nat) -> Seq<char> {
    Seq::new(width, |i: int| digit_char(digit_at(s, width - 1 - i)))
}

/// The least significant digit is the remainder by ten, the other digits
/// write the quotient.
pub proof fn lemma_value_by_ten(s: Seq<u8>)
    requires
        all_digits(s),
    ensures
        digits_value(s) % 10 == digit_at(s, 0),
        s.len() > 0 ==> digits_value(s) / 10 == digits_value(s.drop_first()),
        s.len() == 0 ==> digits_value(s) / 10 == 0,
{
}

/// Dropping digits of the string drops digits of the number.
pub proof fn lemma_without_digits(s: Seq<u8>, count: nat)
    requires
        all_digits(s),
    ensures
        without_digits(digits_value(s), count) == if count <= s.len() {
            digits_value(s.skip(count as int))
        } else {
            0
        },
    decreases count,
{
    if count == 0 {
        assert(s.skip(0) =~= s);
    } else {
        lemma_value_by_ten(s);
        if s.len() > 0 {
            lemma_without_digits(s.drop_first(), (count - 1) as nat);
            if count <= s.len() {
                assert(s.drop_first().skip(count - 1) =~= s.skip(count as int));
            }
        } else {
            lemma_without_digits(s, (count - 1) as nat);
            if count - 1 == 0 {
                assert(s.skip(0) =~= s);
            }
        }
    }
}

/// The numeral of the number that a canonical digit string writes is that
/// string read from its most significant digit on.
pub proof fn lemma_numeral(s: Seq<u8>)
    requires
        canonical(s),
        s.len() > 0,
    ensures
        numeral(digits_value(s)) == digits_text(s),
    decreases s.len(),
{
    lemma_value_by_ten(s);
    if s.len() == 1 {
        assert(s.drop_first() =~= Seq::<u8>::empty());
        assert(digits_value(s) == s[0]);
        assert(numeral(digits_value(s)) =~= digits_text(s));
    } else {
        let t = s.drop_first();
        assert(t.last() == s.last());
        lemma_value_lower_bound(s);
        lemma_power_monotonic(1, (s.len() - 1) as nat);
        assert(shift(1, 1) == 10) by {
            reveal_with_fuel(shift, 2);
        }
        lemma_numeral(t);
        assert(digits_text(t).push(digit_char(s[0] as int)) =~= digits_text(s));
    }
}

/// The padded numeral of the number that a digit string writes is the low
/// digits of the string read from the most significant of them on.
pub proof fn lemma_padded(s: Seq<u8>, width: nat)
    requires
        all_digits(s),
    ensures
        padded(digits_value(s), width) == low_digits_text(s, width),
    decreases width,
{
    if width == 0 {
        assert(padded(digits_value(s), width) =~= low_digits_text(s, width));
    } else {
        lemma_value_by_ten(s);
        let w = (width - 1) as nat;
        if s.len() > 0 {
            let t = s.drop_first();
            lemma_padded(t, w);
            assert forall|i: int| 0 <= i < w implies low_digits_text(t, w)[i] == low_digits_text(
                s,
                width,
            )[i] by {
                assert(digit_at(t, w - 1 - i) == digit_at(s, width - 1 - i));
            }
            assert(low_digits_text(t, w).push(digit_char(digit_at(s, 0))) =~= low_digits_text(
                s,
                width,
            ));
        } else {
            lemma_padded(s, w);
            assert(low_digits_text(s, w).push(digit_char(0)) =~= low_digits_text(s, width));
        }
    }
}

/// The text of a decimal digit.
pub(crate) fn digit_text(d: u8) -> (text: &'static str)
    requires
        d < 10,
    ensures
        text@ == seq![digit_char(d as int)],
{
    proof {
        reveal_strlit("0");
        reveal_strlit("1");
        reveal_strlit("2");
        reveal_strlit("3");
        reveal_strlit("4");
        reveal_strlit("5");
        reveal_strlit("6");
        reveal_strlit("7");
        reveal_strlit("8");
        reveal_strlit("9");
    }
    let text = if d == 0 {
        "0"
    } else if d == 1 {
        "1"
    } else if d == 2 {
        "2"
    } else if d == 3 {
        "3"
    } else if d == 4 {
        "4"
    } else if d == 5 {
        "5"
    } else if d == 6 {
        "6"
    } else if d == 7 {
        "7"
    } else if d == 8 {
        "8"
    } else {
        "9"
    };
    assert(text@ =~= seq![digit_char(d as int)]);
    text
}

/// Appends the digits of a canonical string, most significant first, or `0`
/// for the empty string: the numeral of the number it writes.
pub(crate) fn append_numeral(text: &mut String, digits: &Vec<u8>)
    requires
        canonical(digits@),
    ensures
        final(text)@ == old(text)@ + numeral(digits_value(digits@)),
{
    let ghost before = text@;
    if digits.len() == 0 {
        proof {
            assert(before + numeral(0) =~= before + seq!['0']);
        }
        text.append(digit_text(0));
    } else {
        let mut i: usize = digits.len();
        proof {
            lemma_numeral(digits@);
            assert(before + digits_text(digits@).take(0) =~= before);
        }
        while i > 0
            invariant
                i <= digits@.len(),
                all_digits(digits@),
                text@ == before + digits_text(digits@).take(digits@.len() - i),
            decreases i,
        {
            i = i - 1;
            proof {
                let done = digits@.len() - i - 1;
                assert(digits_text(digits@).take(done).push(digit_char(digits@[i as int] as int))
                    =~= digits_text(digits@).take(done + 1));
                assert((before + digits_text(digits@).take(done)) + seq![
                    digit_char(digits@[i as int] as int),
                ] =~= before + digits_text(digits@).take(done + 1));
            }
            text.append(digit_text(digits[i]));
        }
        proof {
            assert(digits_text(digits@).take(digits@.len() as int) =~= digits_text(digits@));
        }
    }
}

/// Appends the `width` least significant digits of a string, most significant
/// of them first, zeros where the string is shorter.
pub(crate) fn append_padded(text: &mut String, digits: &Vec<u8>, width: usize)
    requires
        all_digits(digits@),
    ensures
        final(text)@ == old(text)@ + padded(digits_value(digits@), width as nat),
{
    let ghost before = text@;
    let ghost all = low_digits_text(digits@, width as nat);
    let mut i: usize = width;
    proof {
        lemma_padded(digits@, width as nat);
        assert(before + all.take(0) =~= before);
    }
    while i > 0
        invariant
            i <= width,
            all_digits(digits@),
            all == low_digits_text(digits@, width as nat),
            text@ == before + all.take(width - i),
        decreases i,
    {
        i = i - 1;
        let d: u8 = if i < digits.len() {
            digits[i]
        } else {
            0
        };
        proof {
            let done = width - i - 1;
            assert(all[done] == digit_char(d as int));
            assert(all.take(done).push(digit_char(d as int)) =~= all.take(done + 1));
            assert((before + all.take(done)) + seq![digit_char(d as int)] =~= before + all.take(
                done + 1,
            ));
        }
        text.append(digit_text(d));
    }
    proof {
        assert(all.take(width as int) =~= all);
    }
}

/// The digit string of `5` followed by `zeros` zeros: half of a one followed
/// by `zeros + 1` zeros.
pub(crate) fn half_of_power(zeros: usize) -> (out: Vec<u8>)
    ensures
        all_digits(out@),
        digits_value(out@) == shift(5, zeros as nat),
{
    let mut out: Vec<u8> = Vec::new();
    let mut i: usize = 0;
    while i < zeros
        invariant
            i <= zeros,
            out@.len() == i,
            all_digits(out@),
            digits_value(out@) == 0,
        decreases zeros - i,
    {
        proof {
            lemma_value_push(out@, 0u8);
            lemma_shift_zero(i as nat);
        }
        out.push(0);
        i = i + 1;
    }
    proof {
        lemma_value_push(out@, 5u8);
    }
    out.push(5);
    out
}

/// The digit string with `zeros` zeros put behind it: the number times ten to
/// the power `zeros`.
pub(crate) fn with_zeros(digits: &Vec<u8>, zeros: usize) -> (out: Vec<u8>)
    requires
        all_digits(digits@),
    ensures
        all_digits(out@),
        digits_value(out@) == shift(digits_value(digits@) as int, zeros as nat),
{
    let mut out: Vec<u8> = Vec::new();
    let mut i: usize = 0;
    while i < zeros
        invariant
            i <= zeros,
            out@.len() == i,
            all_digits(out@),
            digits_value(out@) == 0,
        decreases zeros - i,
    {
        proof {
            lemma_value_push(out@, 0u8);
            lemma_shift_zero(i as nat);
        }
        out.push(0);
        i = i + 1;
    }
    let mut j: usize = 0;
    proof {
        assert(digits@.take(0) =~= Seq::<u8>::empty());
        lemma_shift_zero(zeros as nat);
    }
    while j < digits.len()
        invariant
            j <= digits@.len(),
            out@.len() == zeros + j,
            all_digits(digits@),
            all_digits(out@),
            digits_value(out@) == shift(digits_value(digits@.take(j as int)) as int, zeros as nat),
        decreases digits@.len() - j,
    {
        proof {
            let d = digits@[j as int];
            lemma_value_push(out@, d);
            assert(digits@.take(j as int).push(d) =~= digits@.take(j + 1));
            lemma_value_push(digits@.take(j as int), d);
            lemma_shift_add(
                digits_value(digits@.take(j as int)) as int,
                shift(d as int, j as nat),
                zeros as nat,
            );
            lemma_shift_shift(d as int, j as nat, zeros as nat);
        }
        out.push(digits[j]);
        j = j + 1;
    }
    proof {
        assert(digits@.take(j as int) =~= digits@);
    }
    out
}

/// Shifting twice shifts by the sum.
pub proof fn lemma_shift_shift(x: int, m: nat, n: nat)
    ensures
        shift(shift(x, m), n) == shift(x, m + n),
    decreases n,
{
    if n > 0 {
        lemma_shift_shift(x, m, (n - 1) as nat);
        assert(shift(x, m + n) == 10 * shift(x, (m + n - 1) as nat));
    }
}

/// Appends the decimal numeral of `n`.
pub(crate) fn append_number(text: &mut String, n: u64)
    ensures
        final(text)@ == old(text)@ + numeral(n as nat),
{
    let digits = digits_of(n);
    append_numeral(text, &digits);
}

/// Appends the last `width` digits of the decimal numeral of `n`, with zeros
/// in front where the numeral is shorter.
pub(crate) fn append_number_padded(text: &mut String, n: u64, width: usize)
    ensures
        final(text)@ == old(text)@ + padded(n as nat, width as nat),
{
    let digits = digits_of(n);
    append_padded(text, &digits, width);
}

} // verus!
