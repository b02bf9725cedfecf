//! Numbers of single precision, by their places in order: zero has place 0, and each
//! larger number the next place. A decimal text stands for the number nearest to it.

use vstd::prelude::*;
use crate::big::{
    lemma_pow10_grows, lemma_pow10_product, lemma_pow2_positive, lemma_pow2_product, pow10, pow2,
    Big, Side,
};
use crate::numbers::{
    all_digits, all_figures, chars_of, digits_value, is_digit, is_fraction_text, is_scale,
    is_unsigned_decimal, is_word, is_word_from, read_decimal, scale, unsigned_part, Decimal,
};

verus! {

/// The place behind all finite numbers.
pub const INFINITE: u32 = 0x7f80_0000;

/// The place of what is no number, behind infinity.
pub const NOT_A_NUMBER: u32 = 0x7fc0_0000;

/// The finite numbers from zero on, in units of the smallest positive one, which is 2
/// to the power of -149: after the first two rounds of 2 to the 23rd numbers the
/// distance from one to the next doubles with each round. What would come behind the
/// last one stands at the place of infinity.
pub open spec fn single(k: int) -> int {
    let round = k / 0x80_0000;
    let step = k % 0x80_0000;
    if round == 0 {
        step
    } else {
        (step + 0x80_0000) * pow2((round - 1) as nat)
    }
}

/// The fraction `n / d` is rounded to the number at place `k` or to a smaller one: it
/// lies below the middle between that number and the next, or in the middle while the
/// place is even.
pub open spec fn rounds_to_at_most(k: int, n: int, d: int) -> bool {
    let twice = n * pow2(150);
    let middle = (single(k) + single(k + 1)) * d;
    twice < middle || twice == middle && k % 2 == 0
}

/// The fraction `n / d` is rounded to the number at place `k`.
pub open spec fn is_nearest(k: int, n: int, d: int) -> bool {
    &&& 0 <= k <= INFINITE
    &&& k < INFINITE ==> rounds_to_at_most(k, n, d)
    &&& k > 0 ==> !rounds_to_at_most(k - 1, n, d)
}

/// The place of the number that the fraction `n / d` is rounded to.
pub open spec fn nearest(n: int, d: int) -> int {
    choose|k: int| is_nearest(k, n, d)
}

/// A decimal number is the fraction of this and `bottom`.
pub open spec fn top(s: Seq<char>) -> int {
    if scale(s) > 0 {
        digits_value(all_figures(s)) * pow10(scale(s) as nat)
    } else {
        digits_value(all_figures(s))
    }
}

pub open spec fn bottom(s: Seq<char>) -> int {
    if scale(s) < 0 {
        pow10((-scale(s)) as nat)
    } else {
        1
    }
}

/// The place of a number without sign.
pub open spec fn unsigned_place(s: Seq<char>) -> int {
    if is_unsigned_decimal(s) {
        nearest(top(s), bottom(s))
    } else if is_word(s, "nan"@, "NAN"@) {
        NOT_A_NUMBER as int
    } else {
        INFINITE as int
    }
}

/// The place of the number that a text writes. Numbers with a minus sign are placed
/// below zero, the negative zero first.
pub open spec fn place(s: Seq<char>) -> int {
    let k = unsigned_place(unsigned_part(s));
    if s.len() > 0 && s[0] == '-' {
        -k - 1
    } else {
        k
    }
}

// ---------------------------------------------------------------- the numbers

/// The middle between a number and the next, doubled: an odd count of steps.
spec fn middle_steps(k: int) -> int {
    let round = k / 0x80_0000;
    let step = k % 0x80_0000;
    if round == 0 {
        2 * step + 1
    } else {
        2 * step + 1 + 0x100_0000
    }
}

spec fn middle_shift(k: int) -> int {
    let round = k / 0x80_0000;
    if round == 0 {
        0
    } else {
        round - 1
    }
}

proof fn lemma_middle(k: int)
    requires
        0 <= k < INFINITE,
    ensures
        0 <= middle_shift(k) <= 253,
        single(k) + single(k + 1) == middle_steps(k) * pow2(middle_shift(k) as nat),
        single(k + 1) == single(k) + pow2(middle_shift(k) as nat),
{
    let round = k / 0x80_0000;
    let step = k % 0x80_0000;
    assert(round <= 254);
    let p = pow2(middle_shift(k) as nat);
    if round == 0 {
        assert(p == 1);
        assert(middle_steps(k) * p == middle_steps(k)) by (nonlinear_arith)
            requires
                p == 1,
        ;
        assert((0x80_0000 + 0) * p == 0x80_0000);
    }
    if step + 1 < 0x80_0000 {
        assert((k + 1) / 0x80_0000 == round && (k + 1) % 0x80_0000 == step + 1);
        if round > 0 {
            assert((step + 1 + 0x80_0000) * p == (step + 0x80_0000) * p + p) by (nonlinear_arith);
            assert((step + 0x80_0000) * p + (step + 1 + 0x80_0000) * p == (2 * step + 1
                + 0x100_0000) * p) by (nonlinear_arith);
        }
    } else {
        assert((k + 1) / 0x80_0000 == round + 1 && (k + 1) % 0x80_0000 == 0);
        if round > 0 {
            assert(pow2(round as nat) == 2 * p);
            assert(0x80_0000 * (2 * p) == (step + 0x80_0000) * p + p) by (nonlinear_arith)
                requires
                    step == 0x7f_ffff,
            ;
            assert((step + 0x80_0000) * p + 0x80_0000 * (2 * p) == (2 * step + 1 + 0x100_0000)
                * p) by (nonlinear_arith)
                requires
                    step == 0x7f_ffff,
            ;
        }
    }
}

/// A later place holds a larger number.
pub proof fn lemma_singles_increase(j: int, k: int)
    requires
        0 <= j < k <= INFINITE,
    ensures
        single(j) < single(k),
    decreases k - j,
{
    lemma_middle(k - 1);
    lemma_pow2_positive(middle_shift(k - 1) as nat);
    if j < k - 1 {
        lemma_singles_increase(j, k - 1);
    }
}

/// Larger numbers are not rounded to earlier places.
pub proof fn lemma_rounding_is_monotone(j: int, k: int, m: int, c: int, n: int, d: int)
    requires
        c > 0,
        d > 0,
        is_nearest(j, m, c),
        is_nearest(k, n, d),
        m * d <= n * c,
    ensures
        j <= k,
{
    if j > k {
        // The smaller fraction lies above the middle before `j`, the larger one below
        // the middle behind `k`, and the former middle is not before the latter.
        let before = single(j - 1) + single(j);
        let behind = single(k) + single(k + 1);
        let p = pow2(150);
        lemma_pow2_positive(150);
        if k < j - 1 {
            lemma_singles_increase(k, j - 1);
            lemma_singles_increase(k + 1, j);
        }
        assert(before >= behind);
        assert(m * p >= before * c);
        assert(n * p <= behind * d);
        assert((m * p) * d >= (before * c) * d && (n * p) * c <= (behind * d) * c && (m * d) * p
            <= (n * c) * p) by (nonlinear_arith)
            requires
                m * p >= before * c,
                n * p <= behind * d,
                m * d <= n * c,
                p > 0,
                c > 0,
                d > 0,
        ;
        assert((m * p) * d == (m * d) * p && (n * p) * c == (n * c) * p) by (nonlinear_arith);
        assert((before * c) * d == before * (c * d) && (behind * d) * c == behind * (c * d))
            by (nonlinear_arith);
        let q = c * d;
        assert(q > 0) by (nonlinear_arith)
            requires
                c > 0,
                d > 0,
                q == c * d,
        ;
        assert(before == behind) by (nonlinear_arith)
            requires
                before * q <= behind * q,
                before >= behind,
                q > 0,
        ;
        assert(k == j - 1);
        assert(m * p == before * c) by (nonlinear_arith)
            requires
                m * p >= before * c,
                (m * p) * d <= (before * c) * d,
                d > 0,
        ;
        assert(n * p == behind * d) by (nonlinear_arith)
            requires
                n * p <= behind * d,
                (n * p) * c >= (behind * d) * c,
                c > 0,
        ;
    }
}

proof fn lemma_nearest_below(k: int, n: int, d: int) -> (j: int)
    requires
        0 <= k <= INFINITE,
        k < INFINITE ==> rounds_to_at_most(k, n, d),
    ensures
        is_nearest(j, n, d),
    decreases k,
{
    if k == 0 || !rounds_to_at_most(k - 1, n, d) {
        k
    } else {
        lemma_nearest_below(k - 1, n, d)
    }
}

/// Each fraction is rounded to one number, and to one only.
pub proof fn lemma_nearest_is_unique(n: int, d: int)
    requires
        d > 0,
    ensures
        is_nearest(nearest(n, d), n, d),
        forall|k: int| #[trigger] is_nearest(k, n, d) ==> k == nearest(n, d),
{
    let j = lemma_nearest_below(INFINITE as int, n, d);
    assert(is_nearest(j, n, d));
    assert forall|k: int| #[trigger] is_nearest(k, n, d) implies k == nearest(n, d) by {
        lemma_rounding_is_monotone(k, nearest(n, d), n, d, n, d);
        lemma_rounding_is_monotone(nearest(n, d), k, n, d, n, d);
    }
}

/// A number of single precision is rounded to itself.
pub proof fn lemma_exact_numbers_stay(k: int, n: int, d: int)
    requires
        0 <= k < INFINITE,
        d > 0,
        n * pow2(149) == single(k) * d,
    ensures
        nearest(n, d) == k,
{
    lemma_nearest_is_unique(n, d);
    let p = pow2(149);
    assert(pow2(150) == 2 * p);
    assert(n * (2 * p) == 2 * (n * p)) by (nonlinear_arith);
    lemma_middle(k);
    lemma_pow2_positive(middle_shift(k) as nat);
    let (a, b) = (single(k), single(k + 1));
    assert(2 * (a * d) < (a + b) * d) by (nonlinear_arith)
        requires
            a < b,
            d > 0,
    ;
    if k > 0 {
        lemma_singles_increase(k - 1, k);
        let c = single(k - 1);
        assert(2 * (a * d) > (c + a) * d) by (nonlinear_arith)
            requires
                c < a,
                d > 0,
        ;
    }
    assert(is_nearest(k, n, d));
}

proof fn lemma_bottom_positive(s: Seq<char>)
    ensures
        bottom(s) > 0,
{
    if scale(s) < 0 {
        lemma_pow10_grows(0, (-scale(s)) as nat);
    }
}

/// Places lie within the bounds of what is no number, on both sides.
pub proof fn lemma_place_is_bounded(s: Seq<char>)
    ensures
        -0x7fc0_0001 <= place(s) <= NOT_A_NUMBER,
{
    let t = unsigned_part(s);
    lemma_bottom_positive(t);
    lemma_nearest_is_unique(top(t), bottom(t));
}

/// Of two decimal numbers without sign the larger one is not placed first.
pub proof fn lemma_places_follow_numbers(s: Seq<char>, t: Seq<char>)
    requires
        is_unsigned_decimal(s),
        is_unsigned_decimal(t),
        top(s) * bottom(t) <= top(t) * bottom(s),
    ensures
        unsigned_place(s) <= unsigned_place(t),
{
    lemma_bottom_positive(s);
    lemma_bottom_positive(t);
    lemma_nearest_is_unique(top(s), bottom(s));
    lemma_nearest_is_unique(top(t), bottom(t));
    lemma_rounding_is_monotone(
        unsigned_place(s),
        unsigned_place(t),
        top(s),
        bottom(s),
        top(t),
        bottom(t),
    );
}

// -------------------------------------------------------------------- reading

/// Whether `n / d` is rounded to place `k` or below, where `x` is `n` doubled 150 times.
fn is_at_most(k: u32, x: &Big, d: &Big, Ghost(n): Ghost<int>) -> (r: bool)
    requires
        k < INFINITE,
        x@ == n * pow2(150),
    ensures
        r == rounds_to_at_most(k as int, n, d@),
{
    let round: u32 = k / 0x80_0000;
    let step: u32 = k % 0x80_0000;
    let (steps, shift): (u32, u32) = if round == 0 {
        (2 * step + 1, 0)
    } else {
        (2 * step + 1 + 0x100_0000, (round - 1) as u32)
    };
    let middle = d.times_plus(steps, 0).doubled(shift);
    proof {
        lemma_middle(k as int);
        let p = pow2(shift as nat);
        let e = d@;
        assert((e * steps) * p == (steps * p) * e) by (nonlinear_arith);
    }
    match x.side(&middle) {
        Side::Below => true,
        Side::Equal => k % 2 == 0,
        Side::Above => false,
    }
}

fn nearest_place(n: Big, d: &Big) -> (k: u32)
    ensures
        is_nearest(k as int, n@, d@),
{
    let ghost value = n@;
    let x = n.doubled(150);
    let mut lo: u32 = 0;
    let mut hi: u32 = INFINITE;
    while lo < hi
        invariant
            lo <= hi <= INFINITE,
            x@ == value * pow2(150),
            hi < INFINITE ==> rounds_to_at_most(hi as int, value, d@),
            lo > 0 ==> !rounds_to_at_most(lo - 1, value, d@),
        decreases hi - lo,
    {
        let mid: u32 = lo + (hi - lo) / 2;
        if is_at_most(mid, &x, d, Ghost(value)) {
            hi = mid;
        } else {
            lo = mid + 1;
        }
    }
    lo
}

/// The integer that a row of digits writes.
fn integer_of(digits: &Vec<char>) -> (n: Big)
    requires
        all_digits(digits@),
    ensures
        n@ == digits_value(digits@),
{
    let mut n = Big::zero();
    let mut i: usize = 0;
    assert(digits@.take(0) =~= Seq::<char>::empty());
    while i < digits.len()
        invariant
            i <= digits@.len(),
            all_digits(digits@),
            n@ == digits_value(digits@.take(i as int)),
        decreases digits@.len() - i,
    {
        let c = digits[i];
        assert(is_digit(digits@[i as int]));
        assert(digits@.take(i + 1).drop_last() =~= digits@.take(i as int));
        n = n.times_plus(10, (c as u32) - ('0' as u32));
        i += 1;
    }
    assert(digits@.take(i as int) =~= digits@);
    n
}

proof fn lemma_digits_bounded(s: Seq<char>)
    requires
        all_digits(s),
    ensures
        0 <= digits_value(s) < pow10(s.len()),
    decreases s.len(),
{
    if s.len() > 0 {
        let rest = s.drop_last();
        assert forall|i: int| 0 <= i < rest.len() implies is_digit(#[trigger] rest[i]) by {
            assert(rest[i] == s[i]);
        }
        lemma_digits_bounded(rest);
        assert(is_digit(s[s.len() - 1]));
    }
}

proof fn lemma_powers()
    ensures
        pow2(150) <= pow10(46),
        pow2(128) <= pow10(39),
{
    assert(pow2(25) == 0x200_0000) by {
        reveal_with_fuel(pow2, 26);
    }
    assert(pow2(3) == 8) by {
        reveal_with_fuel(pow2, 4);
    }
    lemma_pow2_product(25, 25);
    lemma_pow2_product(50, 25);
    lemma_pow2_product(75, 25);
    lemma_pow2_product(100, 25);
    lemma_pow2_product(125, 25);
    lemma_pow2_product(125, 3);
    assert(pow10(13) == 10_000_000_000_000) by {
        reveal_with_fuel(pow10, 14);
    }
    assert(pow10(7) == 10_000_000) by {
        reveal_with_fuel(pow10, 8);
    }
    lemma_pow10_product(13, 13);
    lemma_pow10_product(26, 13);
    lemma_pow10_product(39, 7);
}

/// What is below 10 to the power of -46 is rounded to zero.
proof fn lemma_tiny(n: int, len: nat, scale: int)
    requires
        0 <= n < pow10(len),
        len + scale <= -46,
    ensures
        is_nearest(0, n, pow10((-scale) as nat)),
{
    lemma_powers();
    lemma_pow10_product(len, 46);
    lemma_pow10_grows(len + 46, (-scale) as nat);
    lemma_pow2_positive(150);
    let (a, p, q, d) = (pow10(len), pow2(150), pow10(46), pow10((-scale) as nat));
    assert(n * p <= d) by (nonlinear_arith)
        requires
            0 <= n < a,
            0 < p <= q,
            a * q <= d,
    ;
    assert(single(0) + single(1) == 1);
}

/// What is 10 to the 39th or more is rounded to infinity.
proof fn lemma_huge(n: int, scale: int)
    requires
        n > 0,
        scale >= 39,
    ensures
        is_nearest(INFINITE as int, n * pow10(scale as nat), 1),
{
    lemma_powers();
    lemma_pow10_grows(39, scale as nat);
    lemma_pow2_product(128, 150);
    lemma_pow2_product(25, 253);
    lemma_pow2_positive(253);
    lemma_pow2_positive(150);
    assert(pow2(25) == 0x200_0000) by {
        reveal_with_fuel(pow2, 26);
    }
    let (t, p, q) = (pow10(scale as nat), pow2(150), pow2(253));
    lemma_middle(INFINITE - 1);
    assert(middle_steps(INFINITE - 1) == 0x1ff_ffff && middle_shift(INFINITE - 1) == 253);
    assert((n * t) * p > 0x1ff_ffff * q) by (nonlinear_arith)
        requires
            n > 0,
            t >= pow2(128),
            p > 0,
            q > 0,
            pow2(128) * p == 0x200_0000 * q,
    ;
}

proof fn lemma_zero(d: int)
    requires
        d > 0,
    ensures
        is_nearest(0, 0, d),
{
    assert(single(0) + single(1) == 1);
    assert(0 * pow2(150) == 0);
}

/// The place of a decimal number, from its digits and its scale.
fn decimal_place(dec: &Decimal, Ghost(s): Ghost<Seq<char>>) -> (k: u32)
    requires
        dec.digits@ == all_figures(s),
        all_digits(dec.digits@),
        is_scale(dec.scale as int, scale(s)),
    ensures
        k == nearest(top(s), bottom(s)),
        k <= INFINITE,
{
    let n = integer_of(&dec.digits);
    let ghost value = n@;
    let len: i128 = dec.digits.len() as i128;
    let nothing = n.side(&Big::zero()) == Side::Equal;
    proof {
        lemma_digits_bounded(dec.digits@);
        lemma_bottom_positive(s);
        lemma_nearest_is_unique(top(s), bottom(s));
    }
    if nothing {
        proof {
            lemma_zero(bottom(s));
            assert(0 * pow10(scale(s) as nat) == 0);
        }
        return 0;
    }
    if dec.scale >= 39 {
        proof {
            lemma_huge(value, scale(s));
        }
        return INFINITE;
    }
    if len + dec.scale <= -46 {
        proof {
            lemma_tiny(value, dec.digits@.len(), scale(s));
        }
        return 0;
    }
    if dec.scale >= 0 {
        nearest_place(n.tenfold(dec.scale as u128), &Big::one())
    } else {
        let d = Big::one().tenfold((-dec.scale) as u128);
        nearest_place(n, &d)
    }
}

/// The place of the number that a text writes, if it writes one.
pub fn place_of(s: &str) -> (r: Option<i64>)
    ensures
        match r {
            Some(k) => is_fraction_text(s@) && k == place(s@),
            None => !is_fraction_text(s@),
        },
{
    let v = chars_of(s);
    let mut from: usize = 0;
    let mut minus = false;
    if v.len() > 0 && (v[0] == '+' || v[0] == '-') {
        minus = v[0] == '-';
        from = 1;
    }
    let ghost t = unsigned_part(s@);
    assert(v@.skip(from as int) =~= t);
    proof {
        reveal_strlit("inf");
        reveal_strlit("INF");
        reveal_strlit("infinity");
        reveal_strlit("INFINITY");
        reveal_strlit("nan");
        reveal_strlit("NAN");
    }
    let k: u32 = match read_decimal(&v, from) {
        Some(dec) => decimal_place(&dec, Ghost(t)),
        None => {
            if is_word_from(&v, from, "nan", "NAN") {
                NOT_A_NUMBER
            } else if is_word_from(&v, from, "inf", "INF") || is_word_from(
                &v,
                from,
                "infinity",
                "INFINITY",
            ) {
                INFINITE
            } else {
                return None;
            }
        },
    };
    Some(
        if minus {
            -(k as i64) - 1
        } else {
            k as i64
        },
    )
}

} // verus!
