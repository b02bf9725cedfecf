//! Natural numbers of any size.

use vstd::prelude::*;

verus! {

/// What a place of a number counts up to.
pub const BASE: u64 = 0x1_0000_0000;

pub open spec fn base_power(n: nat) -> int
    decreases n,
{
    if n == 0 {
        1
    } else {
        BASE * base_power((n - 1) as nat)
    }
}

/// The figure at a place; zeros stand behind the last.
pub open spec fn figure(s: Seq<u32>, i: int) -> int {
    if 0 <= i < s.len() {
        s[i] as int
    } else {
        0
    }
}

/// The number that the first `n` figures write, the smallest place first.
pub open spec fn figures_value(s: Seq<u32>, n: nat) -> int
    decreases n,
{
    if n == 0 {
        0
    } else {
        figures_value(s, (n - 1) as nat) + figure(s, n - 1) * base_power((n - 1) as nat)
    }
}

pub open spec fn pow2(n: nat) -> int
    decreases n,
{
    if n == 0 {
        1
    } else {
        2 * pow2((n - 1) as nat)
    }
}

pub open spec fn pow10(n: nat) -> int
    decreases n,
{
    if n == 0 {
        1
    } else {
        10 * pow10((n - 1) as nat)
    }
}

/// A natural number of any size.
pub struct Big {
    pub figures: Vec<u32>,
}

impl View for Big {
    type V = int;

    open spec fn view(&self) -> int {
        figures_value(self.figures@, self.figures@.len())
    }
}

/// How a number lies to another.
#[derive(Debug, Clone, Copy, PartialEq, Eq, Structural)]
pub enum Side {
    Below,
    Equal,
    Above,
}

pub open spec fn side_of(a: int, b: int) -> Side {
    if a < b {
        Side::Below
    } else if a == b {
        Side::Equal
    } else {
        Side::Above
    }
}

proof fn lemma_same_figures(s: Seq<u32>, t: Seq<u32>, n: nat)
    requires
        forall|i: int| 0 <= i < n ==> #[trigger] figure(s, i) == figure(t, i),
    ensures
        figures_value(s, n) == figures_value(t, n),
    decreases n,
{
    if n > 0 {
        lemma_same_figures(s, t, (n - 1) as nat);
        assert(figure(s, n - 1) == figure(t, n - 1));
    }
}

/// Zeros behind the last figure add nothing.
proof fn lemma_zeros_behind(s: Seq<u32>, n: nat)
    requires
        n >= s.len(),
    ensures
        figures_value(s, n) == figures_value(s, s.len()),
    decreases n,
{
    if n > s.len() {
        lemma_zeros_behind(s, (n - 1) as nat);
        assert(0 * base_power((n - 1) as nat) == 0);
    }
}

proof fn lemma_base_power_positive(n: nat)
    ensures
        base_power(n) > 0,
    decreases n,
{
    if n > 0 {
        lemma_base_power_positive((n - 1) as nat);
    }
}

/// The first `n` figures write less than the power of the next place.
proof fn lemma_figures_bounded(s: Seq<u32>, n: nat)
    ensures
        0 <= figures_value(s, n) < base_power(n),
    decreases n,
{
    if n > 0 {
        let m = (n - 1) as nat;
        lemma_figures_bounded(s, m);
        lemma_base_power_positive(m);
        let f = figure(s, n - 1);
        let p = base_power(m);
        assert(0 <= f * p <= (BASE - 1) * p) by (nonlinear_arith)
            requires
                0 <= f <= BASE - 1,
                p > 0,
        ;
        assert((BASE - 1) * p + p == BASE * p) by (nonlinear_arith);
    }
}

impl Big {
    pub fn zero() -> (b: Big)
        ensures
            b@ == 0,
    {
        Big { figures: Vec::new() }
    }

    pub fn one() -> (b: Big)
        ensures
            b@ == 1,
    {
        let mut figures: Vec<u32> = Vec::new();
        figures.push(1);
        let b = Big { figures };
        proof {
            reveal_with_fuel(figures_value, 2);
        }
        b
    }

    /// The number times `m`, and `a` more.
    pub fn times_plus(&self, m: u32, a: u32) -> (r: Big)
        ensures
            r@ == self@ * m + a,
    {
        let ghost s = self.figures@;
        let mut out: Vec<u32> = Vec::new();
        let mut carry: u32 = a;
        let mut i: usize = 0;
        while i < self.figures.len()
            invariant
                i <= self.figures@.len(),
                s == self.figures@,
                out@.len() == i,
                figures_value(out@, i as nat) + carry * base_power(i as nat) == figures_value(
                    s,
                    i as nat,
                ) * m + a,
            decreases self.figures@.len() - i,
        {
            let f = self.figures[i];
            assert(f * m <= 0xffff_ffff * 0xffff_ffff) by (nonlinear_arith)
                requires
                    0 <= f <= 0xffff_ffff,
                    0 <= m <= 0xffff_ffff,
            ;
            let product: u64 = (f as u64) * (m as u64) + carry as u64;
            let low: u32 = (product % 0x1_0000_0000) as u32;
            let high: u32 = (product / 0x1_0000_0000) as u32;
            let ghost before = out@;
            out.push(low);
            proof {
                lemma_same_figures(out@, before, i as nat);
                let p = base_power(i as nat);
                let (x, y) = (figures_value(before, i as nat), figures_value(s, i as nat));
                assert(x + low * p + high * (BASE * p) == (y + f * p) * m + a) by (nonlinear_arith)
                    requires
                        x + carry * p == y * m + a,
                        low + high * BASE == f * m + carry,
                ;
                assert(figure(out@, i as int) == low);
                assert(figure(s, i as int) == f);
            }
            carry = high;
            i += 1;
        }
        let ghost before = out@;
        out.push(carry);
        proof {
            lemma_same_figures(out@, before, i as nat);
            assert(figure(out@, i as int) == carry);
        }
        Big { figures: out }
    }

    /// The number doubled `n` times.
    pub fn doubled(self, n: u32) -> (r: Big)
        ensures
            r@ == self@ * pow2(n as nat),
    {
        let ghost start = self@;
        let mut r = self;
        let mut i: u32 = 0;
        while i < n
            invariant
                i <= n,
                r@ == start * pow2(i as nat),
            decreases n - i,
        {
            r = r.times_plus(2, 0);
            proof {
                let p = pow2(i as nat);
                assert(start * p * 2 == start * (2 * p)) by (nonlinear_arith);
            }
            i += 1;
        }
        r
    }

    /// The number times ten, `n` times over.
    pub fn tenfold(self, n: u128) -> (r: Big)
        ensures
            r@ == self@ * pow10(n as nat),
    {
        let ghost start = self@;
        let mut r = self;
        let mut i: u128 = 0;
        while i < n
            invariant
                i <= n,
                r@ == start * pow10(i as nat),
            decreases n - i,
        {
            r = r.times_plus(10, 0);
            proof {
                let p = pow10(i as nat);
                assert(start * p * 10 == start * (10 * p)) by (nonlinear_arith);
            }
            i += 1;
        }
        r
    }

    fn figure_at(&self, i: usize) -> (f: u32)
        ensures
            f == figure(self.figures@, i as int),
    {
        if i < self.figures.len() {
            self.figures[i]
        } else {
            0
        }
    }

    /// How the number lies to another one.
    pub fn side(&self, other: &Big) -> (r: Side)
        ensures
            r == side_of(self@, other@),
    {
        let ghost s = self.figures@;
        let ghost t = other.figures@;
        let n: usize = if self.figures.len() < other.figures.len() {
            other.figures.len()
        } else {
            self.figures.len()
        };
        proof {
            lemma_zeros_behind(s, n as nat);
            lemma_zeros_behind(t, n as nat);
        }
        let mut i: usize = n;
        while i > 0
            invariant
                s == self.figures@,
                t == other.figures@,
                self@ - other@ == figures_value(s, i as nat) - figures_value(t, i as nat),
            decreases i,
        {
            let f = self.figure_at(i - 1);
            let g = other.figure_at(i - 1);
            proof {
                let m = (i - 1) as nat;
                let p = base_power(m);
                lemma_figures_bounded(s, m);
                lemma_figures_bounded(t, m);
                assert(f < g ==> g * p >= f * p + p) by (nonlinear_arith)
                    requires
                        p > 0,
                ;
                assert(f > g ==> f * p >= g * p + p) by (nonlinear_arith)
                    requires
                        p > 0,
                ;
            }
            if f < g {
                return Side::Below;
            }
            if f > g {
                return Side::Above;
            }
            i -= 1;
        }
        Side::Equal
    }
}

pub proof fn lemma_pow2_positive(n: nat)
    ensures
        pow2(n) > 0,
    decreases n,
{
    if n > 0 {
        lemma_pow2_positive((n - 1) as nat);
    }
}

pub proof fn lemma_pow2_product(a: nat, b: nat)
    ensures
        pow2(a) * pow2(b) == pow2(a + b),
    decreases a,
{
    if a > 0 {
        lemma_pow2_product((a - 1) as nat, b);
        let p = pow2((a - 1) as nat);
        let q = pow2(b);
        assert(2 * p * q == 2 * (p * q)) by (nonlinear_arith);
    }
}

pub proof fn lemma_pow10_product(a: nat, b: nat)
    ensures
        pow10(a) * pow10(b) == pow10(a + b),
    decreases a,
{
    if a > 0 {
        lemma_pow10_product((a - 1) as nat, b);
        let p = pow10((a - 1) as nat);
        let q = pow10(b);
        assert(10 * p * q == 10 * (p * q)) by (nonlinear_arith);
    }
}

pub proof fn lemma_pow10_grows(a: nat, b: nat)
    requires
        a <= b,
    ensures
        0 < pow10(a) <= pow10(b),
    decreases b,
{
    if b > 0 {
        if a < b {
            lemma_pow10_grows(a, (b - 1) as nat);
        } else {
            lemma_pow10_grows((a - 1) as nat, (b - 1) as nat);
        }
    }
}

} // verus!
