//! Numbers of 32-bit floats, by their bits, and floats written in short.
//!
//! The order of two floats that are numbers is the order of two integers, their [`rank`]s.

use vstd::arithmetic::power2;
use vstd::prelude::*;
use vstd::string::*;

use crate::text;

verus! {

/// Bits of the float 1.
pub const ONE: u32 = 0x3F800000;

/// Bits of positive infinity.
pub const INFINITY: u32 = 0x7F800000;

/// The bits without the sign.
pub open spec fn magnitude(bits: u32) -> int {
    bits as int % 0x80000000
}

/// Whether the float is not a number.
pub open spec fn is_nan(bits: u32) -> bool {
    magnitude(bits) > INFINITY
}

/// The place of a float among the floats that are numbers; both zeros have the same.
pub open spec fn rank(bits: u32) -> int {
    if bits >= 0x80000000 {
        -magnitude(bits)
    } else {
        magnitude(bits)
    }
}

/// Whether `a <= b` as floats.
pub open spec fn at_most(a: u32, b: u32) -> bool {
    !is_nan(a) && !is_nan(b) && rank(a) <= rank(b)
}

/// The place of a float among the floats that are numbers.
pub fn place(bits: u32) -> (r: i64)
    ensures
        r == rank(bits),
{
    if bits >= 0x80000000 {
        -((bits - 0x80000000) as i64)
    } else {
        bits as i64
    }
}

/// Whether the float is a number.
pub fn is_number(bits: u32) -> (r: bool)
    ensures
        r == !is_nan(bits),
{
    (if bits >= 0x80000000 {
        bits - 0x80000000
    } else {
        bits
    }) <= INFINITY
}

/// Whether `a <= b` as floats.
pub fn less_or_equal(a: u32, b: u32) -> (r: bool)
    ensures
        r == at_most(a, b),
{
    is_number(a) && is_number(b) && place(a) <= place(b)
}

/// A quotient, rounded to the nearest integer, and to the even one of two that are as near.
pub open spec fn round_div(a: nat, b: nat) -> nat {
    let q = a / b;
    let r = a % b;
    if 2 * r > b || (2 * r == b && q % 2 == 1) {
        q + 1
    } else {
        q
    }
}

/// How often `d` can be doubled without exceeding `n`.
pub open spec fn doublings(n: nat, d: nat) -> nat
    decreases n - d,
{
    if d == 0 || n < 2 * d {
        0
    } else {
        1 + doublings(n, 2 * d)
    }
}

/// The integer that is the 64-bit float nearest to `n`: 53 binary digits are kept.
pub open spec fn as_double(n: nat) -> nat {
    let p = power2::pow2(doublings(n, 0x10000000000000));
    round_div(n, p) * p
}

/// The tenths of `n / unit`, computed as a quotient of 64-bit floats and rounded to one decimal
/// place.
pub open spec fn tenths(n: nat, unit: nat) -> nat {
    let m = as_double(n);
    let p = power2::pow2((52 - doublings(m, unit)) as nat);
    round_div(round_div(m * p, unit) * 10, p)
}

/// A number of tenths with one decimal place.
pub open spec fn one_place(t: nat) -> Seq<char> {
    text::decimal(t / 10) + "."@ + text::decimal(t % 10)
}

/// A count in billions, in millions, or in full.
pub open spec fn count_words(n: nat) -> Seq<char> {
    if n >= 1000000000 {
        one_place(tenths(n, 1000000000)) + "B"@
    } else if n >= 1000000 {
        one_place(tenths(n, 1000000)) + "M"@
    } else {
        text::decimal(n)
    }
}

/// A quotient, rounded to the nearest integer, and to the even one of two that are as near.
fn rounded(a: u128, b: u128) -> (r: u128)
    requires
        0 < b < 0x10000000000000000,
        a < 0x10000000000000000000000000000000,
    ensures
        r == round_div(a as nat, b as nat),
        r <= a / b + 1,
{
    let q: u128 = a / b;
    let r: u128 = a % b;
    proof {
        assert(a / b <= a) by (nonlinear_arith)
            requires
                b > 0,
        ;
    }
    if 2 * r > b || (2 * r == b && q % 2 == 1) {
        q + 1
    } else {
        q
    }
}

/// Doubles `d` as often as it does not exceed `n`; gives how often, and two to that power.
fn double_up(n: u128, d: u128) -> (r: (u32, u128))
    requires
        0 < d,
        n < 0x1000000000000000000000000,
    ensures
        r.0 == doublings(n as nat, d as nat),
        r.1 == power2::pow2(r.0 as nat),
        d <= n ==> d * r.1 <= n,
        n < d ==> r.0 == 0,
        n < 2 * (d * r.1),
        r.0 <= 96,
{
    let mut scaled: u128 = d;
    let mut k: u32 = 0;
    let mut p: u128 = 1;
    proof {
        power2::lemma2_to64();
        assert(d * 1 == d) by (nonlinear_arith);
    }
    while n / 2 >= scaled
        invariant
            0 < d,
            n < 0x1000000000000000000000000,
            scaled == d * p,
            p == power2::pow2(k as nat),
            doublings(n as nat, d as nat) == k + doublings(n as nat, scaled as nat),
            d <= n ==> scaled <= n,
            n < d ==> k == 0,
            k <= p,
            0 < p <= scaled,
            k > 0 ==> scaled <= n,
            k <= 96,
        decreases n - scaled,
    {
        proof {
            power2::lemma_pow2_unfold((k + 1) as nat);
            assert(d * (2 * p) == 2 * (d * p)) by (nonlinear_arith);
            if k == 96 {
                power2::lemma_pow2_adds(64, 32);
                power2::lemma2_to64();
                power2::lemma2_to64_rest();
                assert(false);
            }
        }
        scaled = scaled * 2;
        p = p * 2;
        k += 1;
    }
    (k, p)
}

/// The tenths of `n / unit`.
pub fn count_tenths(n: u64, unit: u128) -> (r: u64)
    requires
        1000000 <= unit <= 1000000000,
        unit <= n,
    ensures
        r == tenths(n as nat, unit as nat),
{
    let (_, grain) = double_up(n as u128, 0x10000000000000);
    proof {
        power2::lemma2_to64();
        if n < 0x10000000000000 {
            assert(grain == 1);
        } else {
            assert(grain <= 4096) by (nonlinear_arith)
                requires
                    0x10000000000000 * grain <= n,
                    n <= 0xFFFFFFFFFFFFFFFF,
            ;
        }
        power2::lemma_pow2_pos(doublings(n as nat, 0x10000000000000));
    }
    let digits: u128 = rounded(n as u128, grain);
    proof {
        assert(digits <= 0x20000000000000) by {
            let q = n as int / grain as int;
            assert(q < 0x20000000000000) by (nonlinear_arith)
                requires
                    n < 2 * (0x10000000000000 * grain),
                    grain > 0,
                    q == n as int / grain as int,
            ;
        }
        assert(0 <= digits * grain <= 0x20000000000000 * 4096) by (nonlinear_arith)
            requires
                0 <= digits <= 0x20000000000000,
                0 <= grain <= 4096,
        ;
    }
    let m: u128 = digits * grain;
    assert(m == as_double(n as nat));
    proof {
        lemma_double_keeps_order(n as nat, unit as nat);
    }
    let (k, p) = double_up(m, unit);
    proof {
        assert(p <= 0x10000000000000) by (nonlinear_arith)
            requires
                unit * p <= m,
                unit >= 1000000,
                m <= 0x20000000000000 * 4096,
        ;
        power2::lemma2_to64_rest();
        if k > 52 {
            power2::lemma_pow2_strictly_increases(52, k as nat);
        }
    }
    let mut fine: u128 = 1;
    let mut i: u32 = k;
    while i < 52
        invariant
            k <= i <= 52,
            fine == power2::pow2((i - k) as nat),
            1 <= fine <= 0x10000000000000,
        decreases 52 - i,
    {
        proof {
            power2::lemma_pow2_unfold((i + 1 - k) as nat);
            power2::lemma2_to64();
            power2::lemma2_to64_rest();
            if i + 1 - k < 52 {
                power2::lemma_pow2_strictly_increases((i + 1 - k) as nat, 52);
            }
        }
        fine = fine * 2;
        i += 1;
    }
    proof {
        power2::lemma_pow2_adds(k as nat, (52 - k) as nat);
        power2::lemma2_to64();
        power2::lemma2_to64_rest();
        assert(p * fine == 0x10000000000000);
        assert(m * fine < unit * 0x20000000000000) by (nonlinear_arith)
            requires
                m < 2 * (unit * p),
                p * fine == 0x10000000000000,
                fine > 0,
        ;
        assert(unit * 0x20000000000000 <= 1000000000 * 0x20000000000000) by (nonlinear_arith)
            requires
                unit <= 1000000000,
        ;
        assert(0 <= m * fine) by (nonlinear_arith)
            requires
                0 <= m,
                0 <= fine,
        ;
    }
    let quotient: u128 = rounded(m * fine, unit);
    proof {
        let x = m * fine;
        assert(x / unit as int <= 0x20000000000000) by (nonlinear_arith)
            requires
                x < unit * 0x20000000000000,
                unit > 0,
        ;
    }
    let t: u128 = rounded(quotient * 10, fine);
    proof {
        let y = quotient * 10;
        assert(y / fine as int <= y) by (nonlinear_arith)
            requires
                y >= 0,
                fine >= 1,
        ;
    }
    t as u64
}

/// Rounding to a float does not take a number below a smaller one that needs no rounding.
proof fn lemma_double_keeps_order(n: nat, unit: nat)
    requires
        unit <= n,
        unit <= 1000000000,
    ensures
        unit <= as_double(n),
{
    let s = doublings(n, 0x10000000000000);
    let p = power2::pow2(s);
    power2::lemma_pow2_pos(s);
    if n < 0x20000000000000 {
        assert(s == 0);
        power2::lemma2_to64();
        assert(n % 1 == 0);
        assert(as_double(n) == n);
    } else {
        lemma_doublings_fit(n, 0x10000000000000);
        assert(n / p >= 0x10000000000000) by (nonlinear_arith)
            requires
                0x10000000000000 * p <= n,
                p > 0,
        ;
        let q = round_div(n, p);
        assert(q * p >= 0x10000000000000) by (nonlinear_arith)
            requires
                q >= 0x10000000000000,
                p >= 1,
        ;
    }
}

/// The doubled number does not exceed the bound.
proof fn lemma_doublings_fit(n: nat, d: nat)
    requires
        0 < d <= n,
    ensures
        d * power2::pow2(doublings(n, d)) <= n,
    decreases n - d,
{
    if n < 2 * d {
        power2::lemma2_to64();
        assert(d * 1 == d) by (nonlinear_arith);
    } else {
        lemma_doublings_fit(n, 2 * d);
        let k = doublings(n, 2 * d);
        power2::lemma_pow2_unfold(k + 1);
        assert(d * (2 * power2::pow2(k)) == (2 * d) * power2::pow2(k)) by (nonlinear_arith);
    }
}

/// Appends a number of tenths with one decimal place.
pub fn push_tenths(out: &mut String, t: u64)
    ensures
        final(out)@ == old(out)@ + one_place(t as nat),
{
    let ghost before = out@;
    text::push_decimal(out, t / 10);
    out.append(".");
    text::push_decimal(out, t % 10);
    assert(out@ =~= before + one_place(t as nat));
}

/// The number that a float stands for, in multiples of the smallest positive one: the fraction
/// where the exponent is zero, and else the fraction with its leading digit, doubled once for
/// each step of the exponent above one. Infinity stands above every finite number.
pub open spec fn multiples(bits: u32) -> int {
    let exponent = bits as int % 0x80000000 / 0x800000;
    let fraction = bits as int % 0x800000;
    let size = if exponent == 0 {
        fraction
    } else {
        (0x800000 + fraction) * power2::pow2((exponent - 1) as nat)
    };
    if bits >= 0x80000000 {
        -size
    } else {
        size
    }
}

/// A larger magnitude is a larger number.
proof fn lemma_sizes_grow(a: u32, b: u32)
    requires
        a < b < 0x80000000,
    ensures
        0 <= multiples(a) < multiples(b),
{
    let x = a as int / 0x800000;
    let y = b as int / 0x800000;
    let f = a as int % 0x800000;
    let g = b as int % 0x800000;
    if y > 0 {
        power2::lemma_pow2_pos((y - 1) as nat);
        let q = power2::pow2((y - 1) as nat) as int;
        if x == 0 {
            assert((0x800000 + g) * q >= 0x800000) by (nonlinear_arith)
                requires
                    g >= 0,
                    q >= 1,
            ;
        } else {
            power2::lemma_pow2_pos((x - 1) as nat);
            let p = power2::pow2((x - 1) as nat) as int;
            assert(0 <= (0x800000 + f) * p) by (nonlinear_arith)
                requires
                    f >= 0,
                    p >= 1,
            ;
            if x == y {
                assert((0x800000 + f) * p < (0x800000 + g) * p) by (nonlinear_arith)
                    requires
                        f < g,
                        p >= 1,
                ;
            } else {
                power2::lemma_pow2_unfold(x as nat);
                if x < y - 1 {
                    power2::lemma_pow2_strictly_increases(x as nat, (y - 1) as nat);
                }
                assert((0x800000 + f) * p < (0x800000 + g) * q) by (nonlinear_arith)
                    requires
                        0 <= f < 0x800000,
                        g >= 0,
                        p >= 1,
                        q >= 2 * p,
                ;
            }
        }
    }
}

/// The order of the ranks is the order of the numbers that the bits stand for.
pub proof fn ranks_are_in_the_order_of_numbers(a: u32, b: u32)
    ensures
        rank(a) < rank(b) <==> multiples(a) < multiples(b),
        rank(a) == rank(b) <==> multiples(a) == multiples(b),
        rank(a) <= rank(b) <==> multiples(a) <= multiples(b),
        rank(a) > 0 <==> multiples(a) > 0,
{
    let x: u32 = (a % 0x80000000) as u32;
    let y: u32 = (b % 0x80000000) as u32;
    assert(x as int / 0x800000 == a as int % 0x80000000 / 0x800000);
    assert(x as int % 0x800000 == a as int % 0x800000);
    assert(y as int / 0x800000 == b as int % 0x80000000 / 0x800000);
    assert(y as int % 0x800000 == b as int % 0x800000);
    assert(multiples(a) == if a >= 0x80000000 {
        -multiples(x)
    } else {
        multiples(x)
    });
    assert(multiples(b) == if b >= 0x80000000 {
        -multiples(y)
    } else {
        multiples(y)
    });
    assert(multiples(0) == 0);
    if x > 0 {
        lemma_sizes_grow(0, x);
    }
    if y > 0 {
        lemma_sizes_grow(0, y);
    }
    if x < y {
        lemma_sizes_grow(x, y);
    }
    if y < x {
        lemma_sizes_grow(y, x);
    }
}

/// A float is no number where all digits of its exponent are set and its fraction is not zero.
/// One is at most another where both are numbers, in the order of the numbers.
pub proof fn floats_compare_as_numbers(a: u32, b: u32)
    ensures
        is_nan(a) <==> a as int % 0x80000000 / 0x800000 == 255 && a as int % 0x800000 != 0,
        at_most(a, b) <==> {
            &&& !(a as int % 0x80000000 / 0x800000 == 255 && a as int % 0x800000 != 0)
            &&& !(b as int % 0x80000000 / 0x800000 == 255 && b as int % 0x800000 != 0)
            &&& multiples(a) <= multiples(b)
        },
        multiples(0x3F800000) == 0x800000 * power2::pow2(126),
        ONE == 0x3F800000,
{
    ranks_are_in_the_order_of_numbers(a, b);
    assert(is_nan(a) <==> a as int % 0x80000000 / 0x800000 == 255 && a as int % 0x800000 != 0);
    assert(is_nan(b) <==> b as int % 0x80000000 / 0x800000 == 255 && b as int % 0x800000 != 0);
}

/// A rounded quotient is the nearest integer, and the even one where two are as near.
pub proof fn quotients_round_to_the_nearest(a: nat, b: nat)
    requires
        0 < b,
    ensures
        -(b as int) <= 2 * (round_div(a, b) * b - a) <= b,
        2 * (round_div(a, b) * b - a) == b || 2 * (a - round_div(a, b) * b) == b ==> round_div(a, b)
            % 2 == 0,
{
    vstd::arithmetic::div_mod::lemma_fundamental_div_mod(a as int, b as int);
    let q = a as int / b as int;
    let r = a as int % b as int;
    assert(q * b == b * q) by (nonlinear_arith);
    assert((q + 1) * b == b * q + b) by (nonlinear_arith);
}

/// How often a number can be doubled without exceeding another.
pub proof fn doublings_reach_the_bound(n: nat, d: nat)
    requires
        0 < d <= n,
    ensures
        d * power2::pow2(doublings(n, d)) <= n,
        n < 2 * (d * power2::pow2(doublings(n, d))),
    decreases n - d,
{
    if n < 2 * d {
        power2::lemma2_to64();
        assert(d * 1 == d) by (nonlinear_arith);
    } else {
        doublings_reach_the_bound(n, 2 * d);
        let k = doublings(n, 2 * d);
        power2::lemma_pow2_unfold(k + 1);
        assert(d * (2 * power2::pow2(k)) == (2 * d) * power2::pow2(k)) by (nonlinear_arith);
    }
}

/// A 64-bit float keeps an integer of up to 53 binary digits as it is, and another one to within
/// half a unit of its 53rd digit.
pub proof fn doubles_keep_their_leading_digits(n: nat)
    ensures
        n < 0x20000000000000 ==> as_double(n) == n,
        n >= 0x20000000000000 ==> -(n as int) <= 0x20000000000000 * (as_double(n) - n) <= n,
{
    let s = doublings(n, 0x10000000000000);
    let p = power2::pow2(s);
    power2::lemma_pow2_pos(s);
    quotients_round_to_the_nearest(n, p);
    if n < 0x20000000000000 {
        assert(s == 0);
        power2::lemma2_to64();
        assert(n % 1 == 0);
    } else {
        doublings_reach_the_bound(n, 0x10000000000000);
    }
}

/// The tenths of a quotient are the nearest to it, up to what the quotient loses as a 64-bit float.
pub proof fn tenths_are_the_nearest(n: nat, unit: nat)
    requires
        1000000 <= unit <= 1000000000,
        unit <= n < 0x20000000000000,
    ensures
        -(unit * 100004) <= 200000 * (tenths(n, unit) * unit - 10 * n) <= unit * 100004,
{
    doubles_keep_their_leading_digits(n);
    let k = doublings(n, unit);
    doublings_reach_the_bound(n, unit);
    power2::lemma2_to64();
    power2::lemma2_to64_rest();
    let g = power2::pow2(k);
    assert(g < 0x400000000) by (nonlinear_arith)
        requires
            unit * g <= n,
            unit >= 1000000,
            n < 0x20000000000000,
    ;
    if k >= 34 {
        if k > 34 {
            power2::lemma_pow2_strictly_increases(34, k);
        }
        assert(false);
    }
    let e = (52 - k) as nat;
    let p = power2::pow2(e);
    assert(p >= 0x40000) by {
        if e > 18 {
            power2::lemma_pow2_strictly_increases(18, e);
        }
    }
    let r = round_div(n * p, unit);
    let t = round_div(r * 10, p);
    assert(tenths(n, unit) == t);
    quotients_round_to_the_nearest(n * p, unit);
    quotients_round_to_the_nearest(r * 10, p);
    let x = r * unit - n * p;
    let y = t * p - r * 10;
    let z = t * unit - 10 * n;
    assert(z * p == y * unit + 10 * x) by (nonlinear_arith)
        requires
            x == r * unit - n * p,
            y == t * p - r * 10,
            z == t * unit - 10 * n,
    ;
    assert(-(p * unit) <= 2 * (y * unit) <= p * unit) by (nonlinear_arith)
        requires
            -p <= 2 * y <= p,
            unit > 0,
    ;
    assert(200000 * z <= unit * 100004) by (nonlinear_arith)
        requires
            z * p == y * unit + 10 * x,
            2 * (y * unit) <= p * unit,
            2 * x <= unit,
            p >= 0x40000,
            unit > 0,
    ;
    assert(-(unit * 100004) <= 200000 * z) by (nonlinear_arith)
        requires
            z * p == y * unit + 10 * x,
            -(p * unit) <= 2 * (y * unit),
            -unit <= 2 * x,
            p >= 0x40000,
            unit > 0,
    ;
}

/// A count in words: in full below a million, in millions below a billion, and else in billions,
/// with one digit after the point, and the letter of the unit.
pub proof fn counts_are_told_in_their_unit(n: nat)
    ensures
        n < 1000000 ==> count_words(n) == text::decimal(n),
        1000000 <= n < 1000000000 ==> count_words(n) == text::decimal(tenths(n, 1000000) / 10) + seq![
            '.',
            text::digit(tenths(n, 1000000) % 10),
            'M',
        ],
        1000000000 <= n ==> count_words(n) == text::decimal(tenths(n, 1000000000) / 10) + seq![
            '.',
            text::digit(tenths(n, 1000000000) % 10),
            'B',
        ],
{
    reveal_strlit(".");
    reveal_strlit("M");
    reveal_strlit("B");
    if 1000000 <= n < 1000000000 {
        let t = tenths(n, 1000000);
        assert(count_words(n) =~= text::decimal(t / 10) + seq!['.', text::digit(t % 10), 'M']);
    } else if n >= 1000000000 {
        let t = tenths(n, 1000000000);
        assert(count_words(n) =~= text::decimal(t / 10) + seq!['.', text::digit(t % 10), 'B']);
    }
}

/// Among floats without a sign, the one with the greater bits has the greater rank, and a sign
/// turns the rank round.
pub proof fn ranks_grow_with_the_bits(a: u32, b: u32)
    requires
        a < 0x80000000,
        b < 0x80000000,
    ensures
        a < b <==> rank(a) < rank(b),
        a == b <==> rank(a) == rank(b),
        rank((a + 0x80000000) as u32) == -rank(a),
        rank(0) == 0,
        is_nan(a) <==> a > 0x7F800000,
        is_nan((a + 0x80000000) as u32) <==> is_nan(a),
{
}

/// There is one nearest integer to a quotient, where the even one counts of two that are as near,
/// and a rounded quotient is that integer.
pub proof fn nearest_integers_are_unique(a: nat, b: nat, x: int)
    requires
        0 < b,
        -(b as int) <= 2 * (x * b - a) <= b,
        2 * (x * b - a) == b || 2 * (a - x * b) == b ==> x % 2 == 0,
    ensures
        round_div(a, b) == x,
{
    quotients_round_to_the_nearest(a, b);
    let y = round_div(a, b) as int;
    let d = x - y;
    assert((x - y) * b == x * b - y * b) by (nonlinear_arith);
    if d >= 2 {
        assert(d * b >= 2 * b) by (nonlinear_arith)
            requires
                d >= 2,
                b > 0,
        ;
    } else if d <= -2 {
        assert(d * b <= -2 * b) by (nonlinear_arith)
            requires
                d <= -2,
                b > 0,
        ;
    } else if d == 1 {
        assert(d * b == b) by (nonlinear_arith)
            requires
                d == 1,
        ;
    } else if d == -1 {
        assert(d * b == -b) by (nonlinear_arith)
            requires
                d == -1,
        ;
    }
}

/// There is one number of doublings that takes a number up to another and not beyond it.
pub proof fn doublings_are_unique(n: nat, d: nat, k: nat)
    requires
        0 < d,
        d * power2::pow2(k) <= n < 2 * (d * power2::pow2(k)),
    ensures
        doublings(n, d) == k,
    decreases k,
{
    power2::lemma2_to64();
    if k == 0 {
        assert(d * 1 == d) by (nonlinear_arith);
    } else {
        power2::lemma_pow2_unfold(k);
        power2::lemma_pow2_pos((k - 1) as nat);
        let p = power2::pow2((k - 1) as nat);
        assert(d * (2 * p) == (2 * d) * p) by (nonlinear_arith);
        assert((2 * d) * p >= 2 * d) by (nonlinear_arith)
            requires
                p >= 1,
        ;
        doublings_are_unique(n, 2 * d, (k - 1) as nat);
    }
}

/// The 64-bit float of an integer of `53 + s` binary digits: the nearest integer of 53 digits to
/// the one without its last `s` digits, and `s` zeros after it.
pub proof fn doubles_have_53_digits(n: nat, s: nat, x: int)
    requires
        0x10000000000000 * power2::pow2(s) <= n < 0x20000000000000 * power2::pow2(s),
        -(power2::pow2(s) as int) <= 2 * (x * power2::pow2(s) - n) <= power2::pow2(s),
        2 * (x * power2::pow2(s) - n) == power2::pow2(s) || 2 * (n - x * power2::pow2(s))
            == power2::pow2(s) ==> x % 2 == 0,
    ensures
        as_double(n) == x * power2::pow2(s),
{
    power2::lemma_pow2_pos(s);
    doublings_are_unique(n, 0x10000000000000, s);
    nearest_integers_are_unique(n, power2::pow2(s), x);
}

/// The tenths of a quotient, exactly. The quotient `m / unit` of the count as a 64-bit float is
/// `q` over a power of two, where `q` is the nearest integer of 53 binary digits, and its tenths
/// are `t`, the nearest integer to ten times that.
pub proof fn tenths_are_rounded_twice(n: nat, unit: nat, k: nat, q: int, t: int)
    requires
        0 < unit,
        k <= 52,
        unit * power2::pow2(k) <= as_double(n) < 2 * (unit * power2::pow2(k)),
        ({
            let p = power2::pow2((52 - k) as nat);
            let x = q * unit - as_double(n) * p;
            let y = t * p - 10 * q;
            &&& -(unit as int) <= 2 * x <= unit
            &&& 2 * x == unit || -2 * x == unit ==> q % 2 == 0
            &&& -(p as int) <= 2 * y <= p
            &&& 2 * y == p || -2 * y == p ==> t % 2 == 0
        }),
    ensures
        tenths(n, unit) == t,
{
    let p = power2::pow2((52 - k) as nat);
    let m = as_double(n);
    power2::lemma_pow2_pos((52 - k) as nat);
    doublings_are_unique(m, unit, k);
    nearest_integers_are_unique(m * p, unit, q);
    assert(q >= 0);
    nearest_integers_are_unique((q * 10) as nat, p, t);
}

/// A number of tenths is told with one digit after the point.
pub proof fn tenths_have_one_digit(t: nat)
    ensures
        one_place(t) == text::decimal(t / 10).push('.').push(text::digit(t % 10)),
{
    reveal_strlit(".");
    assert(one_place(t) =~= text::decimal(t / 10).push('.').push(text::digit(t % 10)));
}

} // verus!
