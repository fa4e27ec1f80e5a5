//! Quantity and duration formatting: a finite decimal number plus a unit
//! becomes a human-readable string with an optional SI magnitude prefix, and
//! a duration in milliseconds becomes an `h`/`m`/`s` breakdown.

use vstd::prelude::*;

use crate::text::{digit_char, digit_str, format_u128, format_u64, spec_digits};

verus! {

/// A finite decimal number: `(-1)^negative * mantissa * 10^exponent`.
///
/// Sample values carried in thousandths of a unit become
/// `Quantity { negative, mantissa: magnitude, exponent: -3 }`.
#[derive(Clone, Copy, Debug, PartialEq, Eq, Structural)]
pub struct Quantity {
    pub negative: bool,
    pub mantissa: u64,
    pub exponent: i32,
}

impl Quantity {
    /// Zero is stored in one canonical way, and the exponent stays small
    /// enough for index arithmetic.
    pub open spec fn wf(self) -> bool {
        &&& self.mantissa == 0 ==> (!self.negative && self.exponent == 0)
        &&& -1000000 <= self.exponent <= 1000000
    }

    /// A sample value in thousandths of the stream's unit, as a `Quantity`.
    pub open spec fn spec_from_millis(value: int) -> Quantity {
        if value == 0 {
            Quantity { negative: false, mantissa: 0, exponent: 0 }
        } else if value < 0 {
            Quantity { negative: true, mantissa: (-value) as u64, exponent: -3i32 }
        } else {
            Quantity { negative: false, mantissa: value as u64, exponent: -3i32 }
        }
    }

    /// A sample value in thousandths of the stream's unit.
    pub fn from_millis(value: i64) -> (q: Quantity)
        requires
            -1000000000000000000 <= value <= 1000000000000000000,
        ensures
            q == Quantity::spec_from_millis(value as int),
            q.wf(),
    {
        if value == 0 {
            Quantity { negative: false, mantissa: 0, exponent: 0 }
        } else if value < 0 {
            Quantity { negative: true, mantissa: (-value) as u64, exponent: -3 }
        } else {
            Quantity { negative: false, mantissa: value as u64, exponent: -3 }
        }
    }
}

/// `10^k`.
pub open spec fn pow10(k: nat) -> nat
    decreases k,
{
    if k == 0 {
        1
    } else {
        10 * pow10((k - 1) as nat)
    }
}

pub proof fn lemma_pow10_pos(k: nat)
    ensures
        pow10(k) >= 1,
    decreases k,
{
    if k > 0 {
        lemma_pow10_pos((k - 1) as nat);
    }
}

#[verifier::spinoff_prover]
pub proof fn lemma_pow10_adds(a: nat, b: nat)
    ensures
        pow10(a + b) == pow10(a) * pow10(b),
    decreases a,
{
    if a == 0 {
        assert(pow10(b) == 1 * pow10(b));
    } else {
        lemma_pow10_adds((a - 1) as nat, b);
        assert((a + b - 1) as nat == (a - 1) as nat + b);
        assert(pow10(a + b) == 10 * (pow10((a - 1) as nat) * pow10(b)));
        assert(10 * (pow10((a - 1) as nat) * pow10(b)) == (10 * pow10((a - 1) as nat)) * pow10(b))
            by (nonlinear_arith);
    }
}

#[verifier::spinoff_prover]
pub proof fn lemma_pow10_increases(a: nat, b: nat)
    requires
        a <= b,
    ensures
        pow10(a) <= pow10(b),
{
    lemma_pow10_adds(a, (b - a) as nat);
    lemma_pow10_pos(a);
    lemma_pow10_pos((b - a) as nat);
    assert(pow10(a) * 1 <= pow10(a) * pow10((b - a) as nat)) by (nonlinear_arith)
        requires
            pow10(a) >= 1,
            pow10((b - a) as nat) >= 1,
    ;
}

#[verifier::spinoff_prover]
pub proof fn lemma_pow10_literals()
    ensures
        pow10(38) < 0x100000000000000000000000000000000,
        pow10(38) < 0x80000000000000000000000000000000,
        0xFFFFFFFFFFFFFFFF < pow10(20),
        pow10(15) == 1000000000000000,
        pow10(12) == 1000000000000,
{
    reveal_with_fuel(pow10, 40);
}

/// How many decimal digits `n` prints with: 1 for 0..9, and so on.
pub open spec fn num_digits(n: nat) -> nat
    decreases n,
{
    if n < 10 {
        1
    } else {
        1 + num_digits(n / 10)
    }
}

#[verifier::spinoff_prover]
pub proof fn lemma_num_digits_bound(n: nat)
    ensures
        n < pow10(num_digits(n)),
        num_digits(n) >= 2 ==> pow10((num_digits(n) - 1) as nat) <= n,
    decreases n,
{
    if n < 10 {
    } else {
        lemma_num_digits_bound(n / 10);
        let d = num_digits(n / 10);
        assert(pow10(d + 1) == 10 * pow10(d));
        assert(n < 10 * pow10(d)) by (nonlinear_arith)
            requires
                n >= 10,
                n / 10 < pow10(d),
        ;
        if d == 1 {
            assert(pow10(1) == 10);
        } else {
            assert(pow10(d) == 10 * pow10((d - 1) as nat));
            assert(10 * pow10((d - 1) as nat) <= n) by (nonlinear_arith)
                requires
                    n >= 10,
                    pow10((d - 1) as nat) <= n / 10,
            ;
        }
    }
}

#[verifier::spinoff_prover]
pub proof fn lemma_num_digits_le(n: nat, w: nat)
    requires
        w >= 1,
        n < pow10(w),
    ensures
        num_digits(n) <= w,
    decreases w,
{
    if n >= 10 {
        assert(n / 10 < pow10((w - 1) as nat)) by (nonlinear_arith)
            requires
                n < 10 * pow10((w - 1) as nat),
                n >= 10,
        ;
        lemma_num_digits_le(n / 10, (w - 1) as nat);
    }
}

pub proof fn lemma_spec_digits_len(n: nat)
    ensures
        spec_digits(n).len() == num_digits(n),
    decreases n,
{
    if n >= 10 {
        lemma_spec_digits_len(n / 10);
    }
}

/// `a / d` rounded to the nearest integer, ties to the even neighbour.
pub open spec fn round_half_even(a: nat, d: nat) -> nat
    recommends
        d >= 1,
{
    let q = a / d;
    let rem = a % d;
    if 2 * rem > d {
        q + 1
    } else if 2 * rem == d {
        if q % 2 == 1 {
            q + 1
        } else {
            q
        }
    } else {
        q
    }
}

/// The scaled number `mant * 10^e / 1000^m`, times `10^p`, rounded to an
/// integer.
pub open spec fn spec_scaled_raw(mant: nat, e: int, m: int, p: nat) -> nat {
    let k = e - 3 * m + p;
    if k >= 0 {
        (mant * pow10(k as nat)) as nat
    } else {
        round_half_even(mant, pow10((-k) as nat))
    }
}

/// The scaled number `|q| / 1000^m`, times `10^p`, rounded to an integer.
pub open spec fn spec_scaled(q: Quantity, m: int, p: nat) -> nat {
    spec_scaled_raw(q.mantissa as nat, q.exponent as int, m, p)
}

/// The power-of-1000 exponent chosen for `q`: 0 without a prefix or for
/// zero; otherwise the floor of `log1000 |q|`, corrected upward by one when
/// rounding at `p` decimals would print a leading `1000` (never for a
/// negative number, whose printed form starts with the sign).
pub open spec fn spec_magnitude(q: Quantity, use_prefix: bool, p: nat) -> int {
    if use_prefix && q.mantissa != 0 {
        let m0 = (num_digits(q.mantissa as nat) - 1 + q.exponent) / 3;
        if !q.negative && spec_scaled(q, m0, p) == 1000 * pow10(p) {
            m0 + 1
        } else {
            m0
        }
    } else {
        0
    }
}

/// Drop trailing zero decimals: while decimals remain and the last digit is
/// zero, drop it.
pub open spec fn strip_zeros(r: nat, p: nat) -> (nat, nat)
    decreases p,
{
    if p == 0 || r % 10 != 0 {
        (r, p)
    } else {
        strip_zeros(r / 10, (p - 1) as nat)
    }
}

/// The digits of `n` left-padded with zeros to `w` places.
pub open spec fn pad_digits(n: nat, w: nat) -> Seq<char> {
    if spec_digits(n).len() >= w {
        spec_digits(n)
    } else {
        Seq::new((w - spec_digits(n).len()) as nat, |i: int| '0') + spec_digits(n)
    }
}

/// The number part: sign, then the scaled and rounded digits with a decimal
/// point when stripped decimals remain.
pub open spec fn spec_number_chars(q: Quantity, m: int, p: nat) -> Seq<char> {
    let r = spec_scaled(q, m, p);
    let rp = strip_zeros(r, p);
    let digits = if rp.1 == 0 {
        spec_digits(rp.0)
    } else {
        spec_digits(rp.0 / pow10(rp.1)) + seq!['.'] + pad_digits(rp.0 % pow10(rp.1), rp.1)
    };
    if q.negative {
        seq!['-'] + digits
    } else {
        digits
    }
}

/// The SI prefix for magnitude `m`: none at 0, `k`..`E` above, `m`..`a`
/// below, and `?` when `|m| - 1` falls outside the table.
pub open spec fn spec_prefix_chars(m: int) -> Seq<char> {
    if m == 0 {
        Seq::empty()
    } else {
        let idx = (if m > 0 {
            m
        } else {
            -m
        }) - 1;
        if idx >= 6 {
            seq!['?']
        } else if m > 0 {
            seq![seq!['k', 'M', 'G', 'T', 'P', 'E'][idx]]
        } else {
            seq![seq!['m', '\u{B5}', 'n', 'p', 'f', 'a'][idx]]
        }
    }
}

/// The full formatted quantity: number style, signed number, unit style,
/// prefix, unit.
pub open spec fn spec_format_quantity(
    q: Quantity,
    unit: Seq<char>,
    use_prefix: bool,
    p: nat,
    number_style: Seq<char>,
    unit_style: Seq<char>,
) -> Seq<char> {
    let m = spec_magnitude(q, use_prefix, p);
    number_style + spec_number_chars(q, m, p) + unit_style + spec_prefix_chars(m) + unit
}

/// Dropping trailing zero decimals keeps the integer part.
#[verifier::spinoff_prover]
pub proof fn lemma_strip_int_part(r: nat, p: nat)
    ensures
        strip_zeros(r, p).1 <= p,
        strip_zeros(r, p).0 as int / pow10(strip_zeros(r, p).1) as int == r as int / pow10(
            p,
        ) as int,
    decreases p,
{
    if p == 0 || r % 10 != 0 {
    } else {
        lemma_strip_int_part(r / 10, (p - 1) as nat);
        lemma_pow10_pos((p - 1) as nat);
        vstd::arithmetic::div_mod::lemma_div_denominator(
            r as int,
            10,
            pow10((p - 1) as nat) as int,
        );
        assert(10 * pow10((p - 1) as nat) == pow10(p));
    }
}

/// Rounding to the nearest integer overshoots the quotient by at most one.
pub proof fn lemma_round_half_even_le(a: nat, d: nat)
    requires
        d >= 1,
    ensures
        round_half_even(a, d) <= a / d + 1,
{
}

/// Zero-padded digits fill exactly the asked width.
pub proof fn lemma_pad_digits_len(n: nat, w: nat)
    requires
        w >= 1,
        n < pow10(w),
    ensures
        pad_digits(n, w).len() == w,
{
    lemma_num_digits_le(n, w);
    lemma_spec_digits_len(n);
}

/// The scaled number stays within three integer digits at the chosen
/// magnitude, and within one at the next.
#[verifier::spinoff_prover]
pub proof fn lemma_scaled_bound(q: Quantity, p: nat)
    requires
        q.wf(),
        q.mantissa != 0,
        p <= 12,
    ensures
        ({
            let m0 = (num_digits(q.mantissa as nat) - 1 + q.exponent) / 3;
            spec_scaled(q, m0, p) <= 1000 * pow10(p) && spec_scaled(q, m0 + 1, p) <= pow10(p)
        }),
{
    let mant = q.mantissa as nat;
    let e = q.exponent as int;
    let d = num_digits(mant);
    let m0 = (d - 1 + e) / 3;
    lemma_num_digits_bound(mant);
    lemma_pow10_pos(d);
    lemma_pow10_pos(p);
    assert(d - 1 + e == 3 * m0 + (d - 1 + e) % 3);
    assert(0 <= (d - 1 + e) % 3 < 3);
    let k0 = e - 3 * m0 + p;
    assert(k0 <= 3 - d + p);
    let k1 = e - 3 * (m0 + 1) + p;
    assert(k1 == k0 - 3);
    lemma_pow10_adds(3, p);
    assert(pow10((3 + p) as nat) == 1000 * pow10(p)) by {
        reveal_with_fuel(pow10, 4);
        lemma_pow10_adds(3, p);
    }
    lemma_scaled_bound_at(mant, d, k0, p, (1000 * pow10(p)) as nat, (3 + p) as nat);
    assert(spec_scaled(q, m0, p) <= 1000 * pow10(p));
    lemma_scaled_bound_at(mant, d, k1, p, pow10(p), p);
    assert(spec_scaled(q, m0 + 1, p) <= pow10(p));
}

/// Helper: with `k <= cap - d`, the scaled mantissa stays within
/// `pow10(cap) == bound`.
#[verifier::spinoff_prover]
proof fn lemma_scaled_bound_at(mant: nat, d: nat, k: int, p: nat, bound: nat, cap: nat)
    requires
        mant >= 1,
        d == num_digits(mant),
        mant < pow10(d),
        k <= cap - d,
        bound == pow10(cap),
    ensures
        (if k >= 0 {
            (mant * pow10(k as nat)) as nat
        } else {
            round_half_even(mant, pow10((-k) as nat))
        }) <= bound,
{
    lemma_pow10_pos(d);
    if k >= 0 {
        lemma_pow10_pos(k as nat);
        lemma_pow10_adds(d, k as nat);
        lemma_pow10_increases((d + k) as nat, cap);
        assert(mant * pow10(k as nat) < pow10(d) * pow10(k as nat)) by (nonlinear_arith)
            requires
                mant < pow10(d),
                pow10(k as nat) >= 1,
        ;
    } else {
        let den = pow10((-k) as nat);
        lemma_pow10_pos((-k) as nat);
        lemma_round_half_even_le(mant, den);
        // mant / den < pow10(cap): mant < pow10(d) <= pow10(cap) * den
        lemma_pow10_adds(cap, (-k) as nat);
        lemma_pow10_increases(d, (cap + (-k)) as nat);
        assert(mant < pow10(cap) * den);
        assert(mant / den < pow10(cap)) by (nonlinear_arith)
            requires
                mant < pow10(cap) * den,
                den >= 1,
        ;
        assert(mant / den + 1 <= pow10(cap));
    }
}

/// How wide the number part prints: an optional sign, at most three
/// integer digits with a prefix (`d` without one), and the decimal part.
#[verifier::spinoff_prover]
pub proof fn lemma_number_chars_len(q: Quantity, use_prefix: bool, p: nat, d: nat)
    requires
        q.wf(),
        quantity_formattable(q, use_prefix, p),
        use_prefix ==> !q.negative,
        d >= 1,
        !use_prefix ==> num_digits((spec_scaled(q, 0, p) as int / pow10(p) as int) as nat) <= d,
    ensures
        ({
            let m = spec_magnitude(q, use_prefix, p);
            spec_number_chars(q, m, p).len() <= (if q.negative {
                1int
            } else {
                0int
            }) + (if use_prefix {
                3int
            } else {
                d as int
            }) + (if p > 0 {
                1 + p as int
            } else {
                0int
            })
        }),
{
    let m = spec_magnitude(q, use_prefix, p);
    let r = spec_scaled(q, m, p);
    let rp = strip_zeros(r, p);
    lemma_strip_int_part(r, p);
    lemma_pow10_pos(p);
    lemma_pow10_pos(rp.1);
    let int_part = (r as int / pow10(p) as int) as nat;
    assert(rp.0 as int / pow10(rp.1) as int == int_part);
    // Integer-digit bound.
    let int_digits: nat = if use_prefix {
        3nat
    } else {
        d
    };
    assert(num_digits(int_part) <= int_digits) by {
        if use_prefix {
            if q.mantissa == 0 {
                assert(r == 0);
                assert(int_part == 0);
            } else {
                let m0 = (num_digits(q.mantissa as nat) - 1 + q.exponent) / 3;
                lemma_scaled_bound(q, p);
                if m == m0 + 1 {
                    assert(r <= pow10(p));
                    assert(int_part <= 1) by (nonlinear_arith)
                        requires
                            int_part == (r as int / pow10(p) as int) as nat,
                            r <= pow10(p),
                            pow10(p) >= 1,
                    ;
                } else {
                    assert(m == m0);
                    assert(r != 1000 * pow10(p));
                    assert(r <= 1000 * pow10(p));
                    assert(r < 1000 * pow10(p));
                    assert(int_part < 1000) by (nonlinear_arith)
                        requires
                            int_part == (r as int / pow10(p) as int) as nat,
                            r < 1000 * pow10(p),
                            pow10(p) >= 1,
                    ;
                }
                assert(int_part < pow10(3)) by {
                    reveal_with_fuel(pow10, 4);
                }
                lemma_num_digits_le(int_part, 3);
            }
        } else {
            assert(m == 0);
        }
    }
    // Fractional part, when any decimals survive the stripping.
    let np = rp.0 / pow10(rp.1);
    assert(np == int_part);
    lemma_spec_digits_len(np);
    lemma_spec_digits_len(rp.0);
    if rp.1 > 0 {
        lemma_pad_digits_len(rp.0 % pow10(rp.1), rp.1);
        assert(spec_number_chars(q, m, p).len() == (if q.negative {
            1int
        } else {
            0int
        }) + num_digits(np) + 1 + rp.1);
    } else {
        assert(pow10(0) == 1);
        assert(np == rp.0 / 1nat);
        assert(rp.0 / 1nat == rp.0) by (nonlinear_arith);
        assert(rp.0 == np);
        assert(spec_number_chars(q, m, p).len() == (if q.negative {
            1int
        } else {
            0int
        }) + num_digits(np));
    }
}

/// A magnitude outside the prefix tables renders the `?` prefix.
pub proof fn lemma_prefix_out_of_range(m: int)
    requires
        m >= 7 || m <= -7,
    ensures
        spec_prefix_chars(m) == seq!['?'],
{
}

/// Inputs the formatter accepts: a small precision, and for prefix-free
/// formatting a value whose full digit string fits machine arithmetic.
pub open spec fn quantity_formattable(q: Quantity, use_prefix: bool, p: nat) -> bool {
    &&& q.wf()
    &&& p <= 12
    &&& !use_prefix ==> num_digits(q.mantissa as nat) + (if q.exponent > 0 {
        q.exponent as int
    } else {
        0
    }) + p <= 38
}

#[verifier::spinoff_prover]
fn pow10_u128(k: usize) -> (r: u128)
    requires
        k <= 38,
    ensures
        r == pow10(k as nat),
{
    proof {
        reveal_with_fuel(pow10, 40);
        assert(pow10(38) < 0x100000000000000000000000000000000);
    }
    let mut r: u128 = 1;
    let mut i: usize = 0;
    while i < k
        invariant
            i <= k,
            k <= 38,
            r == pow10(i as nat),
            pow10(38) < 0x100000000000000000000000000000000,
        decreases k - i,
    {
        proof {
            lemma_pow10_increases(i as nat + 1, 38);
        }
        r = r * 10;
        i = i + 1;
    }
    r
}

#[verifier::spinoff_prover]
fn digit_count(n: u128) -> (d: usize)
    ensures
        d == num_digits(n as nat),
        1 <= d <= 39,
{
    proof {
        reveal_with_fuel(pow10, 40);
        assert((n as nat) < pow10(39));
        lemma_num_digits_le(n as nat, 39);
    }
    let mut m = n;
    let mut d: usize = 1;
    while m >= 10
        invariant
            num_digits(n as nat) == num_digits(m as nat) + d - 1,
            num_digits(n as nat) <= 39,
            d >= 1,
        decreases m,
    {
        m = m / 10;
        d = d + 1;
    }
    d
}

#[verifier::spinoff_prover]
fn round_div(a: u128, d: u128) -> (r: u128)
    requires
        1 <= d < 0x80000000000000000000000000000000,
    ensures
        r == round_half_even(a as nat, d as nat),
{
    let q = a / d;
    let rem = a % d;
    proof {
        if d >= 2 {
            assert(q * d <= a) by (nonlinear_arith)
                requires
                    d >= 1,
                    q == a / d,
            ;
            assert(q * 2 <= q * d) by (nonlinear_arith)
                requires
                    q >= 0,
                    d >= 2,
            ;
        }
    }
    if 2 * rem > d {
        q + 1
    } else if 2 * rem == d {
        if q % 2 == 1 {
            q + 1
        } else {
            q
        }
    } else {
        q
    }
}

#[verifier::spinoff_prover]
fn strip_zeros_exec(r: u128, p: usize) -> (out: (u128, usize))
    ensures
        out.0 as nat == strip_zeros(r as nat, p as nat).0,
        out.1 as nat == strip_zeros(r as nat, p as nat).1,
        out.1 <= p,
{
    let mut rr = r;
    let mut pp = p;
    while pp > 0 && rr % 10 == 0
        invariant
            pp <= p,
            strip_zeros(r as nat, p as nat) == strip_zeros(rr as nat, pp as nat),
        decreases pp,
    {
        rr = rr / 10;
        pp = pp - 1;
    }
    (rr, pp)
}

#[verifier::rlimit(60)]
#[verifier::spinoff_prover]
fn scaled(mantissa: u64, exponent: i32, m: i64, p: usize) -> (r: u128)
    requires
        p <= 38,
        -2000000 <= m <= 2000000,
        -1000000 <= exponent <= 1000000,
        exponent - 3 * m + p >= 0 ==> num_digits(mantissa as nat) + (exponent - 3 * m + p) <= 38,
    ensures
        r == spec_scaled_raw(mantissa as nat, exponent as int, m as int, p as nat),
{
    let k: i64 = exponent as i64 - 3 * m + p as i64;
    if k >= 0 {
        let d = digit_count(mantissa as u128);
        let pk = pow10_u128(k as usize);
        proof {
            lemma_num_digits_bound(mantissa as nat);
            lemma_pow10_pos(k as nat);
            lemma_pow10_adds(d as nat, k as nat);
            lemma_pow10_increases((d + k) as nat, 38);
            lemma_pow10_literals();
            assert((mantissa as nat) * pow10(k as nat) < pow10(d as nat) * pow10(k as nat))
                by (nonlinear_arith)
                requires
                    (mantissa as nat) < pow10(d as nat),
                    pow10(k as nat) >= 1,
            ;
        }
        mantissa as u128 * pk
    } else {
        let kk = -k;
        if kk > 38 {
            proof {
                lemma_pow10_literals();
                assert((mantissa as nat) < pow10(20));
                assert(pow10(21) == 10 * pow10(20));
                lemma_pow10_increases(21, kk as nat);
                assert(2 * (mantissa as nat) < pow10(kk as nat));
                assert((mantissa as nat) / pow10(kk as nat) == 0) by (nonlinear_arith)
                    requires
                        2 * (mantissa as nat) < pow10(kk as nat),
                ;
                assert((mantissa as nat) % pow10(kk as nat) == mantissa as nat)
                    by (nonlinear_arith)
                    requires
                        2 * (mantissa as nat) < pow10(kk as nat),
                ;
                assert(round_half_even(mantissa as nat, pow10(kk as nat)) == 0);
            }
            0
        } else {
            let d = pow10_u128(kk as usize);
            proof {
                lemma_pow10_pos(kk as nat);
                lemma_pow10_increases(kk as nat, 38);
                lemma_pow10_literals();
            }
            round_div(mantissa as u128, d)
        }
    }
}

#[verifier::spinoff_prover]
fn magnitude(q: Quantity, use_prefix: bool, p: usize) -> (m: i64)
    requires
        quantity_formattable(q, use_prefix, p as nat),
    ensures
        m == spec_magnitude(q, use_prefix, p as nat),
        -400000 <= m <= 400000,
{
    if use_prefix && q.mantissa != 0 {
        let d = digit_count(q.mantissa as u128);
        let t: i64 = d as i64 - 1 + q.exponent as i64;
        let m0: i64 = if t >= 0 {
            ((t as u64) / 3) as i64
        } else {
            -((((-t) as u64 + 2) / 3) as i64)
        };
        proof {
            assert(m0 == t as int / 3) by (nonlinear_arith)
                requires
                    t as int == (d - 1 + q.exponent) as int,
                    -2000000 <= t <= 2000000,
                    m0 as int == (if t >= 0 {
                        ((t as u64) / 3) as int
                    } else {
                        -((((-t) as u64 + 2) / 3) as int)
                    }),
            ;
        }
        let r0 = scaled(q.mantissa, q.exponent, m0, p);
        let pk = pow10_u128(p);
        proof {
            lemma_pow10_increases(p as nat, 12);
            lemma_pow10_literals();
        }
        let thousand = 1000 * pk;
        if !q.negative && r0 == thousand {
            m0 + 1
        } else {
            m0
        }
    } else {
        0
    }
}

#[verifier::spinoff_prover]
fn prefix_str(m: i64) -> (r: &'static str)
    requires
        -400000 <= m <= 400000,
    ensures
        r@ == spec_prefix_chars(m as int),
{
    proof {
        reveal_strlit("");
        reveal_strlit("?");
        reveal_strlit("k");
        reveal_strlit("M");
        reveal_strlit("G");
        reveal_strlit("T");
        reveal_strlit("P");
        reveal_strlit("E");
        reveal_strlit("m");
        reveal_strlit("\u{B5}");
        reveal_strlit("n");
        reveal_strlit("p");
        reveal_strlit("f");
        reveal_strlit("a");
    }
    if m == 0 {
        let r = "";
        assert(r@ =~= spec_prefix_chars(m as int));
        r
    } else {
        let idx = if m > 0 {
            m - 1
        } else {
            -m - 1
        };
        let r = if idx >= 6 {
            "?"
        } else if m > 0 {
            match idx {
                0 => "k",
                1 => "M",
                2 => "G",
                3 => "T",
                4 => "P",
                _ => "E",
            }
        } else {
            match idx {
                0 => "m",
                1 => "\u{B5}",
                2 => "n",
                3 => "p",
                4 => "f",
                _ => "a",
            }
        };
        assert(r@ =~= spec_prefix_chars(m as int));
        r
    }
}

/// A finite quantity as a human-readable string: number style, the value
/// scaled by the chosen power of 1000 and rounded to `precision` decimals
/// (trailing zero decimals dropped), unit style, SI prefix, unit.
#[verifier::spinoff_prover]
pub fn format_quantity(
    quantity: Quantity,
    unit: &str,
    use_prefix: bool,
    precision: usize,
    number_style: &str,
    unit_style: &str,
) -> (r: String)
    requires
        quantity_formattable(quantity, use_prefix, precision as nat),
    ensures
        r@ == spec_format_quantity(
            quantity,
            unit@,
            use_prefix,
            precision as nat,
            number_style@,
            unit_style@,
        ),
{
    let mag = magnitude(quantity, use_prefix, precision);
    proof {
        if use_prefix {
        } else {
            assert(mag == 0);
        }
        lemma_num_digits_bound(quantity.mantissa as nat);
    }
    let r0 = scaled(quantity.mantissa, quantity.exponent, mag, precision);
    let sp = strip_zeros_exec(r0, precision);
    let r2 = sp.0;
    let p2 = sp.1;
    let mut num = String::new();
    proof {
        reveal_strlit("-");
        reveal_strlit(".");
    }
    if quantity.negative {
        num.append("-");
    }
    if p2 == 0 {
        let ds = format_u128(r2);
        num.append(ds.as_str());
    } else {
        let d = pow10_u128(p2);
        proof {
            lemma_pow10_pos(p2 as nat);
        }
        let intpart = r2 / d;
        let frac = r2 % d;
        let ds = format_u128(intpart);
        num.append(ds.as_str());
        num.append(".");
        let fd = digit_count(frac);
        proof {
            lemma_num_digits_le(frac as nat, p2 as nat);
            lemma_spec_digits_len(frac as nat);
        }
        let mut z = fd;
        proof {
            reveal_strlit("0");
            assert("0"@ =~= seq!['0']);
        }
        while z < p2
            invariant
                fd <= z <= p2,
                num@ =~= (if quantity.negative {
                    seq!['-']
                } else {
                    Seq::<char>::empty()
                }) + spec_digits((r2 as nat) / pow10(p2 as nat)) + seq!['.'] + Seq::new(
                    (z - fd) as nat,
                    |i: int| '0',
                ),
                fd == spec_digits((r2 as nat) % pow10(p2 as nat)).len(),
                r2 == sp.0,
                p2 == sp.1,
            decreases p2 - z,
        {
            proof {
                reveal_strlit("0");
                assert("0"@ =~= seq!['0']);
            }
            num.append("0");
            z = z + 1;
            assert(num@ =~= (if quantity.negative {
                seq!['-']
            } else {
                Seq::<char>::empty()
            }) + spec_digits((r2 as nat) / pow10(p2 as nat)) + seq!['.'] + Seq::new(
                (z - fd) as nat,
                |i: int| '0',
            ));
        }
        let fs = format_u128(frac);
        num.append(fs.as_str());
        proof {
            assert(pad_digits((r2 as nat) % pow10(p2 as nat), p2 as nat) =~= Seq::new(
                (p2 - fd) as nat,
                |i: int| '0',
            ) + spec_digits((r2 as nat) % pow10(p2 as nat)));
        }
    }
    proof {
        assert(num@ =~= spec_number_chars(quantity, mag as int, precision as nat));
    }
    let mut out = String::new();
    out.append(number_style);
    out.append(num.as_str());
    out.append(unit_style);
    out.append(prefix_str(mag));
    out.append(unit);
    proof {
        assert(out@ =~= spec_format_quantity(
            quantity,
            unit@,
            use_prefix,
            precision as nat,
            number_style@,
            unit_style@,
        ));
    }
    out
}

/// The seconds component: whole seconds, and when a fractional remainder
/// exists, a decimal point and the remainder truncated to one digit.
pub open spec fn spec_seconds_chars(rem: nat) -> Seq<char> {
    let whole = rem / 1000;
    let frac = rem % 1000;
    if frac == 0 {
        spec_digits(whole)
    } else {
        spec_digits(whole) + seq!['.', digit_char(frac / 100)]
    }
}

/// A duration in milliseconds as `h`/`m`/`s` components in descending
/// order, zero components omitted; exactly zero renders as `0s`.
pub open spec fn spec_duration(ms: nat, number_style: Seq<char>, unit_style: Seq<char>) -> Seq<
    char,
> {
    if ms == 0 {
        number_style + seq!['0'] + unit_style + seq!['s']
    } else {
        let h = ms / 3600000;
        let rem_h = ms % 3600000;
        let m = rem_h / 60000;
        let rem_m = rem_h % 60000;
        (if h > 0 {
            number_style + spec_digits(h) + unit_style + seq!['h']
        } else {
            Seq::empty()
        }) + (if m > 0 {
            number_style + spec_digits(m) + unit_style + seq!['m']
        } else {
            Seq::empty()
        }) + (if rem_m > 0 {
            number_style + spec_seconds_chars(rem_m) + unit_style + seq!['s']
        } else {
            Seq::empty()
        })
    }
}

/// A duration in milliseconds as a styled `h`/`m`/`s` string.
#[verifier::rlimit(100)]
#[verifier::spinoff_prover]
pub fn format_duration(milliseconds: u64, number_style: &str, unit_style: &str) -> (r: String)
    ensures
        r@ == spec_duration(milliseconds as nat, number_style@, unit_style@),
{
    proof {
        reveal_strlit("0");
        reveal_strlit(".");
        reveal_strlit("h");
        reveal_strlit("m");
        reveal_strlit("s");
        assert("0"@ =~= seq!['0']);
        assert("."@ =~= seq!['.']);
        assert("h"@ =~= seq!['h']);
        assert("m"@ =~= seq!['m']);
        assert("s"@ =~= seq!['s']);
    }
    let mut r = String::new();
    if milliseconds == 0 {
        r.append(number_style);
        r.append("0");
        r.append(unit_style);
        r.append("s");
        assert(r@ =~= spec_duration(milliseconds as nat, number_style@, unit_style@));
        return r;
    }
    let h = milliseconds / 3600000;
    let rem_h = milliseconds % 3600000;
    let m = rem_h / 60000;
    let rem_m = rem_h % 60000;
    if h > 0 {
        let hs = format_u64(h);
        r.append(number_style);
        r.append(hs.as_str());
        r.append(unit_style);
        r.append("h");
    }
    if m > 0 {
        let ms_ = format_u64(m);
        r.append(number_style);
        r.append(ms_.as_str());
        r.append(unit_style);
        r.append("m");
    }
    if rem_m > 0 {
        r.append(number_style);
        let whole = rem_m / 1000;
        let frac = rem_m % 1000;
        let ws = format_u64(whole);
        r.append(ws.as_str());
        if frac > 0 {
            r.append(".");
            r.append(digit_str(frac / 100));
        }
        r.append(unit_style);
        r.append("s");
    }
    assert(r@ =~= spec_duration(milliseconds as nat, number_style@, unit_style@));
    r
}

} // verus!
