//! Human-readable formatting of byte counts.
//!
//! A byte count is rendered as a scaled value with a unit label, either under
//! the decimal system (factor 1000: B, KB, MB, ...) or the binary system
//! (factor 1024: B, KiB, MiB, ...). The unit is normally chosen by repeated
//! division while the value is at least one factor and a larger unit exists,
//! and can instead be forced to a fixed index for consistent-column reports.
//! Scaling is exact long division; the fractional part is rounded half-up to
//! the requested number of digits, with the carry propagated into the
//! integer part when the fraction rounds all the way over.

use vstd::prelude::*;

verus! {

use crate::text::string_from_chars;

/// Which family of units a size is formatted under.
pub enum SizeUnit {
    Decimal,
    Binary,
}

/// The multiplication step between two adjacent units of the system.
pub open spec fn spec_factor(unit_type: SizeUnit) -> nat {
    match unit_type {
        SizeUnit::Decimal => 1000,
        SizeUnit::Binary => 1024,
    }
}

/// The label of the unit with the given index, from bytes up to petabytes.
pub open spec fn spec_unit_label(unit_type: SizeUnit, unit: nat) -> Seq<char> {
    match unit_type {
        SizeUnit::Decimal => {
            if unit == 0 {
                seq!['B']
            } else if unit == 1 {
                seq!['K', 'B']
            } else if unit == 2 {
                seq!['M', 'B']
            } else if unit == 3 {
                seq!['G', 'B']
            } else if unit == 4 {
                seq!['T', 'B']
            } else {
                seq!['P', 'B']
            }
        },
        SizeUnit::Binary => {
            if unit == 0 {
                seq!['B']
            } else if unit == 1 {
                seq!['K', 'i', 'B']
            } else if unit == 2 {
                seq!['M', 'i', 'B']
            } else if unit == 3 {
                seq!['G', 'i', 'B']
            } else if unit == 4 {
                seq!['T', 'i', 'B']
            } else {
                seq!['P', 'i', 'B']
            }
        },
    }
}

/// The powers of the factor, for unit scaling.
pub open spec fn pow_nat(base: nat, e: nat) -> nat
    decreases e,
{
    if e == 0 {
        1
    } else {
        base * pow_nat(base, (e - 1) as nat)
    }
}

/// The automatically chosen unit: step up while the value is at least one
/// factor of the next unit and a larger unit exists.
pub open spec fn spec_auto_unit(bytes: nat, factor: nat, u: nat) -> nat
    decreases 5 - u,
{
    if u < 5 && bytes >= pow_nat(factor, u + 1) {
        spec_auto_unit(bytes, factor, u + 1)
    } else {
        u
    }
}

/// The unit index the formatter uses: the forced one if given, otherwise
/// the automatic choice.
pub open spec fn spec_unit_index(bytes: nat, factor: nat, force_unit: Option<usize>) -> nat {
    match force_unit {
        Some(u) => u as nat,
        None => spec_auto_unit(bytes, factor, 0),
    }
}

/// The character of one decimal digit.
pub open spec fn digit_char(d: nat) -> char {
    if d == 0 {
        '0'
    } else if d == 1 {
        '1'
    } else if d == 2 {
        '2'
    } else if d == 3 {
        '3'
    } else if d == 4 {
        '4'
    } else if d == 5 {
        '5'
    } else if d == 6 {
        '6'
    } else if d == 7 {
        '7'
    } else if d == 8 {
        '8'
    } else {
        '9'
    }
}

/// The decimal representation of a number, most significant digit first.
pub open spec fn dec_rep(n: nat) -> Seq<char>
    decreases n,
{
    if n < 10 {
        seq![digit_char(n)]
    } else {
        dec_rep(n / 10).push(digit_char(n % 10))
    }
}

/// Long division of the remainder `r` by `d`, producing `k` fractional
/// digits and the half-up rounding carry: each step brings down one decimal
/// digit of `r / d`; after the last digit, a remainder of at least half of
/// `d` rounds up, and a digit that rounds over to ten becomes zero and
/// passes the carry on.
pub open spec fn spec_frac_digits(r: nat, d: nat, k: nat) -> (Seq<char>, bool)
    decreases k,
{
    if d == 0 {
        (Seq::empty(), false)
    } else if k == 0 {
        (Seq::empty(), 2 * r >= d)
    } else {
        let dig = (r * 10) / d;
        let r2 = (r * 10) % d;
        let (rest, carry) = spec_frac_digits(r2, d, (k - 1) as nat);
        let dig2 = if carry {
            dig + 1
        } else {
            dig
        };
        if dig2 == 10 {
            (seq![digit_char(0)] + rest, true)
        } else {
            (seq![digit_char(dig2)] + rest, false)
        }
    }
}

/// The formatted size: the scaled integer part, a point and the rounded
/// fractional digits when any were asked for, a space, and the unit label.
pub open spec fn spec_format_size(
    bytes: nat,
    decimals: nat,
    unit_type: SizeUnit,
    force_unit: Option<usize>,
) -> Seq<char> {
    let factor = spec_factor(unit_type);
    let unit = spec_unit_index(bytes, factor, force_unit);
    let d = pow_nat(factor, unit);
    let q = bytes / d;
    let r = bytes % d;
    let (frac, carry) = spec_frac_digits(r, d, decimals);
    let ip = if carry {
        q + 1
    } else {
        q
    };
    let head = dec_rep(ip) + (if decimals == 0 {
        Seq::<char>::empty()
    } else {
        seq!['.'] + frac
    });
    head + seq![' '] + spec_unit_label(unit_type, unit)
}

/// The character of one digit, as computed.
pub fn digit_char_exec(d: u64) -> (c: char)
    requires
        d <= 9,
    ensures
        c == digit_char(d as nat),
{
    if d == 0 {
        '0'
    } else if d == 1 {
        '1'
    } else if d == 2 {
        '2'
    } else if d == 3 {
        '3'
    } else if d == 4 {
        '4'
    } else if d == 5 {
        '5'
    } else if d == 6 {
        '6'
    } else if d == 7 {
        '7'
    } else if d == 8 {
        '8'
    } else {
        '9'
    }
}

/// The decimal digits of a number, most significant first.
fn dec_rep_exec(n: u64) -> (v: Vec<char>)
    ensures
        v@ == dec_rep(n as nat),
    decreases n,
{
    if n < 10 {
        let mut v: Vec<char> = Vec::new();
        v.push(digit_char_exec(n));
        proof {
            assert(v@ =~= dec_rep(n as nat));
        }
        v
    } else {
        let mut v = dec_rep_exec(n / 10);
        v.push(digit_char_exec(n % 10));
        v
    }
}

/// The `k` rounded fractional digits of `r / d`, and the rounding carry.
fn frac_digits_exec(r: u64, d: u64, k: usize) -> (out: (Vec<char>, bool))
    requires
        d > 0,
        r < d,
        d <= 0x4_0000_0000_0000,
    ensures
        (out.0@, out.1) == spec_frac_digits(r as nat, d as nat, k as nat),
    decreases k,
{
    if k == 0 {
        let v: Vec<char> = Vec::new();
        (v, 2 * r >= d)
    } else {
        let t = r * 10;
        let dig = t / d;
        let r2 = t % d;
        proof {
            assert(t == r * 10);
            assert(dig == t as nat / d as nat);
            assert(dig < 10) by (nonlinear_arith)
                requires
                    r < d,
                    d > 0,
                    t == r * 10,
                    dig == t / d,
            ;
        }
        let (rest, carry) = frac_digits_exec(r2, d, k - 1);
        let dig2 = if carry {
            dig + 1
        } else {
            dig
        };
        let mut v: Vec<char> = Vec::new();
        let out_carry = dig2 == 10;
        if out_carry {
            v.push(digit_char_exec(0));
        } else {
            v.push(digit_char_exec(dig2));
        }
        let mut rest = rest;
        v.append(&mut rest);
        proof {
            let (srest, scarry) = spec_frac_digits(
                (r as nat * 10) % (d as nat),
                d as nat,
                (k - 1) as nat,
            );
            if out_carry {
                assert(v@ =~= seq![digit_char(0)] + srest);
            } else {
                assert(v@ =~= seq![digit_char(dig2 as nat)] + srest);
            }
        }
        (v, out_carry)
    }
}

/// Converts a byte count to a human-readable string under the chosen unit
/// system, with the given number of fractional digits, either auto-scaled
/// or at the forced unit index. Pure and total over every byte count.
pub fn format_size(
    size_in_bytes: u64,
    decimals: usize,
    unit_type: SizeUnit,
    force_unit: Option<usize>,
) -> (r: String)
    requires
        force_unit matches Some(u) ==> u <= 5,
    ensures
        r@ == spec_format_size(size_in_bytes as nat, decimals as nat, unit_type, force_unit),
{
    let factor: u64 = match unit_type {
        SizeUnit::Decimal => 1000,
        SizeUnit::Binary => 1024,
    };
    proof {
        assert(factor as nat == spec_factor(unit_type));
    }
    let unit: usize = match force_unit {
        Some(u) => u,
        None => {
            let mut u: usize = 0;
            let mut next: u64 = factor;
            proof {
                assert(pow_nat(factor as nat, 1) == factor as nat * pow_nat(factor as nat, 0));
            }
            while u < 5 && size_in_bytes >= next
                invariant
                    u <= 5,
                    factor == 1000 || factor == 1024,
                    u < 5 ==> next as nat == pow_nat(factor as nat, (u + 1) as nat),
                    spec_auto_unit(size_in_bytes as nat, factor as nat, 0) == spec_auto_unit(
                        size_in_bytes as nat,
                        factor as nat,
                        u as nat,
                    ),
                decreases 5 - u,
            {
                u = u + 1;
                if u < 5 {
                    proof {
                        lemma_pow_le(factor as nat, u as nat);
                        assert(next * factor <= 0x1000_0000_0000_0000) by (nonlinear_arith)
                            requires
                                factor <= 1024,
                                next <= 0x4_0000_0000_0000,
                        ;
                        assert(pow_nat(factor as nat, (u + 1) as nat) == factor * pow_nat(
                            factor as nat,
                            u as nat,
                        ));
                    }
                    next = next * factor;
                }
            }
            u
        },
    };
    let mut d: u64 = 1;
    let mut i: usize = 0;
    while i < unit
        invariant
            i <= unit,
            unit <= 5,
            factor == 1000 || factor == 1024,
            d as nat == pow_nat(factor as nat, i as nat),
        decreases unit - i,
    {
        proof {
            lemma_pow_smaller(factor as nat, i as nat);
            assert(d * factor <= 0x4_0000_0000_0000) by (nonlinear_arith)
                requires
                    factor <= 1024,
                    d <= 0x100_0000_0000,
            ;
            assert(pow_nat(factor as nat, (i + 1) as nat) == factor * pow_nat(
                factor as nat,
                i as nat,
            ));
        }
        d = d * factor;
        i = i + 1;
    }
    proof {
        lemma_pow_le(factor as nat, unit as nat);
        assert(d > 0);
        assert(d <= 0x4_0000_0000_0000);
    }
    let q = size_in_bytes / d;
    let rem = size_in_bytes % d;
    let (frac, carry) = frac_digits_exec(rem, d, decimals);
    let ip = if carry {
        proof {
            if unit == 0 {
                assert(d == 1);
                assert(rem == 0);
                lemma_frac_digits_no_carry_on_zero(decimals as nat);
                assert(false);
            }
            assert(d >= 1000);
            assert(q < u64::MAX) by (nonlinear_arith)
                requires
                    d >= 1000,
                    q == size_in_bytes / d,
                    size_in_bytes <= u64::MAX,
            ;
        }
        q + 1
    } else {
        q
    };
    let mut out = dec_rep_exec(ip);
    if decimals > 0 {
        out.push('.');
        let mut frac = frac;
        out.append(&mut frac);
    }
    out.push(' ');
    let mut label = unit_label_exec(unit_type, unit);
    out.append(&mut label);
    proof {
        assert(out@ =~= spec_format_size(
            size_in_bytes as nat,
            decimals as nat,
            unit_type,
            force_unit,
        ));
    }
    string_from_chars(&out)
}

/// A smaller base gives a smaller power.
proof fn lemma_pow_mono(factor: nat, e: nat)
    requires
        factor <= 1024,
    ensures
        pow_nat(factor, e) <= pow_nat(1024, e),
    decreases e,
{
    if e > 0 {
        lemma_pow_mono(factor, (e - 1) as nat);
        assert(factor * pow_nat(factor, (e - 1) as nat) <= 1024 * pow_nat(1024, (e - 1) as nat))
            by (nonlinear_arith)
            requires
                factor <= 1024,
                pow_nat(factor, (e - 1) as nat) <= pow_nat(1024, (e - 1) as nat),
        ;
    }
}

/// Powers of a positive base are positive.
proof fn lemma_pow_pos(factor: nat, e: nat)
    requires
        factor >= 1,
    ensures
        pow_nat(factor, e) >= 1,
    decreases e,
{
    if e > 0 {
        lemma_pow_pos(factor, (e - 1) as nat);
        assert(factor * pow_nat(factor, (e - 1) as nat) >= 1) by (nonlinear_arith)
            requires
                factor >= 1,
                pow_nat(factor, (e - 1) as nat) >= 1,
        ;
    }
}

/// The fifth power of 1024, spelled out.
proof fn lemma_pow_1024_values()
    ensures
        pow_nat(1024, 0) == 1,
        pow_nat(1024, 1) == 1024,
        pow_nat(1024, 2) == 0x10_0000,
        pow_nat(1024, 3) == 0x4000_0000,
        pow_nat(1024, 4) == 0x100_0000_0000,
        pow_nat(1024, 5) == 0x4_0000_0000_0000,
{
    assert(pow_nat(1024, 0) == 1);
    assert(pow_nat(1024, 1) == 1024 * pow_nat(1024, 0));
    assert(pow_nat(1024, 2) == 1024 * pow_nat(1024, 1));
    assert(pow_nat(1024, 3) == 1024 * pow_nat(1024, 2));
    assert(pow_nat(1024, 4) == 1024 * pow_nat(1024, 3));
    assert(pow_nat(1024, 5) == 1024 * pow_nat(1024, 4));
}

/// Powers of a factor of at most 1024 stay within 2 to the 50th for
/// exponents up to five.
pub proof fn lemma_pow_le(factor: nat, e: nat)
    requires
        factor <= 1024,
        e <= 5,
    ensures
        pow_nat(factor, e) <= 0x4_0000_0000_0000,
        factor >= 1 ==> pow_nat(factor, e) >= 1,
        factor >= 1000 && e >= 1 ==> pow_nat(factor, e) >= 1000,
    decreases e,
{
    lemma_pow_mono(factor, e);
    lemma_pow_1024_values();
    assert(pow_nat(1024, e) <= 0x4_0000_0000_0000) by {
        if e == 0 {
        } else if e == 1 {
        } else if e == 2 {
        } else if e == 3 {
        } else if e == 4 {
        } else {
            assert(e == 5);
        }
    }
    if factor >= 1 {
        lemma_pow_pos(factor, e);
    }
    if factor >= 1000 && e >= 1 {
        lemma_pow_pos(factor, (e - 1) as nat);
        assert(pow_nat(factor, e) == factor * pow_nat(factor, (e - 1) as nat));
        assert(factor * pow_nat(factor, (e - 1) as nat) >= 1000) by (nonlinear_arith)
            requires
                factor >= 1000,
                pow_nat(factor, (e - 1) as nat) >= 1,
        ;
    }
}

/// Powers up to the fourth stay within 2 to the 40th.
proof fn lemma_pow_smaller(factor: nat, e: nat)
    requires
        factor <= 1024,
        e <= 4,
    ensures
        pow_nat(factor, e) <= 0x100_0000_0000,
{
    lemma_pow_mono(factor, e);
    lemma_pow_1024_values();
    assert(pow_nat(1024, e) <= 0x100_0000_0000) by {
        if e == 0 {
        } else if e == 1 {
        } else if e == 2 {
        } else if e == 3 {
        } else {
            assert(e == 4);
        }
    }
}

/// A zero remainder over divisor one never rounds up.
proof fn lemma_frac_digits_no_carry_on_zero(k: nat)
    ensures
        !spec_frac_digits(0, 1, k).1,
    decreases k,
{
    if k > 0 {
        lemma_frac_digits_no_carry_on_zero((k - 1) as nat);
    }
}

/// The numeric value of a digit character.
pub open spec fn digit_val(c: char) -> nat {
    if c == '0' {
        0
    } else if c == '1' {
        1
    } else if c == '2' {
        2
    } else if c == '3' {
        3
    } else if c == '4' {
        4
    } else if c == '5' {
        5
    } else if c == '6' {
        6
    } else if c == '7' {
        7
    } else if c == '8' {
        8
    } else {
        9
    }
}

/// The number a digit string stands for.
pub open spec fn digits_val(ds: Seq<char>) -> nat
    decreases ds.len(),
{
    if ds.len() == 0 {
        0
    } else {
        digits_val(ds.drop_last()) * 10 + digit_val(ds.last())
    }
}

/// Prepending one digit raises the rest by its positional weight.
proof fn lemma_digits_val_cons(c: char, rest: Seq<char>)
    ensures
        digits_val(seq![c] + rest) == digit_val(c) * pow_nat(10, rest.len()) + digits_val(rest),
    decreases rest.len(),
{
    let t = seq![c] + rest;
    if rest.len() == 0 {
        assert(t.drop_last() =~= Seq::<char>::empty());
        assert(t.last() == c);
        assert(digits_val(Seq::<char>::empty()) == 0);
        assert(pow_nat(10, 0) == 1);
        assert(digit_val(c) * 1 == digit_val(c)) by (nonlinear_arith);
    } else {
        assert(t.drop_last() =~= seq![c] + rest.drop_last());
        assert(t.last() == rest.last());
        lemma_digits_val_cons(c, rest.drop_last());
        assert(pow_nat(10, rest.len()) == 10 * pow_nat(10, (rest.len() - 1) as nat));
        assert((digit_val(c) * pow_nat(10, (rest.len() - 1) as nat) + digits_val(
            rest.drop_last(),
        )) * 10 + digit_val(rest.last()) == digit_val(c) * (10 * pow_nat(
            10,
            (rest.len() - 1) as nat,
        )) + (digits_val(rest.drop_last()) * 10 + digit_val(rest.last()))) by (nonlinear_arith);
    }
}

/// What the fractional digits stand for: the half-up rounding of
/// `r * 10^k / d`, with the carry flag exactly when that rounding reaches
/// one whole unit.
pub proof fn lemma_frac_digits_value(r: nat, d: nat, k: nat)
    requires
        0 < d,
        r < d,
    ensures
        ({
            let (digits, carry) = spec_frac_digits(r, d, k);
            let scaled = r * pow_nat(10, k);
            let rounded = scaled / d + (if 2 * (scaled % d) >= d {
                1nat
            } else {
                0nat
            });
            &&& digits.len() == k
            &&& rounded <= pow_nat(10, k)
            &&& (carry <==> rounded == pow_nat(10, k))
            &&& (!carry ==> digits_val(digits) == rounded)
            &&& (carry ==> digits_val(digits) == 0)
        }),
    decreases k,
{
    let (digits, carry) = spec_frac_digits(r, d, k);
    let scaled = r * pow_nat(10, k);
    if k == 0 {
        assert(pow_nat(10, 0) == 1);
        assert(digits =~= Seq::<char>::empty());
        assert(digits_val(Seq::<char>::empty()) == 0);
        assert(digits_val(digits) == 0);
        assert(scaled == r) by (nonlinear_arith)
            requires
                scaled == r * 1,
        ;
        assert(r / d == 0) by (nonlinear_arith)
            requires
                0 <= r < d,
        ;
        vstd::arithmetic::div_mod::lemma_small_mod(r, d);
        assert(scaled % d == r);
        assert(scaled / d == 0);
        let rounded = scaled / d + (if 2 * (scaled % d) >= d {
            1nat
        } else {
            0nat
        });
        assert(carry == (2 * r >= d));
        assert(rounded == (if 2 * r >= d {
            1nat
        } else {
            0nat
        }));
        assert(rounded <= pow_nat(10, k));
        assert(carry <==> rounded == pow_nat(10, k));
    } else {
        let dig = (r * 10) / d;
        let r2 = (r * 10) % d;
        vstd::arithmetic::div_mod::lemma_fundamental_div_mod((r * 10) as int, d as int);
        assert(r * 10 == d * dig + r2);
        assert(dig <= 9) by (nonlinear_arith)
            requires
                r < d,
                0 < d,
                r * 10 == d * dig + r2,
                r2 >= 0,
        ;
        lemma_frac_digits_value(r2, d, (k - 1) as nat);
        let (rest, carry2) = spec_frac_digits(r2, d, (k - 1) as nat);
        let scaled2 = r2 * pow_nat(10, (k - 1) as nat);
        lemma_pow10_pos((k - 1) as nat);
        let rounded2 = scaled2 / d + (if 2 * (scaled2 % d) >= d {
            1nat
        } else {
            0nat
        });
        // One long-division step: the scaled remainder splits into this
        // digit's positional weight and the scaled rest.
        assert(scaled == d * (dig * pow_nat(10, (k - 1) as nat)) + scaled2) by (nonlinear_arith)
            requires
                scaled == r * pow_nat(10, k),
                pow_nat(10, k) == 10 * pow_nat(10, (k - 1) as nat),
                r * 10 == d * dig + r2,
                scaled2 == r2 * pow_nat(10, (k - 1) as nat),
        ;
        assert(scaled2 < d * pow_nat(10, (k - 1) as nat)) by (nonlinear_arith)
            requires
                scaled2 == r2 * pow_nat(10, (k - 1) as nat),
                r2 < d,
                pow_nat(10, (k - 1) as nat) >= 1,
        ;
        vstd::arithmetic::div_mod::lemma_fundamental_div_mod(scaled2 as int, d as int);
        let qq = dig * pow_nat(10, (k - 1) as nat);
        let q2 = scaled2 / d;
        let rr = scaled2 % d;
        assert(scaled == d * (qq + q2) + rr) by (nonlinear_arith)
            requires
                scaled == d * qq + scaled2,
                scaled2 == d * q2 + rr,
        ;
        assert(scaled / d == qq + q2 && scaled % d == rr) by {
            vstd::arithmetic::div_mod::lemma_fundamental_div_mod_converse(
                scaled as int,
                d as int,
                (qq + q2) as int,
                rr as int,
            );
        }
        let rounded = scaled / d + (if 2 * (scaled % d) >= d {
            1nat
        } else {
            0nat
        });
        assert(rounded == dig * pow_nat(10, (k - 1) as nat) + rounded2);
        let dig2: nat = if carry2 {
            dig + 1
        } else {
            dig
        };
        if carry2 {
            assert(rounded == dig2 * pow_nat(10, (k - 1) as nat)) by (nonlinear_arith)
                requires
                    rounded == dig * pow_nat(10, (k - 1) as nat) + rounded2,
                    rounded2 == pow_nat(10, (k - 1) as nat),
                    dig2 == dig + 1,
            ;
        }
        if dig2 == 10 {
            assert(carry);
            assert(digits =~= seq![digit_char(0)] + rest);
            lemma_digits_val_cons(digit_char(0), rest);
            assert(rounded == pow_nat(10, k)) by (nonlinear_arith)
                requires
                    rounded == dig2 * pow_nat(10, (k - 1) as nat),
                    dig2 == 10,
                    pow_nat(10, k) == 10 * pow_nat(10, (k - 1) as nat),
            ;
        } else {
            assert(!carry);
            assert(digits =~= seq![digit_char(dig2)] + rest);
            lemma_digits_val_cons(digit_char(dig2), rest);
            assert(digit_val(digit_char(dig2)) == dig2);
            let rest_val: nat = if carry2 {
                0
            } else {
                rounded2
            };
            assert(digits_val(digits) == dig2 * pow_nat(10, (k - 1) as nat) + rest_val);
            assert(digits_val(digits) == rounded);
            assert(rounded < pow_nat(10, k)) by (nonlinear_arith)
                requires
                    rounded == dig2 * pow_nat(10, (k - 1) as nat) + (if carry2 {
                        0nat
                    } else {
                        rounded2
                    }),
                    dig2 <= 9,
                    carry2 || rounded2 < pow_nat(10, (k - 1) as nat),
                    pow_nat(10, (k - 1) as nat) >= 1,
                    pow_nat(10, k) == 10 * pow_nat(10, (k - 1) as nat),
            ;
        }
    }
}

/// The automatic unit never passes the largest configured one.
pub proof fn lemma_auto_unit_le(bytes: nat, factor: nat, u: nat)
    requires
        u <= 5,
    ensures
        u <= spec_auto_unit(bytes, factor, u) <= 5,
    decreases 5 - u,
{
    if u < 5 && bytes >= pow_nat(factor, u + 1) {
        lemma_auto_unit_le(bytes, factor, u + 1);
    }
}

/// What the whole rendered number stands for: integer part and fractional
/// digits together are exactly the half-up rounding of the byte count
/// divided by the chosen unit's factor, scaled to the asked-for digits.
pub proof fn lemma_format_size_rounds(
    bytes: nat,
    decimals: nat,
    unit_type: SizeUnit,
    force_unit: Option<usize>,
)
    requires
        force_unit matches Some(u) ==> u <= 5,
    ensures
        ({
            let factor = spec_factor(unit_type);
            let unit = spec_unit_index(bytes, factor, force_unit);
            let d = pow_nat(factor, unit);
            let (frac, carry) = spec_frac_digits(bytes % d, d, decimals);
            let ip = if carry {
                bytes / d + 1
            } else {
                bytes / d
            };
            let scaled = bytes * pow_nat(10, decimals);
            let rounded = scaled / d + (if 2 * (scaled % d) >= d {
                1nat
            } else {
                0nat
            });
            &&& ip * pow_nat(10, decimals) + digits_val(frac) == rounded
            &&& digits_val(frac) < pow_nat(10, decimals)
        }),
{
    let factor = spec_factor(unit_type);
    let unit = spec_unit_index(bytes, factor, force_unit);
    if force_unit is None {
        lemma_auto_unit_le(bytes, factor, 0);
    }
    assert(unit <= 5);
    lemma_pow_le(factor, unit);
    let d = pow_nat(factor, unit);
    assert(d >= 1);
    let q = bytes / d;
    let r = bytes % d;
    vstd::arithmetic::div_mod::lemma_fundamental_div_mod(bytes as int, d as int);
    lemma_frac_digits_value(r, d, decimals);
    let (frac, carry) = spec_frac_digits(r, d, decimals);
    let p10 = pow_nat(10, decimals);
    lemma_pow10_pos(decimals);
    let scaled = bytes * p10;
    let scaledr = r * p10;
    assert(scaled == d * (q * p10) + scaledr) by (nonlinear_arith)
        requires
            scaled == bytes * p10,
            bytes == d * q + r,
            scaledr == r * p10,
    ;
    assert(scaledr < d * p10) by (nonlinear_arith)
        requires
            scaledr == r * p10,
            r < d,
            p10 >= 1,
    ;
    vstd::arithmetic::div_mod::lemma_fundamental_div_mod(scaledr as int, d as int);
    let qq = q * p10;
    let q2 = scaledr / d;
    let rr = scaledr % d;
    assert(scaled == d * (qq + q2) + rr) by (nonlinear_arith)
        requires
            scaled == d * qq + scaledr,
            scaledr == d * q2 + rr,
    ;
    assert(scaled / d == qq + q2 && scaled % d == rr) by {
        vstd::arithmetic::div_mod::lemma_fundamental_div_mod_converse(
            scaled as int,
            d as int,
            (qq + q2) as int,
            rr as int,
        );
    }
    let rounded_frac = q2 + (if 2 * rr >= d {
        1nat
    } else {
        0nat
    });
    let rounded = scaled / d + (if 2 * (scaled % d) >= d {
        1nat
    } else {
        0nat
    });
    assert(rounded == qq + rounded_frac);
    if carry {
        assert(rounded_frac == p10);
        assert((q + 1) * p10 + 0 == qq + p10) by (nonlinear_arith)
            requires
                qq == q * p10,
        ;
    } else {
        assert(digits_val(frac) == rounded_frac);
        assert(rounded_frac < p10);
        assert(q * p10 + digits_val(frac) == qq + rounded_frac) by (nonlinear_arith)
            requires
                qq == q * p10,
                digits_val(frac) == rounded_frac,
        ;
    }
}

/// Powers of ten are positive.
proof fn lemma_pow10_pos(e: nat)
    ensures
        pow_nat(10, e) >= 1,
    decreases e,
{
    if e > 0 {
        lemma_pow10_pos((e - 1) as nat);
        assert(10 * pow_nat(10, (e - 1) as nat) >= 1) by (nonlinear_arith)
            requires
                pow_nat(10, (e - 1) as nat) >= 1,
        ;
    }
}

/// The label of the unit with the given index.
fn unit_label_exec(unit_type: SizeUnit, unit: usize) -> (v: Vec<char>)
    requires
        unit <= 5,
    ensures
        v@ == spec_unit_label(unit_type, unit as nat),
{
    let mut v: Vec<char> = Vec::new();
    match unit_type {
        SizeUnit::Decimal => {
            if unit == 0 {
                v.push('B');
            } else if unit == 1 {
                v.push('K');
                v.push('B');
            } else if unit == 2 {
                v.push('M');
                v.push('B');
            } else if unit == 3 {
                v.push('G');
                v.push('B');
            } else if unit == 4 {
                v.push('T');
                v.push('B');
            } else {
                v.push('P');
                v.push('B');
            }
        },
        SizeUnit::Binary => {
            if unit == 0 {
                v.push('B');
            } else if unit == 1 {
                v.push('K');
                v.push('i');
                v.push('B');
            } else if unit == 2 {
                v.push('M');
                v.push('i');
                v.push('B');
            } else if unit == 3 {
                v.push('G');
                v.push('i');
                v.push('B');
            } else if unit == 4 {
                v.push('T');
                v.push('i');
                v.push('B');
            } else {
                v.push('P');
                v.push('i');
                v.push('B');
            }
        },
    }
    proof {
        assert(v@ =~= spec_unit_label(unit_type, unit as nat));
    }
    v
}

/// The decimal digits of a number, as characters.
pub fn dec_rep_chars(n: u64) -> (v: Vec<char>)
    ensures
        v@ == dec_rep(n as nat),
{
    dec_rep_exec(n)
}

/// The decimal representation stands for exactly its number.
pub proof fn lemma_dec_rep_value(n: nat)
    ensures
        digits_val(dec_rep(n)) == n,
    decreases n,
{
    if n < 10 {
        assert(dec_rep(n).drop_last() =~= Seq::<char>::empty());
        assert(dec_rep(n).last() == digit_char(n));
        assert(digits_val(Seq::<char>::empty()) == 0);
        assert(digit_val(digit_char(n)) == n);
    } else {
        lemma_dec_rep_value(n / 10);
        assert(dec_rep(n).drop_last() =~= dec_rep(n / 10));
        assert(dec_rep(n).last() == digit_char(n % 10));
        assert(digit_val(digit_char(n % 10)) == n % 10);
        vstd::arithmetic::div_mod::lemma_fundamental_div_mod(n as int, 10);
    }
}

} // verus!
