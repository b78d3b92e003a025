//! Library-wide guarantees that relate normalization and formatting.

use vstd::arithmetic::div_mod::lemma_basic_div;
use vstd::arithmetic::div_mod::lemma_div_multiples_vanish;
use vstd::arithmetic::div_mod::lemma_fundamental_div_mod;
use vstd::arithmetic::div_mod::lemma_hoist_over_denominator;
use vstd::arithmetic::div_mod::lemma_mod_bound;
use vstd::prelude::*;

use crate::digits::dec_rep;
use crate::digits::digit_char;
use crate::digits::digits_val;
use crate::digits::is_digit_char;
use crate::digits::lemma_digits_scale_truncates;
use crate::digits::lemma_digits_val_pad;
use crate::digits::lemma_pow10_adds;
use crate::digits::pow10;
use crate::digits::zeros;
use crate::magnitude::frac9_of;
use crate::magnitude::Magnitude;
use crate::filesize::FileSize;
use crate::sizes::bytes_rep;
use crate::sizes::fixed2_rep;
use crate::sizes::gigabytes_rep;
use crate::sizes::kilobytes_rep;
use crate::sizes::megabytes_rep;
use crate::sizes::spec_hundredths;
use crate::unit::spec_multiplier;
use crate::unit::SizeUnit;

verus! {

/// Round trip for the kilobyte, megabyte and gigabyte units: normalize a
/// magnitude to bytes, reformat in the magnitude's own unit, and the value
/// shown (`h` hundredths, i.e. `h / 100`) lies within one hundredth of the
/// magnitude (`val9 / 10^9`). The two inequalities state exactly that,
/// scaled by `100 * 10^9`.
pub proof fn lemma_round_trip(f: FileSize)
    requires
        f.wf(),
        !f.magnitude().huge,
        f.unit() != SizeUnit::Bytes,
        f.magnitude().val9() * spec_multiplier(f.unit()) / 1000000000 <= u64::MAX,
    ensures
        ({
            let v = f.magnitude().val9();
            let b = f.spec_normalized();
            let h = spec_hundredths(b, spec_multiplier(f.unit()));
            &&& 100 * v - 1000000000 <= h * 1000000000 <= 100 * v + 1000000000
            &&& 100 * v - 750000000 <= h * 1000000000 <= 100 * v + 750000000
        }),
{
    let g = 1000000000int;
    let v = f.magnitude().val9() as int;
    let b = f.spec_normalized() as int;
    let h = spec_hundredths(f.spec_normalized(), spec_multiplier(f.unit())) as int;
    match f.unit() {
        SizeUnit::Bytes => {
            assert(false);
        },
        SizeUnit::Kilobytes => {
            assert(v * spec_multiplier(f.unit()) == v * 1000);
            assert(b == v * 1000 / g);
            let num = b * 100 + 500;
            assert(h == num / 1000);
            lemma_fundamental_div_mod(v * 1000, g);
            lemma_mod_bound(v * 1000, g);
            lemma_fundamental_div_mod(num, 1000);
            lemma_mod_bound(num, 1000);
            assert(100 * v - 750000000 <= h * g <= 100 * v + 750000000);
        },
        SizeUnit::Megabytes => {
            assert(v * spec_multiplier(f.unit()) == v * 1000000);
            assert(b == v * 1000000 / g);
            let num = b * 100 + 500000;
            assert(h == num / 1000000);
            lemma_fundamental_div_mod(v * 1000000, g);
            lemma_mod_bound(v * 1000000, g);
            lemma_fundamental_div_mod(num, 1000000);
            lemma_mod_bound(num, 1000000);
            assert(100 * v - 750000000 <= h * g <= 100 * v + 750000000);
        },
        SizeUnit::Gigabytes => {
            assert(v * spec_multiplier(f.unit()) == v * 1000000000);
            assert(b == v * 1000000000 / g);
            let num = b * 100 + 500000000;
            assert(h == num / 1000000000);
            lemma_fundamental_div_mod(v * 1000000000, g);
            lemma_mod_bound(v * 1000000000, g);
            lemma_fundamental_div_mod(num, 1000000000);
            lemma_mod_bound(num, 1000000000);
            assert(100 * v - 750000000 <= h * g <= 100 * v + 750000000);
        },
    }
}

/// Round trip for the bytes unit: a whole-number magnitude of bytes
/// normalizes to exactly that number, and the bytes field shows it exactly.
pub proof fn lemma_round_trip_bytes(f: FileSize)
    requires
        f.wf(),
        !f.magnitude().huge,
        f.unit() == SizeUnit::Bytes,
        f.magnitude().val9() % 1000000000 == 0,
    ensures
        1000000000 * f.spec_normalized() == f.magnitude().val9(),
        bytes_rep(f.spec_normalized()) == dec_rep(f.spec_normalized()) + " bytes"@,
{
    let m = f.magnitude();
    let v = m.val9() as int;
    assert(v == m.int_part * 1000000000 + m.frac9);
    lemma_fundamental_div_mod(v, 1000000000);
    assert(v % 1000000000 == m.frac9 as int) by {
        vstd::arithmetic::div_mod::lemma_fundamental_div_mod_converse(
            v,
            1000000000,
            m.int_part as int,
            m.frac9 as int,
        );
    }
    assert(m.frac9 == 0);
    assert(v / 1000000000 == m.int_part as int) by {
        vstd::arithmetic::div_mod::lemma_fundamental_div_mod_converse(
            v,
            1000000000,
            m.int_part as int,
            0,
        );
    }
    assert(v * spec_multiplier(f.unit()) == v);
    assert(f.spec_normalized() == m.int_part);
}

/// The first ten powers of ten, spelled out.
proof fn lemma_pow10_values()
    ensures
        pow10(0) == 1,
        pow10(3) == 1000,
        pow10(6) == 1000000,
        pow10(9) == 1000000000,
{
    assert(pow10(1) == 10 * pow10(0));
    assert(pow10(2) == 10 * pow10(1));
    assert(pow10(3) == 10 * pow10(2));
    assert(pow10(4) == 10 * pow10(3));
    assert(pow10(5) == 10 * pow10(4));
    assert(pow10(6) == 10 * pow10(5));
    assert(pow10(7) == 10 * pow10(6));
    assert(pow10(8) == 10 * pow10(7));
    assert(pow10(9) == 10 * pow10(8));
}

/// Scaling a whole part and a digit-string fraction by `10^e` and flooring:
/// only the first `e` fraction digits survive.
proof fn lemma_scaled_floor(intv: nat, f: Seq<char>, e: nat)
    requires
        e <= f.len(),
        forall|i: int| 0 <= i < f.len() ==> is_digit_char(#[trigger] f[i]),
    ensures
        (intv * pow10(f.len()) + digits_val(f)) * pow10(e) / pow10(f.len()) == intv * pow10(e)
            + digits_val(f.take(e as int)),
{
    let d = f.len();
    let fv = digits_val(f) as int;
    let iv = intv as int;
    let pe = pow10(e) as int;
    let pd = pow10(d) as int;
    crate::digits::lemma_pow10_pos(d);
    assert((iv * pd + fv) * pe == fv * pe + (iv * pe) * pd) by (nonlinear_arith);
    lemma_hoist_over_denominator(fv * pe, iv * pe, pow10(d));
    lemma_digits_scale_truncates(f, e);
}

/// Truncating a magnitude's fraction to nine digits loses nothing when
/// normalizing: for every unit, the byte count computed from the nine-digit
/// model is exactly the floor of the full decimal value times the unit's
/// multiplier, however many fraction digits the text carried.
pub proof fn lemma_nine_digit_model_exact(intv: nat, f: Seq<char>, u: SizeUnit)
    requires
        forall|i: int| 0 <= i < f.len() ==> is_digit_char(#[trigger] f[i]),
    ensures
        (intv * 1000000000 + frac9_of(f)) * spec_multiplier(u) / 1000000000 == (intv * pow10(
            f.len(),
        ) + digits_val(f)) * spec_multiplier(u) / pow10(f.len()),
{
    let e: nat = match u {
        SizeUnit::Bytes => 0,
        SizeUnit::Kilobytes => 3,
        SizeUnit::Megabytes => 6,
        SizeUnit::Gigabytes => 9,
    };
    lemma_pow10_values();
    assert(spec_multiplier(u) == pow10(e));
    let d = f.len();

    // The nine-digit model is itself a whole part with a nine-digit fraction.
    let g9: Seq<char> = if d >= 9 {
        f.take(9)
    } else {
        f + zeros((9 - d) as nat)
    };
    assert(g9.len() == 9);
    assert(forall|i: int| 0 <= i < g9.len() ==> is_digit_char(#[trigger] g9[i]));
    assert(frac9_of(f) == digits_val(g9));
    lemma_scaled_floor(intv, g9, e);
    assert((intv * 1000000000 + frac9_of(f)) * spec_multiplier(u) / 1000000000 == intv * pow10(e)
        + digits_val(g9.take(e as int)));

    if e <= d {
        lemma_scaled_floor(intv, f, e);
        assert(g9.take(e as int) =~= f.take(e as int));
    } else {
        // Fewer fraction digits than the scale: the scaled value is a whole
        // number, nothing is floored away on either side.
        let fv = digits_val(f) as int;
        let iv = intv as int;
        crate::digits::lemma_pow10_pos(d);
        lemma_pow10_adds((e - d) as nat, d);
        assert((iv * pow10(d) + fv) * pow10(e) == pow10(d) as int * ((iv * pow10(e)) + fv * pow10(
            (e - d) as nat,
        ))) by (nonlinear_arith)
            requires
                pow10(e) == pow10((e - d) as nat) * pow10(d),
        ;
        lemma_div_multiples_vanish(
            iv * pow10(e) + fv * pow10((e - d) as nat),
            pow10(d) as int,
        );
        assert(g9.take(e as int) =~= f + zeros((e - d) as nat));
        lemma_digits_val_pad(f, (e - d) as nat);
        assert(digits_val(g9.take(e as int)) == fv * pow10((e - d) as nat));
    }
}

/// Round trip at the level of the magnitude text, for the kilobyte,
/// megabyte and gigabyte units: take a decimal number with integer part
/// `intv` and fraction digits `f`, normalize it to bytes (the exact floor
/// of the scaled value, however long the fraction), reformat in the same
/// unit, and the value shown (`h` hundredths, i.e. `h / 100`) lies within
/// one hundredth of the magnitude (`num / 10^d`). The two inequalities
/// state exactly that, scaled by `100 * 10^d`.
pub proof fn lemma_round_trip_text(intv: nat, f: Seq<char>, u: SizeUnit)
    requires
        u != SizeUnit::Bytes,
        forall|i: int| 0 <= i < f.len() ==> is_digit_char(#[trigger] f[i]),
        (intv * pow10(f.len()) + digits_val(f)) * spec_multiplier(u) / pow10(f.len()) <= u64::MAX,
    ensures
        ({
            let num = intv * pow10(f.len()) + digits_val(f);
            let b = num * spec_multiplier(u) / pow10(f.len());
            let h = spec_hundredths(b, spec_multiplier(u));
            100 * num - pow10(f.len()) <= h * pow10(f.len()) <= 100 * num + pow10(f.len())
        }),
{
    let d = f.len();
    let pd = pow10(d) as int;
    let fv = digits_val(f) as int;
    let num = intv as int * pd + fv;
    let mult = spec_multiplier(u) as int;
    let b = num * mult / pd;
    crate::digits::lemma_pow10_pos(d);
    lemma_pow10_values();
    assert(1 <= mult <= 1000000000);

    // The integer part fits in 64 bits: the byte count, which does, dominates it.
    assert(num * mult >= intv as int * pd) by (nonlinear_arith)
        requires
            mult >= 1,
            num >= intv as int * pd >= 0,
    ;
    vstd::arithmetic::div_mod::lemma_div_is_ordered(intv as int * pd, num * mult, pd);
    lemma_div_multiples_vanish(intv as int, pd);
    assert(intv as int * pd == pd * intv as int) by (nonlinear_arith);
    assert(intv <= u64::MAX);

    // The nine-digit model of the same number, as the parser would hold it.
    crate::magnitude::lemma_frac9_bound(f);
    let m9 = Magnitude { int_part: intv as u64, frac9: frac9_of(f) as u64, huge: false };
    let fs = match u {
        SizeUnit::Bytes => FileSize::Bytes(m9),
        SizeUnit::Kilobytes => FileSize::Kilobytes(m9),
        SizeUnit::Megabytes => FileSize::Megabytes(m9),
        SizeUnit::Gigabytes => FileSize::Gigabytes(m9),
    };
    let v9 = m9.val9() as int;
    lemma_nine_digit_model_exact(intv, f, u);
    assert(v9 * mult / 1000000000 == num * mult / pd);
    assert(fs.spec_normalized() == b);
    lemma_round_trip(fs);
    let h = spec_hundredths(fs.spec_normalized(), spec_multiplier(u)) as int;
    assert(100 * v9 - 750000000 <= h * 1000000000 <= 100 * v9 + 750000000);

    if d >= 9 {
        // The fraction splits into the nine kept digits and a short tail.
        let p = pow10((d - 9) as nat) as int;
        lemma_pow10_adds(9, (d - 9) as nat);
        assert(1000000000 * p == pd);
        crate::digits::lemma_pow10_pos((d - 9) as nat);
        crate::digits::lemma_digits_val_split(f, 9);
        assert(frac9_of(f) == digits_val(f.take(9)));
        let tail = digits_val(f.skip(9)) as int;
        assert(forall|i: int|
            0 <= i < f.skip(9).len() ==> is_digit_char(#[trigger] f.skip(9)[i]));
        crate::digits::lemma_digits_val_bound(f.skip(9));
        assert(tail < p);
        assert(v9 * p == num - tail) by (nonlinear_arith)
            requires
                v9 == intv * 1000000000 + frac9_of(f),
                num == intv as int * pd + fv,
                fv == frac9_of(f) as int * p + tail,
                pd == 1000000000 * p,
        ;
        let hg = h * 1000000000;
        assert((100 * v9 - 750000000) * p <= hg * p <= (100 * v9 + 750000000) * p)
            by (nonlinear_arith)
            requires
                p >= 1,
                100 * v9 - 750000000 <= hg <= 100 * v9 + 750000000,
        ;
        assert(hg * p == h * pd) by (nonlinear_arith)
            requires
                hg == h * 1000000000,
                pd == 1000000000 * p,
        ;
        assert((100 * v9 - 750000000) * p == 100 * (v9 * p) - 750000000 * p) by (nonlinear_arith);
        assert((100 * v9 + 750000000) * p == 100 * (v9 * p) + 750000000 * p) by (nonlinear_arith);
        assert(100 * (v9 * p) == 100 * num - 100 * tail);
        assert(750000100 * p <= pd);
        assert(h * pd >= 100 * num - 100 * tail - 750000000 * p);
        assert(h * pd >= 100 * num - pd);
        assert(h * pd <= 100 * num + 750000000 * p - 100 * tail);
        assert(h * pd <= 100 * num + pd);
    } else {
        // Fewer than nine fraction digits: the nine-digit model is the
        // number itself, scaled by a power of ten.
        let q = pow10((9 - d) as nat) as int;
        lemma_pow10_adds(d, (9 - d) as nat);
        assert(pd * q == 1000000000);
        crate::digits::lemma_pow10_pos((9 - d) as nat);
        lemma_digits_val_pad(f, (9 - d) as nat);
        assert(frac9_of(f) == digits_val(f) * pow10((9 - d) as nat));
        assert(v9 == num * q) by (nonlinear_arith)
            requires
                v9 == intv * 1000000000 + fv * q,
                num == intv as int * pd + fv,
                1000000000 == pd * q,
        ;
        assert(100 * v9 == (100 * num) * q) by (nonlinear_arith)
            requires
                v9 == num * q,
        ;
        assert(h * 1000000000 >= (100 * num) * q - pd * q);
        assert((100 * num) * q - pd * q == (100 * num - pd) * q) by (nonlinear_arith);
        assert(h * 1000000000 <= (100 * num) * q + pd * q);
        assert((100 * num) * q + pd * q == (100 * num + pd) * q) by (nonlinear_arith);
        assert(h * 1000000000 == (h * pd) * q) by (nonlinear_arith)
            requires
                1000000000 == pd * q,
        ;
        assert(h * pd >= 100 * num - pd) by (nonlinear_arith)
            requires
                (h * pd) * q >= (100 * num - pd) * q,
                q >= 1,
        ;
        assert(h * pd <= 100 * num + pd) by (nonlinear_arith)
            requires
                (h * pd) * q <= (100 * num + pd) * q,
                q >= 1,
        ;
    }
}

/// A magnitude of zero normalizes to zero bytes in every unit, and the
/// formatted fields for zero bytes show `0 bytes` and `0.00` with the unit
/// abbreviation.
pub proof fn lemma_zero_magnitude(f: FileSize)
    requires
        f.wf(),
        !f.magnitude().huge,
        f.magnitude().val9() == 0,
    ensures
        f.spec_normalized() == 0,
        bytes_rep(0) == seq!['0'] + " bytes"@,
        kilobytes_rep(0) == seq!['0', '.', '0', '0'] + " kb"@,
        megabytes_rep(0) == seq!['0', '.', '0', '0'] + " mb"@,
        gigabytes_rep(0) == seq!['0', '.', '0', '0'] + " gb"@,
{
    assert(0 * spec_multiplier(f.unit()) == 0) by (nonlinear_arith);
    assert(0int / 1000000000 == 0) by {
        lemma_basic_div(0, 1000000000);
    }
    assert(f.spec_normalized() == 0);
    assert(spec_hundredths(0, 1000) == 0) by {
        lemma_basic_div(500, 1000);
    }
    assert(spec_hundredths(0, 1000000) == 0) by {
        lemma_basic_div(500000, 1000000);
    }
    assert(spec_hundredths(0, 1000000000) == 0) by {
        lemma_basic_div(500000000, 1000000000);
    }
    assert(digit_char(0) == '0');
    assert(dec_rep(0) =~= seq!['0']);
    assert(fixed2_rep(0) =~= seq!['0', '.', '0', '0']);
}

} // verus!
