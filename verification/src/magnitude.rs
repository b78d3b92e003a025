//! Magnitudes: non-negative decimal numbers read from text.
//!
//! A magnitude is kept as its integer part plus the fractional part
//! truncated to nine decimal digits. Nine digits are exact for this
//! library's purposes: every unit multiplier divides 10^9, so scaling by a
//! multiplier and flooring can never see past the ninth fraction digit.

use vstd::prelude::*;

use crate::digits::digit_val;
use crate::digits::digits_val;
use crate::digits::is_digit_char;
use crate::digits::lemma_digits_val_bound;
use crate::digits::lemma_digits_val_pad;
use crate::digits::lemma_digits_val_prefix;
use crate::digits::lemma_pow10_pos;
use crate::digits::pow10;
use crate::digits::zeros;

verus! {

/// Why magnitude text was rejected: it is not a decimal number at all, or
/// it is a strictly negative one.
#[derive(Clone, Copy, Debug, PartialEq, Eq, Structural)]
pub enum MagnitudeError {
    NotNumeric,
    Negative,
}

/// `s` starts with an explicit sign.
pub open spec fn has_sign(s: Seq<char>) -> bool {
    s.len() > 0 && (s[0] == '+' || s[0] == '-')
}

/// `s` without its sign, if it has one.
pub open spec fn body_text(s: Seq<char>) -> Seq<char> {
    if has_sign(s) {
        s.drop_first()
    } else {
        s
    }
}

/// Index of the first `'.'` in `s`, or `s.len()` if there is none.
pub open spec fn find_dot(s: Seq<char>) -> int
    decreases s.len(),
{
    if s.len() == 0 {
        0
    } else if s[0] == '.' {
        0
    } else {
        1 + find_dot(s.drop_first())
    }
}

/// The digits before the decimal point.
pub open spec fn int_digits(b: Seq<char>) -> Seq<char> {
    b.take(find_dot(b))
}

/// The digits after the decimal point.
pub open spec fn frac_digits(b: Seq<char>) -> Seq<char> {
    if find_dot(b) == b.len() {
        Seq::<char>::empty()
    } else {
        b.skip(find_dot(b) + 1)
    }
}

/// Every character of `s` is a decimal digit.
pub open spec fn all_digit_chars(s: Seq<char>) -> bool {
    forall|i: int| 0 <= i < s.len() ==> is_digit_char(#[trigger] s[i])
}

/// The text is a decimal number with an optional sign: digits with at most
/// one decimal point among them, and at least one digit.
pub open spec fn magnitude_text_ok(s: Seq<char>) -> bool {
    let b = body_text(s);
    &&& all_digit_chars(int_digits(b))
    &&& all_digit_chars(frac_digits(b))
    &&& int_digits(b).len() + frac_digits(b).len() >= 1
}

/// Value of the integer part of the magnitude text.
pub open spec fn int_val_of(s: Seq<char>) -> nat {
    digits_val(int_digits(body_text(s)))
}

/// The first nine fraction digits, right-padded with zeros: the fractional
/// part scaled by 10^9 and truncated.
pub open spec fn frac9_of(f: Seq<char>) -> nat {
    if f.len() >= 9 {
        digits_val(f.take(9))
    } else {
        digits_val(f + zeros((9 - f.len()) as nat))
    }
}

/// The fractional part of the magnitude text, scaled by 10^9 and truncated.
pub open spec fn frac9_val_of(s: Seq<char>) -> nat {
    frac9_of(frac_digits(body_text(s)))
}

/// The text denotes a strictly negative number.
pub open spec fn text_negative(s: Seq<char>) -> bool {
    &&& s.len() > 0
    &&& s[0] == '-'
    &&& (digits_val(int_digits(body_text(s))) > 0 || digits_val(frac_digits(body_text(s))) > 0)
}

/// A validated non-negative decimal magnitude. `int_part` is the integer
/// part and `frac9` the fractional part scaled by 10^9 (truncated). When
/// the integer part of the text exceeds `u64::MAX`, `huge` is set and
/// `int_part` is meaningless; every conversion then saturates.
#[derive(Clone, Copy, Debug)]
pub struct Magnitude {
    pub int_part: u64,
    pub frac9: u64,
    pub huge: bool,
}

impl Magnitude {
    /// The scaled fractional part holds at most nine digits.
    pub open spec fn wf(self) -> bool {
        self.frac9 < 1000000000
    }

    /// The magnitude scaled by 10^9, meaningful when `huge` is not set.
    pub open spec fn val9(self) -> nat {
        (self.int_part * 1000000000 + self.frac9) as nat
    }
}

/// The nine-digit scaled fraction of any digit string is below 10^9.
pub proof fn lemma_frac9_bound(f: Seq<char>)
    requires
        forall|i: int| 0 <= i < f.len() ==> is_digit_char(#[trigger] f[i]),
    ensures
        frac9_of(f) < 1000000000,
{
    let g9: Seq<char> = if f.len() >= 9 {
        f.take(9)
    } else {
        f + zeros((9 - f.len()) as nat)
    };
    assert(g9.len() == 9);
    assert(forall|i: int| 0 <= i < g9.len() ==> is_digit_char(#[trigger] g9[i]));
    lemma_digits_val_bound(g9);
    lemma_pow10_values();
    assert(frac9_of(f) == digits_val(g9));
}

/// If the first `k` characters of `b` are not dots, and either `k` is the
/// length of `b` or a dot stands at `k`, then `k` is where the first dot is.
proof fn lemma_find_dot_at(b: Seq<char>, k: int)
    requires
        0 <= k <= b.len(),
        forall|j: int| 0 <= j < k ==> b[j] != '.',
        k < b.len() ==> b[k] == '.',
    ensures
        find_dot(b) == k,
    decreases b.len(),
{
    if b.len() == 0 {
    } else if k == 0 {
    } else {
        assert(b[0] != '.');
        let t = b.drop_first();
        assert(forall|j: int| 0 <= j < k - 1 ==> #[trigger] t[j] == b[j + 1]);
        lemma_find_dot_at(t, k - 1);
    }
}

/// Scanning one more digit: the value so far is multiplied by ten, and it
/// is nonzero exactly when a nonzero digit has been seen.
proof fn lemma_digit_step(s: Seq<char>, x: int, d: nat)
    requires
        0 <= x < s.len(),
        is_digit_char(s[x]),
        digit_val(s[x]) == d,
    ensures
        digits_val(s.take(x + 1)) == digits_val(s.take(x)) * 10 + d,
        (digits_val(s.take(x + 1)) > 0) <==> (digits_val(s.take(x)) > 0 || d > 0),
        digits_val(s.take(x + 1)) >= digits_val(s.take(x)),
{
    lemma_digits_val_prefix(s, x);
    let v = digits_val(s.take(x));
    assert(v * 10 + d > 0 <==> (v > 0 || d > 0)) by (nonlinear_arith);
    assert(v * 10 + d >= v) by (nonlinear_arith);
}

/// A running total at most `(u64::MAX - d) / 10` takes one more digit
/// without overflowing.
proof fn lemma_accumulate_fits(acc: u64, d: u64)
    requires
        d <= 9,
        acc <= (u64::MAX - d) / 10,
    ensures
        acc * 10 + d <= u64::MAX,
{
    let q = (u64::MAX - d) / 10;
    assert(10 * q <= u64::MAX - d);
    assert(acc * 10 <= q * 10) by (nonlinear_arith)
        requires
            acc <= q,
    ;
}

/// A running total beyond `(u64::MAX - d) / 10` overflows on the next digit.
proof fn lemma_accumulate_overflows(acc: u64, d: u64)
    requires
        d <= 9,
        acc > (u64::MAX - d) / 10,
    ensures
        acc * 10 + d > u64::MAX,
{
    let q = (u64::MAX - d) / 10;
    assert(10 * q > u64::MAX - d - 10);
    assert(acc * 10 >= (q + 1) * 10) by (nonlinear_arith)
        requires
            acc >= q + 1,
    ;
}

/// A value of fewer than nine digits stays under 10^9 after one more digit.
proof fn lemma_frac_acc_bound(f: Seq<char>, c: int)
    requires
        0 <= c <= 8,
        c <= f.len(),
        forall|k: int| 0 <= k < c ==> is_digit_char(#[trigger] f[k]),
    ensures
        digits_val(f.take(c)) < 100000000,
{
    assert(forall|k: int| 0 <= k < c ==> is_digit_char(#[trigger] f.take(c)[k]));
    lemma_digits_val_bound(f.take(c));
    lemma_pow10_values();
    crate::digits::lemma_pow10_adds(c as nat, (8 - c) as nat);
    lemma_pow10_pos((8 - c) as nat);
    assert(pow10(c as nat) * pow10((8 - c) as nat) >= pow10(c as nat)) by (nonlinear_arith)
        requires
            pow10((8 - c) as nat) >= 1,
    ;
}

/// Reads a non-negative decimal number: an optional `'+'` or `'-'` sign,
/// digits, and at most one decimal point. Text that is not such a number is
/// `NotNumeric`; a number below zero is `Negative`.
#[verifier::rlimit(50)]
pub fn parse_magnitude(s: &str) -> (r: Result<Magnitude, MagnitudeError>)
    ensures
        magnitude_text_ok(s@) && !text_negative(s@) ==> (r matches Ok(m) && m.wf() && m.huge == (
        int_val_of(s@) > u64::MAX) && (!m.huge ==> m.int_part == int_val_of(s@)) && m.frac9
            == frac9_val_of(s@)),
        magnitude_text_ok(s@) && text_negative(s@) ==> r == Err::<Magnitude, MagnitudeError>(
            MagnitudeError::Negative,
        ),
        !magnitude_text_ok(s@) ==> r == Err::<Magnitude, MagnitudeError>(
            MagnitudeError::NotNumeric,
        ),
{
    let ghost t = s@;
    let n = s.unicode_len();
    let mut i: usize = 0;
    let mut neg = false;
    if n > 0 {
        let c0 = s.get_char(0);
        if c0 == '-' {
            neg = true;
            i = 1;
        } else if c0 == '+' {
            i = 1;
        }
    }
    let ghost off = i as int;
    let ghost b = body_text(t);
    proof {
        assert(neg == (t.len() > 0 && t[0] == '-'));
        if has_sign(t) {
            assert(off == 1);
        } else {
            assert(off == 0);
        }
        assert(b.len() == n - off);
        assert(forall|j: int| 0 <= j < b.len() ==> #[trigger] b[j] == t[j + off]);
    }
    let istart = i;

    // Find the first decimal point, if any.
    let mut dot: usize = n;
    let mut j: usize = i;
    while j < n
        invariant
            i <= j <= n,
            n == t.len(),
            i as int == off,
            0 <= off <= n,
            s@ == t,
            (dot == n && (forall|k: int| off <= k < j ==> t[k] != '.')) || (off <= dot < j
                && t[dot as int] == '.' && (forall|k: int| off <= k < dot ==> t[k] != '.')),
        decreases n - j,
    {
        if dot == n && s.get_char(j) == '.' {
            dot = j;
        }
        j += 1;
    }
    proof {
        let fd = if dot == n {
            b.len() as int
        } else {
            dot - off
        };
        assert(forall|k: int| 0 <= k < fd ==> #[trigger] b[k] != '.');
        lemma_find_dot_at(b, fd);
        assert(find_dot(b) == dot - off);
        assert(int_digits(b).len() == dot - off);
    }

    // Integer part.
    let mut int_part: u64 = 0;
    let mut huge = false;
    let mut int_nonzero = false;
    while i < dot
        invariant
            istart as int == off,
            off <= i <= dot <= n,
            n == t.len(),
            s@ == t,
            b == body_text(t),
            b.len() == n - off,
            forall|k: int| 0 <= k < b.len() ==> #[trigger] b[k] == t[k + off],
            find_dot(b) == dot - off,
            forall|k: int| off <= k < i ==> is_digit_char(#[trigger] t[k]),
            !huge ==> int_part == digits_val(b.take(i - off)),
            huge ==> digits_val(b.take(i - off)) > u64::MAX,
            int_nonzero == (digits_val(b.take(i - off)) > 0),
        decreases dot - i,
    {
        let c = s.get_char(i);
        let u = c as u32;
        if !(48 <= u && u <= 57) {
            proof {
                assert(b[i - off] == t[i as int]);
                assert(!is_digit_char(int_digits(b)[i - off]));
                assert(!all_digit_chars(int_digits(b)));
            }
            return Err(MagnitudeError::NotNumeric);
        }
        let d = (u - 48) as u64;
        proof {
            assert(is_digit_char(b[i - off]));
            assert(digit_val(b[i - off]) == d);
            lemma_digit_step(b, i - off, d as nat);
        }
        if !huge {
            if int_part > (u64::MAX - d) / 10 {
                proof {
                    lemma_accumulate_overflows(int_part, d);
                }
                huge = true;
            } else {
                proof {
                    lemma_accumulate_fits(int_part, d);
                }
                int_part = int_part * 10 + d;
            }
        }
        if d > 0 {
            int_nonzero = true;
        }
        i += 1;
    }
    proof {
        assert(b.take(dot - off) == int_digits(b));
        assert(all_digit_chars(int_digits(b))) by {
            assert(forall|k: int|
                0 <= k < int_digits(b).len() ==> is_digit_char(#[trigger] int_digits(b)[k])) by {
                assert(forall|k: int|
                    0 <= k < int_digits(b).len() ==> int_digits(b)[k] == t[k + off]);
            }
        }
    }

    // Fractional part.
    let ghost f = frac_digits(b);
    let mut facc: u64 = 0;
    let mut fcnt: usize = 0;
    let mut frac_nonzero = false;
    if dot < n {
        i = dot + 1;
        proof {
            assert(f == b.skip(find_dot(b) + 1));
            assert(f.len() == n - (dot + 1));
            assert(forall|k: int| 0 <= k < f.len() ==> #[trigger] f[k] == t[k + dot + 1]);
        }
        while i < n
            invariant
                dot + 1 <= i <= n,
                n == t.len(),
                s@ == t,
                b == body_text(t),
                f == frac_digits(b),
                fcnt == i - (dot + 1),
                f.len() == n - (dot + 1),
                forall|k: int| 0 <= k < f.len() ==> #[trigger] f[k] == t[k + dot + 1],
                forall|k: int| dot + 1 <= k < i ==> is_digit_char(#[trigger] t[k]),
                facc == digits_val(f.take(if fcnt < 9 { fcnt as int } else { 9 })),
                facc < 1000000000,
                frac_nonzero == (digits_val(f.take(fcnt as int)) > 0),
            decreases n - i,
        {
            let c = s.get_char(i);
            let u = c as u32;
            if !(48 <= u && u <= 57) {
                proof {
                    assert(f[i - (dot + 1)] == t[i as int]);
                    assert(!is_digit_char(f[i - (dot + 1)]));
                    assert(!all_digit_chars(frac_digits(b)));
                }
                return Err(MagnitudeError::NotNumeric);
            }
            let d = (u - 48) as u64;
            proof {
                assert(is_digit_char(f[fcnt as int]));
                assert(digit_val(f[fcnt as int]) == d);
                lemma_digit_step(f, fcnt as int, d as nat);
            }
            if fcnt < 9 {
                proof {
                    lemma_frac_acc_bound(f, fcnt as int);
                }
                facc = facc * 10 + d;
            }
            if d > 0 {
                frac_nonzero = true;
            }
            fcnt += 1;
            i += 1;
        }
        proof {
            assert(fcnt == f.len());
            assert(all_digit_chars(frac_digits(b))) by {
                assert(forall|k: int| 0 <= k < f.len() ==> is_digit_char(#[trigger] f[k])) by {
                    assert(forall|k: int| 0 <= k < f.len() ==> f[k] == t[k + dot + 1]);
                }
            }
        }
    } else {
        proof {
            assert(find_dot(b) == b.len());
            assert(f =~= Seq::<char>::empty());
            assert(all_digit_chars(frac_digits(b)));
        }
    }

    // Pad the fraction to nine digits.
    let frac9: u64 = if fcnt >= 9 {
        proof {
            assert(f.take(9) == f.take(if fcnt < 9 {
                fcnt as int
            } else {
                9
            }));
            assert(frac9_of(f) == facc);
        }
        facc
    } else {
        let p = pow10_u64((9 - fcnt) as u64);
        proof {
            assert(f.take(fcnt as int) =~= f);
            lemma_digits_val_pad(f, (9 - fcnt) as nat);
            assert(frac9_of(f) == digits_val(f) * pow10((9 - fcnt) as nat));
            lemma_digits_val_bound(f);
            crate::digits::lemma_pow10_adds(fcnt as nat, (9 - fcnt) as nat);
            lemma_pow10_values();
            assert(digits_val(f) * pow10((9 - fcnt) as nat) < pow10(fcnt as nat) * pow10(
                (9 - fcnt) as nat,
            )) by (nonlinear_arith)
                requires
                    digits_val(f) < pow10(fcnt as nat),
                    pow10((9 - fcnt) as nat) >= 1,
            {
                lemma_pow10_pos((9 - fcnt) as nat);
            }
        }
        facc * p
    };
    proof {
        assert(frac9 == frac9_val_of(t));
        assert(frac9 < 1000000000);
    }

    // At least one digit in all.
    if dot - istart == 0 && fcnt == 0 {
        proof {
            assert(int_digits(b).len() == 0);
            assert(frac_digits(b).len() == 0);
        }
        return Err(MagnitudeError::NotNumeric);
    }
    proof {
        assert(magnitude_text_ok(t));
        assert(int_nonzero == (digits_val(int_digits(b)) > 0));
        assert(frac_nonzero == (digits_val(frac_digits(b)) > 0)) by {
            if dot < n {
                assert(f.take(fcnt as int) =~= f);
            }
        }
    }
    if neg && (int_nonzero || frac_nonzero) {
        proof {
            assert(text_negative(t));
        }
        return Err(MagnitudeError::Negative);
    }
    proof {
        assert(!text_negative(t));
        assert(int_val_of(t) == digits_val(b.take(dot - off)));
    }
    Ok(Magnitude { int_part, frac9, huge })
}

/// The first ten powers of ten, spelled out.
proof fn lemma_pow10_values()
    ensures
        pow10(0) == 1,
        pow10(1) == 10,
        pow10(2) == 100,
        pow10(3) == 1000,
        pow10(4) == 10000,
        pow10(5) == 100000,
        pow10(6) == 1000000,
        pow10(7) == 10000000,
        pow10(8) == 100000000,
        pow10(9) == 1000000000,
{
    assert(pow10(0) == 1);
    assert(pow10(1) == 10 * pow10(0));
    assert(pow10(2) == 10 * pow10(1));
    assert(pow10(3) == 10 * pow10(2));
    assert(pow10(4) == 10 * pow10(3));
    assert(pow10(5) == 10 * pow10(4));
    assert(pow10(6) == 10 * pow10(5));
    assert(pow10(7) == 10 * pow10(6));
    assert(pow10(8) == 10 * pow10(7));
    assert(pow10(9) == 10 * pow10(8));
}

/// 10 to the power `e`, for exponents up to nine.
fn pow10_u64(e: u64) -> (r: u64)
    requires
        e <= 9,
    ensures
        r == pow10(e as nat),
{
    proof {
        lemma_pow10_values();
    }
    match e {
        0 => 1,
        1 => 10,
        2 => 100,
        3 => 1000,
        4 => 10000,
        5 => 100000,
        6 => 1000000,
        7 => 10000000,
        8 => 100000000,
        _ => 1000000000,
    }
}

} // verus!
