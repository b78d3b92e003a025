//! Decimal digits: powers of ten, numeric values of digit strings, and
//! rendering of non-negative integers as decimal text.

use vstd::prelude::*;

verus! {

/// 10 raised to the power `e`.
pub open spec fn pow10(e: nat) -> nat
    decreases e,
{
    if e == 0 {
        1
    } else {
        10 * pow10((e - 1) as nat)
    }
}

/// Powers of ten multiply by adding exponents.
pub proof fn lemma_pow10_adds(a: nat, b: nat)
    ensures
        pow10(a) * pow10(b) == pow10(a + b),
    decreases a,
{
    if a == 0 {
        assert(pow10(0) == 1);
        assert(pow10(0) * pow10(b) == pow10(b)) by (nonlinear_arith)
            requires
                pow10(0) == 1,
        ;
    } else {
        lemma_pow10_adds((a - 1) as nat, b);
        assert(pow10(a) == 10 * pow10((a - 1) as nat));
        assert(pow10(a) * pow10(b) == 10 * pow10((a - 1) as nat) * pow10(b));
        assert(10 * pow10((a - 1) as nat) * pow10(b) == 10 * (pow10((a - 1) as nat) * pow10(b)))
            by (nonlinear_arith);
    }
}

/// `c` is an ASCII decimal digit.
pub open spec fn is_digit_char(c: char) -> bool {
    48 <= c as u32 <= 57
}

/// Numeric value of a single digit character.
pub open spec fn digit_val(c: char) -> nat
    recommends
        is_digit_char(c),
{
    (c as u32 - 48) as nat
}

/// The digit character for a value below ten.
pub open spec fn digit_char(d: nat) -> char
    recommends
        d < 10,
{
    (48 + d) as char
}

/// Numeric value of a digit string, most significant digit first.
pub open spec fn digits_val(s: Seq<char>) -> nat
    recommends
        forall|i: int| 0 <= i < s.len() ==> is_digit_char(#[trigger] s[i]),
    decreases s.len(),
{
    if s.len() == 0 {
        0
    } else {
        digits_val(s.drop_last()) * 10 + digit_val(s.last())
    }
}

/// Decimal representation of `n`: most significant digit first, no leading
/// zeros except for a single `'0'` when `n` is zero.
pub open spec fn dec_rep(n: nat) -> Seq<char>
    decreases n,
{
    if n < 10 {
        seq![digit_char(n)]
    } else {
        dec_rep(n / 10) + seq![digit_char(n % 10)]
    }
}

/// A sequence of `k` zero digits.
pub open spec fn zeros(k: nat) -> Seq<char> {
    Seq::new(k, |i: int| '0')
}

/// Scanning one more digit multiplies the value seen so far by ten.
pub proof fn lemma_digits_val_prefix(s: Seq<char>, i: int)
    requires
        0 <= i < s.len(),
    ensures
        digits_val(s.take(i + 1)) == digits_val(s.take(i)) * 10 + digit_val(s[i]),
{
    assert(s.take(i + 1).drop_last() =~= s.take(i));
    assert(s.take(i + 1).last() == s[i]);
}

/// A string of `n` digits is worth less than `10^n`.
pub proof fn lemma_digits_val_bound(s: Seq<char>)
    requires
        forall|i: int| 0 <= i < s.len() ==> is_digit_char(#[trigger] s[i]),
    ensures
        digits_val(s) < pow10(s.len()),
    decreases s.len(),
{
    if s.len() > 0 {
        lemma_digits_val_bound(s.drop_last());
        assert(is_digit_char(s.last()));
        assert(digit_val(s.last()) <= 9);
        assert(digits_val(s.drop_last()) * 10 <= (pow10((s.len() - 1) as nat) - 1) * 10)
            by (nonlinear_arith)
            requires
                digits_val(s.drop_last()) <= pow10((s.len() - 1) as nat) - 1,
        ;
    }
}

/// Splitting a digit string at `k`: the whole value is the head's value
/// shifted left by the tail's length, plus the tail's value.
pub proof fn lemma_digits_val_split(s: Seq<char>, k: int)
    requires
        0 <= k <= s.len(),
    ensures
        digits_val(s) == digits_val(s.take(k)) * pow10((s.len() - k) as nat) + digits_val(
            s.skip(k),
        ),
    decreases s.len() - k,
{
    if k == s.len() {
        assert(s.take(k) =~= s);
        assert(s.skip(k) =~= Seq::<char>::empty());
        assert(digits_val(s) == digits_val(s.take(k)) * 1 + 0);
    } else {
        lemma_digits_val_split(s.drop_last(), k);
        assert(s.drop_last().take(k) =~= s.take(k));
        assert(s.drop_last().skip(k) =~= s.skip(k).drop_last());
        assert(s.skip(k).last() == s.last());
        let a = digits_val(s.take(k));
        let tail = digits_val(s.skip(k).drop_last());
        let e = (s.len() - 1 - k) as nat;
        assert(digits_val(s) == (a * pow10(e) + tail) * 10 + digit_val(s.last()));
        assert((a * pow10(e) + tail) * 10 == a * (10 * pow10(e)) + tail * 10) by (nonlinear_arith);
        assert(pow10((s.len() - k) as nat) == 10 * pow10(e));
        assert(digits_val(s.skip(k)) == tail * 10 + digit_val(s.last()));
    }
}

/// Scaling a digit string's value by `10^e` and dividing by `10^len` floors
/// away everything past the `e`-th digit: what is left is the value of the
/// first `e` digits.
pub proof fn lemma_digits_scale_truncates(g: Seq<char>, e: nat)
    requires
        e <= g.len(),
        forall|i: int| 0 <= i < g.len() ==> is_digit_char(#[trigger] g[i]),
    ensures
        digits_val(g) * pow10(e) / pow10(g.len()) == digits_val(g.take(e as int)),
{
    let ll = g.len();
    let h = digits_val(g.take(e as int));
    let tail = digits_val(g.skip(e as int));
    lemma_digits_val_split(g, e as int);
    assert(forall|i: int| 0 <= i < g.skip(e as int).len() ==> is_digit_char(#[trigger] g.skip(e as int)[i]));
    lemma_digits_val_bound(g.skip(e as int));
    assert(tail < pow10((ll - e) as nat));
    lemma_pow10_adds(e, (ll - e) as nat);
    lemma_pow10_pos(e);
    assert(tail * pow10(e) < pow10((ll - e) as nat) * pow10(e)) by (nonlinear_arith)
        requires
            tail < pow10((ll - e) as nat),
            pow10(e) >= 1,
    ;
    assert(pow10((ll - e) as nat) * pow10(e) == pow10(ll));
    assert((h * pow10((ll - e) as nat) + tail) * pow10(e) == h * (pow10((ll - e) as nat) * pow10(
        e,
    )) + tail * pow10(e)) by (nonlinear_arith);
    assert(digits_val(g) * pow10(e) == h * pow10(ll) + tail * pow10(e));
    vstd::arithmetic::div_mod::lemma_fundamental_div_mod_converse(
        digits_val(g) as int * pow10(e) as int,
        pow10(ll) as int,
        h as int,
        tail as int * pow10(e) as int,
    );
}

/// Powers of ten are at least one.
pub proof fn lemma_pow10_pos(e: nat)
    ensures
        pow10(e) >= 1,
    decreases e,
{
    if e > 0 {
        lemma_pow10_pos((e - 1) as nat);
    }
}

/// Appending zero digits multiplies the value by the matching power of ten.
pub proof fn lemma_digits_val_pad(s: Seq<char>, k: nat)
    ensures
        digits_val(s + zeros(k)) == digits_val(s) * pow10(k),
    decreases k,
{
    if k == 0 {
        assert(s + zeros(0) =~= s);
        assert(pow10(0) == 1);
        assert(digits_val(s + zeros(0)) == digits_val(s) * pow10(0));
    } else {
        lemma_digits_val_pad(s, (k - 1) as nat);
        let t = s + zeros(k);
        assert(t.drop_last() =~= s + zeros((k - 1) as nat));
        assert(t.last() == zeros(k)[k - 1]);
        assert(t.last() == '0');
        assert(digit_val('0') == 0);
        assert(digits_val(t) == digits_val(s + zeros((k - 1) as nat)) * 10);
        assert(digits_val(s) * pow10((k - 1) as nat) * 10 == digits_val(s) * (10 * pow10(
            (k - 1) as nat,
        ))) by (nonlinear_arith);
        assert(pow10(k) == 10 * pow10((k - 1) as nat));
        assert(digits_val(t) == digits_val(s) * pow10((k - 1) as nat) * 10);
        assert(digits_val(t) == digits_val(s) * pow10(k));
    }
}

/// A one-character string slice for the digit `d`.
pub(crate) fn digit_str(d: u64) -> (r: &'static str)
    requires
        d < 10,
    ensures
        r@ =~= seq![digit_char(d as nat)],
{
    proof {
        reveal_strlit("0");
        reveal_strlit("1");
        reveal_strlit("2");
        reveal_strlit("3");
        reveal_strlit("4");
        reveal_strlit("5");
        reveal_strlit("6");
        reveal_strlit("7");
        reveal_strlit("8");
        reveal_strlit("9");
    }
    match d {
        0 => "0",
        1 => "1",
        2 => "2",
        3 => "3",
        4 => "4",
        5 => "5",
        6 => "6",
        7 => "7",
        8 => "8",
        _ => "9",
    }
}

/// Renders `n` in decimal.
pub fn u64_to_string(n: u64) -> (s: String)
    ensures
        s@ == dec_rep(n as nat),
    decreases n,
{
    if n < 10 {
        String::from_str(digit_str(n))
    } else {
        let s = u64_to_string(n / 10);
        let r = s.concat(digit_str(n % 10));
        proof {
            assert(r@ =~= dec_rep(n as nat));
        }
        r
    }
}

} // verus!
