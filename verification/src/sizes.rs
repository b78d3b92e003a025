//! The four human-readable renderings of a byte count, one per unit.

use vstd::arithmetic::div_mod::lemma_div_is_ordered;
use vstd::arithmetic::div_mod::lemma_div_is_ordered_by_denominator;
use vstd::arithmetic::div_mod::lemma_div_multiples_vanish;
use vstd::prelude::*;

use crate::digits::dec_rep;
use crate::digits::digit_char;
use crate::digits::digit_str;
use crate::digits::u64_to_string;

verus! {

/// Hundredths of `b / div`, rounded to the nearest hundredth with halves
/// rounded up.
pub open spec fn spec_hundredths(b: nat, div: nat) -> nat
    recommends
        div >= 2,
{
    (b * 100 + div / 2) / div
}

/// Fixed-point rendering, two digits after the decimal point, of a value
/// given in hundredths.
pub open spec fn fixed2_rep(h: nat) -> Seq<char> {
    dec_rep(h / 100) + seq!['.', digit_char((h / 10) % 10), digit_char(h % 10)]
}

/// What the bytes field shows for a byte count `b`.
pub open spec fn bytes_rep(b: nat) -> Seq<char> {
    dec_rep(b) + " bytes"@
}

/// What the kilobytes field shows for a byte count `b`.
pub open spec fn kilobytes_rep(b: nat) -> Seq<char> {
    fixed2_rep(spec_hundredths(b, 1000)) + " kb"@
}

/// What the megabytes field shows for a byte count `b`.
pub open spec fn megabytes_rep(b: nat) -> Seq<char> {
    fixed2_rep(spec_hundredths(b, 1000000)) + " mb"@
}

/// What the gigabytes field shows for a byte count `b`.
pub open spec fn gigabytes_rep(b: nat) -> Seq<char> {
    fixed2_rep(spec_hundredths(b, 1000000000)) + " gb"@
}

/// The four display lines for a byte count `b`, each indented and labelled.
pub open spec fn display_rep(b: nat) -> Seq<char> {
    "   bytes: "@ + bytes_rep(b) + "\n"@ + "   kilobytes: "@ + kilobytes_rep(b) + "\n"@
        + "   megabytes: "@ + megabytes_rep(b) + "\n"@ + "   gigabytes: "@ + gigabytes_rep(b)
        + "\n"@
}

/// A single file size rendered in each of the four units.
pub struct Sizes {
    pub bytes: String,
    pub kilobytes: String,
    pub megabytes: String,
    pub gigabytes: String,
}

/// Hundredths of `b / div`, rounded to the nearest hundredth with halves
/// rounded up.
fn hundredths(b: u64, div: u64) -> (r: u64)
    requires
        div == 1000 || div == 1000000 || div == 1000000000,
    ensures
        r == spec_hundredths(b as nat, div as nat),
{
    let num = (b as u128) * 100 + (div as u128) / 2;
    let q = num / (div as u128);
    proof {
        lemma_div_is_ordered_by_denominator(num as int, 1000, div as int);
        lemma_div_is_ordered(num as int, 1000 * (u64::MAX as int), 1000);
        lemma_div_multiples_vanish(u64::MAX as int, 1000);
    }
    q as u64
}

/// Fixed-point rendering, two digits after the decimal point, of a value
/// given in hundredths.
fn fixed2_string(h: u64) -> (s: String)
    ensures
        s@ == fixed2_rep(h as nat),
{
    let mut s = u64_to_string(h / 100);
    s.append(".");
    s.append(digit_str((h / 10) % 10));
    s.append(digit_str(h % 10));
    proof {
        reveal_strlit(".");
        assert(s@ =~= fixed2_rep(h as nat));
    }
    s
}

impl Sizes {
    /// Renders a byte count in all four units: the exact byte count, and
    /// kilobytes, megabytes and gigabytes with two digits after the decimal
    /// point.
    pub fn from_bytes(size_in_bytes: u64) -> (s: Sizes)
        ensures
            s.bytes@ == bytes_rep(size_in_bytes as nat),
            s.kilobytes@ == kilobytes_rep(size_in_bytes as nat),
            s.megabytes@ == megabytes_rep(size_in_bytes as nat),
            s.gigabytes@ == gigabytes_rep(size_in_bytes as nat),
    {
        let mut bytes = u64_to_string(size_in_bytes);
        bytes.append(" bytes");
        let mut kilobytes = fixed2_string(hundredths(size_in_bytes, 1000));
        kilobytes.append(" kb");
        let mut megabytes = fixed2_string(hundredths(size_in_bytes, 1000000));
        megabytes.append(" mb");
        let mut gigabytes = fixed2_string(hundredths(size_in_bytes, 1000000000));
        gigabytes.append(" gb");
        Sizes { bytes, kilobytes, megabytes, gigabytes }
    }

    /// The four renderings as display lines, one per unit, each indented
    /// and labelled.
    pub fn to_display_string(&self) -> (r: String)
        ensures
            r@ == "   bytes: "@ + self.bytes@ + "\n"@ + "   kilobytes: "@ + self.kilobytes@
                + "\n"@ + "   megabytes: "@ + self.megabytes@ + "\n"@ + "   gigabytes: "@
                + self.gigabytes@ + "\n"@,
    {
        let mut r = String::new();
        r.append("   bytes: ");
        r.append(self.bytes.as_str());
        r.append("\n");
        r.append("   kilobytes: ");
        r.append(self.kilobytes.as_str());
        r.append("\n");
        r.append("   megabytes: ");
        r.append(self.megabytes.as_str());
        r.append("\n");
        r.append("   gigabytes: ");
        r.append(self.gigabytes.as_str());
        r.append("\n");
        proof {
            assert(r@ =~= "   bytes: "@ + self.bytes@ + "\n"@ + "   kilobytes: "@
                + self.kilobytes@ + "\n"@ + "   megabytes: "@ + self.megabytes@ + "\n"@
                + "   gigabytes: "@ + self.gigabytes@ + "\n"@);
        }
        r
    }
}

} // verus!
