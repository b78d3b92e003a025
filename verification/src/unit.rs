//! The recognized size units and case-insensitive matching of unit text.

use vstd::prelude::*;

use crate::errors::SizeError;

verus! {

/// One of the four recognized SI size units.
#[derive(Clone, Copy, Debug, PartialEq, Eq, Structural)]
pub enum SizeUnit {
    Bytes,
    Kilobytes,
    Megabytes,
    Gigabytes,
}

/// How many bytes one of this unit holds.
pub open spec fn spec_multiplier(u: SizeUnit) -> nat {
    match u {
        SizeUnit::Bytes => 1,
        SizeUnit::Kilobytes => 1000,
        SizeUnit::Megabytes => 1000000,
        SizeUnit::Gigabytes => 1000000000,
    }
}

/// ASCII lowercasing of a single character; anything outside `'A'..='Z'`
/// is left alone.
pub open spec fn lower_char(c: char) -> char {
    if 65 <= c as u32 <= 90 {
        (c as u32 + 32) as char
    } else {
        c
    }
}

/// ASCII lowercasing of a character sequence.
pub open spec fn lower_seq(s: Seq<char>) -> Seq<char> {
    Seq::new(s.len(), |i: int| lower_char(s[i]))
}

/// The unit named by `s`, matched case-insensitively against the four
/// recognized spellings; `None` for anything else.
pub open spec fn unit_of_text(s: Seq<char>) -> Option<SizeUnit> {
    if lower_seq(s) == "bytes"@ {
        Some(SizeUnit::Bytes)
    } else if lower_seq(s) == "kb"@ {
        Some(SizeUnit::Kilobytes)
    } else if lower_seq(s) == "mb"@ {
        Some(SizeUnit::Megabytes)
    } else if lower_seq(s) == "gb"@ {
        Some(SizeUnit::Gigabytes)
    } else {
        None
    }
}

/// Unit matching sees only the ASCII-lowercased text: two spellings that
/// lowercase alike name the same unit (or both name none).
pub proof fn lemma_unit_case_insensitive(a: Seq<char>, b: Seq<char>)
    requires
        a.len() == b.len(),
        forall|i: int| 0 <= i < a.len() ==> lower_char(#[trigger] a[i]) == lower_char(b[i]),
    ensures
        unit_of_text(a) == unit_of_text(b),
{
    assert(lower_seq(a) =~= lower_seq(b));
}

impl SizeUnit {
    /// The byte multiplier of this unit: 1, 1000, 1000000 or 1000000000.
    pub fn multiplier(&self) -> (m: u64)
        ensures
            m == spec_multiplier(*self),
    {
        match self {
            SizeUnit::Bytes => 1,
            SizeUnit::Kilobytes => 1000,
            SizeUnit::Megabytes => 1000000,
            SizeUnit::Gigabytes => 1000000000,
        }
    }
}

/// ASCII lowercasing of a single character.
fn lower_char_exec(c: char) -> (r: char)
    ensures
        r == lower_char(c),
{
    let u = c as u32;
    if 65 <= u && u <= 90 {
        ((u as u8) + 32) as char
    } else {
        c
    }
}

/// Whether `s` equals `t` after ASCII-lowercasing `s`.
fn matches_lowered(s: &str, t: &str) -> (r: bool)
    ensures
        r == (lower_seq(s@) == t@),
{
    let n = s.unicode_len();
    if n != t.unicode_len() {
        proof {
            assert(lower_seq(s@).len() != t@.len());
        }
        return false;
    }
    let mut i: usize = 0;
    while i < n
        invariant
            n == s@.len() == t@.len(),
            i <= n,
            forall|j: int| 0 <= j < i ==> lower_char(s@[j]) == t@[j],
        decreases n - i,
    {
        if lower_char_exec(s.get_char(i)) != t.get_char(i) {
            proof {
                assert(lower_seq(s@)[i as int] != t@[i as int]);
            }
            return false;
        }
        i += 1;
    }
    proof {
        assert(lower_seq(s@) =~= t@);
    }
    true
}

/// Matches `s` case-insensitively against the recognized units; any other
/// text is an `InvalidUnitError`.
pub fn parse_unit(s: &str) -> (r: Result<SizeUnit, SizeError>)
    ensures
        r == (match unit_of_text(s@) {
            Some(u) => Ok::<SizeUnit, SizeError>(u),
            None => Err::<SizeUnit, SizeError>(SizeError::InvalidUnitError),
        }),
{
    if matches_lowered(s, "bytes") {
        Ok(SizeUnit::Bytes)
    } else if matches_lowered(s, "kb") {
        Ok(SizeUnit::Kilobytes)
    } else if matches_lowered(s, "mb") {
        Ok(SizeUnit::Megabytes)
    } else if matches_lowered(s, "gb") {
        Ok(SizeUnit::Gigabytes)
    } else {
        Err(SizeError::InvalidUnitError)
    }
}

} // verus!
