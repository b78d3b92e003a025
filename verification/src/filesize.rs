//! A magnitude tagged with its unit, and its normalization to a canonical
//! byte count.

use vstd::arithmetic::div_mod::lemma_hoist_over_denominator;
use vstd::prelude::*;

use crate::errors::SizeError;
use crate::magnitude::Magnitude;
use crate::unit::parse_unit;
use crate::unit::spec_multiplier;
use crate::unit::unit_of_text;
use crate::unit::SizeUnit;

verus! {

/// A file size as the user stated it: a non-negative magnitude in one of
/// the four recognized units.
#[derive(Clone, Copy, Debug)]
pub enum FileSize {
    Bytes(Magnitude),
    Kilobytes(Magnitude),
    Megabytes(Magnitude),
    Gigabytes(Magnitude),
}

impl FileSize {
    /// The magnitude, without its unit.
    pub open spec fn magnitude(self) -> Magnitude {
        match self {
            FileSize::Bytes(m) => m,
            FileSize::Kilobytes(m) => m,
            FileSize::Megabytes(m) => m,
            FileSize::Gigabytes(m) => m,
        }
    }

    /// The unit, without its magnitude.
    pub open spec fn unit(self) -> SizeUnit {
        match self {
            FileSize::Bytes(_) => SizeUnit::Bytes,
            FileSize::Kilobytes(_) => SizeUnit::Kilobytes,
            FileSize::Megabytes(_) => SizeUnit::Megabytes,
            FileSize::Gigabytes(_) => SizeUnit::Gigabytes,
        }
    }

    /// The magnitude is well formed.
    pub open spec fn wf(self) -> bool {
        self.magnitude().wf()
    }

    /// The canonical byte count: the magnitude times the unit's multiplier,
    /// fractional bytes dropped, saturating at `u64::MAX` (sizes beyond the
    /// 64-bit range are out of scope).
    pub open spec fn spec_normalized(self) -> nat {
        if self.magnitude().huge {
            u64::MAX as nat
        } else {
            let q = self.magnitude().val9() * spec_multiplier(self.unit()) / 1000000000;
            if q > u64::MAX {
                u64::MAX as nat
            } else {
                q
            }
        }
    }

    /// Tags `size` with the unit named by `unit`, matched case-insensitively;
    /// unrecognized unit text is an `InvalidUnitError`.
    pub fn new(size: Magnitude, unit: &str) -> (r: Result<FileSize, SizeError>)
        ensures
            r == (match unit_of_text(unit@) {
                Some(SizeUnit::Bytes) => Ok::<FileSize, SizeError>(FileSize::Bytes(size)),
                Some(SizeUnit::Kilobytes) => Ok::<FileSize, SizeError>(
                    FileSize::Kilobytes(size),
                ),
                Some(SizeUnit::Megabytes) => Ok::<FileSize, SizeError>(
                    FileSize::Megabytes(size),
                ),
                Some(SizeUnit::Gigabytes) => Ok::<FileSize, SizeError>(
                    FileSize::Gigabytes(size),
                ),
                None => Err::<FileSize, SizeError>(SizeError::InvalidUnitError),
            }),
    {
        match parse_unit(unit) {
            Ok(SizeUnit::Bytes) => Ok(FileSize::Bytes(size)),
            Ok(SizeUnit::Kilobytes) => Ok(FileSize::Kilobytes(size)),
            Ok(SizeUnit::Megabytes) => Ok(FileSize::Megabytes(size)),
            Ok(SizeUnit::Gigabytes) => Ok(FileSize::Gigabytes(size)),
            Err(e) => Err(e),
        }
    }

    /// Normalizes the file size to bytes: the magnitude times the unit's
    /// multiplier, truncated toward zero, saturating at `u64::MAX`.
    pub fn normalize_to_bytes(&self) -> (r: u64)
        requires
            self.wf(),
        ensures
            r == self.spec_normalized(),
    {
        let (mag, mult): (&Magnitude, u64) = match self {
            FileSize::Bytes(m) => (m, 1),
            FileSize::Kilobytes(m) => (m, 1000),
            FileSize::Megabytes(m) => (m, 1000000),
            FileSize::Gigabytes(m) => (m, 1000000000),
        };
        if mag.huge {
            return u64::MAX;
        }
        let whole = (mag.int_part as u128) * (mult as u128);
        proof {
            assert(mag.int_part * mult <= u64::MAX * 1000000000) by (nonlinear_arith)
                requires
                    mag.int_part <= u64::MAX,
                    mult <= 1000000000,
            ;
            assert(mag.frac9 * mult < 1000000000 * 1000000000) by (nonlinear_arith)
                requires
                    mag.frac9 < 1000000000,
                    mult <= 1000000000,
            ;
        }
        let fracb = (mag.frac9 as u128) * (mult as u128) / 1000000000u128;
        proof {
            vstd::arithmetic::div_mod::lemma_div_nonincreasing(
                mag.frac9 as int * mult as int,
                1000000000,
            );
            vstd::arithmetic::div_mod::lemma_div_pos_is_pos(
                mag.frac9 as int * mult as int,
                1000000000,
            );
        }
        let q = whole + fracb;
        proof {
            lemma_hoist_over_denominator(
                mag.frac9 as int * mult as int,
                mag.int_part as int * mult as int,
                1000000000,
            );
            assert(mag.frac9 * mult + (mag.int_part * mult) * 1000000000 == (mag.int_part
                * 1000000000 + mag.frac9) * mult) by (nonlinear_arith);
            assert(q == self.magnitude().val9() * spec_multiplier(self.unit()) / 1000000000);
        }
        if q > u64::MAX as u128 {
            u64::MAX
        } else {
            q as u64
        }
    }
}

} // verus!
