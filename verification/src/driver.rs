//! The whole program as a pure function: from the argument list to the text
//! written on each stream and the process exit code.

use vstd::prelude::*;

use crate::errors::SizeError;
use crate::filesize::FileSize;
use crate::magnitude::magnitude_text_ok;
use crate::magnitude::parse_magnitude;
use crate::magnitude::text_negative;
use crate::magnitude::MagnitudeError;
use crate::sizes::display_rep;
use crate::sizes::Sizes;
use crate::unit::unit_of_text;
use crate::unit::SizeUnit;

verus! {

/// Everything a run of the program produces: the text for standard output,
/// the text for standard error, and the exit code.
pub struct RunOutcome {
    pub stdout: String,
    pub stderr: String,
    pub exit_code: i32,
}

/// The program name to echo in the usage message.
pub open spec fn prog_of(a: Seq<String>) -> Seq<char> {
    if a.len() > 0 {
        a[0]@
    } else {
        Seq::<char>::empty()
    }
}

/// The usage line shown when the argument count is wrong.
pub open spec fn usage_msg(prog: Seq<char>) -> Seq<char> {
    "Usage: "@ + prog + " <file_size> <unit (bytes/kb/mb/gb)>"@
}

/// The diagnostic for a negative magnitude.
pub open spec fn negative_msg() -> Seq<char> {
    "Invalid file size. Size cannot be a negative number."@
}

/// The diagnostic for magnitude text that is not a number.
pub open spec fn non_numeric_msg() -> Seq<char> {
    "Invalid file size. Size cannot be a non-numeric value."@
}

/// The diagnostic for an unrecognized unit, which echoes the unit text.
pub open spec fn invalid_unit_msg(unit: Seq<char>) -> Seq<char> {
    "Invalid unit: '"@ + unit + "'. Supported units: 'bytes', 'kb', 'mb', or 'gb'."@
}

/// The unit a recognized spelling names; immaterial for unrecognized text.
pub open spec fn named_unit(unit: Seq<char>) -> SizeUnit {
    match unit_of_text(unit) {
        Some(u) => u,
        None => SizeUnit::Bytes,
    }
}

/// The byte count the program prints for valid magnitude text and a unit:
/// the magnitude times the unit's multiplier, truncated toward zero,
/// saturating at `u64::MAX`.
pub open spec fn spec_bytes_of(mag: Seq<char>, u: SizeUnit) -> nat {
    if crate::magnitude::int_val_of(mag) > u64::MAX {
        u64::MAX as nat
    } else {
        let v9 = crate::magnitude::int_val_of(mag) * 1000000000 + crate::magnitude::frac9_val_of(
            mag,
        );
        let q = v9 * crate::unit::spec_multiplier(u) / 1000000000;
        if q > u64::MAX {
            u64::MAX as nat
        } else {
            q
        }
    }
}

/// Everything standard output shows on success: the echoed input, then the
/// four sizes, one per line, then a blank line.
pub open spec fn success_stdout(mag: Seq<char>, unit: Seq<char>) -> Seq<char> {
    "file size ("@ + mag + " "@ + unit + "):\n"@ + display_rep(
        spec_bytes_of(mag, named_unit(unit)),
    ) + "\n"@
}

/// Runs the whole pipeline on an argument list (program name included):
/// validate the argument count, parse the magnitude, match the unit,
/// normalize, format. Exactly one stream carries text, and the exit code is
/// 0 on success, 4 for a bad magnitude and 2 otherwise.
pub fn run(args: &Vec<String>) -> (r: RunOutcome)
    ensures
        args@.len() != 3 ==> (r.exit_code == 2 && r.stdout@ == Seq::<char>::empty() && r.stderr@
            == usage_msg(prog_of(args@))),
        args@.len() == 3 && !magnitude_text_ok(args@[1]@) ==> (r.exit_code == 4 && r.stdout@
            == Seq::<char>::empty() && r.stderr@ == non_numeric_msg()),
        args@.len() == 3 && magnitude_text_ok(args@[1]@) && text_negative(args@[1]@) ==> (
        r.exit_code == 4 && r.stdout@ == Seq::<char>::empty() && r.stderr@ == negative_msg()),
        args@.len() == 3 && magnitude_text_ok(args@[1]@) && !text_negative(args@[1]@)
            && unit_of_text(args@[2]@) is None ==> (r.exit_code == 2 && r.stdout@ == Seq::<
        char,
        >::empty() && r.stderr@ == invalid_unit_msg(args@[2]@)),
        args@.len() == 3 && magnitude_text_ok(args@[1]@) && !text_negative(args@[1]@)
            && unit_of_text(args@[2]@) is Some ==> (r.exit_code == 0 && r.stderr@ == Seq::<
        char,
        >::empty() && r.stdout@ == success_stdout(args@[1]@, args@[2]@)),
{
    if args.len() != 3 {
        let mut err = String::from_str("Usage: ");
        if args.len() > 0 {
            err.append(args[0].as_str());
        }
        err.append(" <file_size> <unit (bytes/kb/mb/gb)>");
        proof {
            assert(err@ =~= usage_msg(prog_of(args@)));
        }
        return RunOutcome {
            stdout: String::new(),
            stderr: err,
            exit_code: SizeError::UsageError.exit_code(),
        };
    }

    let magnitude = match parse_magnitude(args[1].as_str()) {
        Ok(m) => m,
        Err(MagnitudeError::NotNumeric) => {
            return RunOutcome {
                stdout: String::new(),
                stderr: String::from_str("Invalid file size. Size cannot be a non-numeric value."),
                exit_code: SizeError::InvalidMagnitudeError.exit_code(),
            };
        },
        Err(MagnitudeError::Negative) => {
            return RunOutcome {
                stdout: String::new(),
                stderr: String::from_str("Invalid file size. Size cannot be a negative number."),
                exit_code: SizeError::InvalidMagnitudeError.exit_code(),
            };
        },
    };

    let file_size = match FileSize::new(magnitude, args[2].as_str()) {
        Ok(f) => f,
        Err(_) => {
            let mut err = String::from_str("Invalid unit: '");
            err.append(args[2].as_str());
            err.append("'. Supported units: 'bytes', 'kb', 'mb', or 'gb'.");
            proof {
                assert(err@ =~= invalid_unit_msg(args@[2]@));
            }
            return RunOutcome {
                stdout: String::new(),
                stderr: err,
                exit_code: SizeError::InvalidUnitError.exit_code(),
            };
        },
    };

    let size_in_bytes = file_size.normalize_to_bytes();
    proof {
        assert(size_in_bytes == spec_bytes_of(args@[1]@, named_unit(args@[2]@)));
    }
    let sizes = Sizes::from_bytes(size_in_bytes);
    let display = sizes.to_display_string();

    let mut out = String::from_str("file size (");
    out.append(args[1].as_str());
    out.append(" ");
    out.append(args[2].as_str());
    out.append("):\n");
    out.append(display.as_str());
    out.append("\n");
    proof {
        assert(out@ =~= success_stdout(args@[1]@, args@[2]@));
    }
    RunOutcome { stdout: out, stderr: String::new(), exit_code: 0 }
}

} // verus!
