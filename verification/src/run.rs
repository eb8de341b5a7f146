//! The listing step of a run: from the external tool's exit code and report
//! text to the deduplicated dependency map, or to the error that aborts the
//! run before any decision is made.

use vstd::prelude::*;
use vstd::string::StringSliceAdditionalSpecFns;
use vstd::utf8::valid_utf8;

use crate::aggregate::{agg_keys_distinct, agg_of, aggregate, AggMap};
use crate::parser::{obs_of_lines, parse_report, ParseError};
use crate::text::lines_of;

verus! {

/// Why a run aborts before reaching any decision.
#[derive(Clone, Copy, Debug, PartialEq, Eq, Structural)]
pub enum RunError {
    /// The listing operation exited with this non-zero code; the program
    /// must surface the tool's error output and exit with the same code,
    /// issuing no upgrade and no restore.
    ListingFailed(i32),
    /// The report text could not be parsed; the column-position contract is
    /// unrecoverable, so the run aborts.
    Malformed(ParseError),
}

/// Turns the listing operation's outcome into the aggregated map. A
/// non-zero exit code fails with exactly that code; a malformed report
/// fails with its parse error; otherwise every observation of the report is
/// aggregated, in report order.
pub fn get_outdated_dependencies(exit_code: i32, report: &str) -> (r: Result<AggMap, RunError>)
    ensures
        exit_code != 0 ==> (r matches Err(e) && e == RunError::ListingFailed(exit_code)),
        exit_code == 0 ==> match r {
            Ok(m) => obs_of_lines(lines_of(report@), Seq::empty()) matches Ok(obs) && m@ == agg_of(
                obs,
            ) && agg_keys_distinct(m@),
            Err(e) => obs_of_lines(lines_of(report@), Seq::empty()) matches Err(pe) && e
                == RunError::Malformed(pe),
        },
{
    if exit_code != 0 {
        return Err(RunError::ListingFailed(exit_code));
    }
    match parse_report(report) {
        Err(e) => Err(RunError::Malformed(e)),
        Ok(obs) => Ok(aggregate(&obs)),
    }
}

/// Relies on `str::from_utf8`: decodes exactly the byte slices that are
/// valid UTF-8, to the string made of those bytes.
#[verifier::external_body]
fn bytes_to_str(bytes: &[u8]) -> (r: Option<&str>)
    ensures
        r is Some <==> valid_utf8(bytes@),
        r matches Some(s) ==> s.spec_bytes() == bytes@,
{
    std::str::from_utf8(bytes).ok()
}

/// The text of the external tool's output bytes, which must be UTF-8.
pub fn stringify_bytes(bytes: &[u8]) -> (r: &str)
    requires
        valid_utf8(bytes@),
    ensures
        r.spec_bytes() == bytes@,
{
    match bytes_to_str(bytes) {
        Some(s) => s,
        None => {
            proof {
                assert(false);
            }
            ""
        },
    }
}

} // verus!
