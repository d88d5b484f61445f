//! A whole run over a process list that has been read: scan, merge, subtract
//! and lay out.

use crate::cores::AffinityRecord;
use crate::present::{exit_code_of, output_of, report, Options, Report};
use crate::record::{CoreScanner, ScanError};
use crate::reducer::ProcessStatus;
use vstd::prelude::*;

verus! {

/// What the scan of a run finds. Without candidates nothing is scanned, and
/// without workers nothing is found.
pub open spec fn found_of(
    scanner: CoreScanner,
    options: Options,
    statuses: Seq<ProcessStatus>,
) -> Result<Seq<AffinityRecord>, ScanError> {
    if options.available@.len() == 0 || options.par == 0 {
        Ok(Seq::empty())
    } else {
        scanner.records_of(statuses)
    }
}

/// Whether `outcome` is how the run over `statuses` ends: with the error of
/// the scan, or with the report on what the scan found.
pub open spec fn is_survey_of(
    outcome: Result<Report, ScanError>,
    scanner: CoreScanner,
    options: Options,
    statuses: Seq<ProcessStatus>,
) -> bool {
    match found_of(scanner, options, statuses) {
        Err(error) => outcome == Err::<Report, ScanError>(error),
        Ok(records) => outcome matches Ok(report) && report.output.deep_view() == output_of(
            options,
            records,
        ) && report.exit_code == exit_code_of(options, records),
    }
}

/// Runs the whole survey on a process list that has been read: which of the
/// candidates are free, what is printed, and the exit code.
pub fn survey(scanner: &CoreScanner, options: &Options, statuses: &Vec<ProcessStatus>) -> (outcome:
    Result<Report, ScanError>)
    ensures
        is_survey_of(outcome, *scanner, *options, statuses@),
{
    if options.available.len() == 0 {
        let nothing: Vec<AffinityRecord> = Vec::new();
        return Ok(report(options, &nothing));
    }
    match scanner.reduce(statuses, options.par) {
        Err(error) => Err(error),
        Ok(records) => Ok(report(options, &records)),
    }
}

} // verus!
