//! The content of a benchmark file, ready to be parsed.

use crate::extrinsic::{trials_of, ExtrinsicResult, Operation};
use crate::parser::{parse_body, parse_header, parsed, AnalyserError};
use vstd::prelude::*;

verus! {

/// The whole text of one benchmark file.
#[derive(Debug)]
pub struct FileContent(pub String);

impl View for FileContent {
    type V = Seq<char>;

    open spec fn view(&self) -> Seq<char> {
        self.0@
    }
}

impl FileContent {
    /// Reads the file: its two header lines, then its measurements.
    ///
    /// Fails where a header line is missing or does not read as it must.
    /// What follows the header never makes it fail: the first line that is
    /// not a row of numbers, one for each input variable and two timings,
    /// ends the measurements.
    pub fn parse(&self) -> (res: Result<ExtrinsicResult, AnalyserError>)
        ensures
            match res {
                Ok(result) => parsed(self@) == Ok::<Operation, AnalyserError>(result@)
                    && result@.well_formed(),
                Err(e) => parsed(self@) == Err::<Operation, AnalyserError>(e),
            },
    {
        let header = parse_header(self)?;
        let expected_len = header.input_var_names().len() + 2;
        let trials = parse_body(self, expected_len)?;
        proof {
            assert forall|i: int| 0 <= i < trials@.len() implies (#[trigger] trials_of(
                trials@,
            )[i]).input_vars.len() == header@.input_var_names.len() by {
                assert(trials@[i].input_vars@.len() == expected_len - 2);
            }
        }
        Ok(header.with_trials(trials))
    }
}

} // verus!
