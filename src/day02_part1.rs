//! Reports of levels that are safe.
use crate::day02_part2::{all_reports, count_safe, safe_count, ReportError};
use crate::text::{decimal, lines_of, usize_to_string};
use vstd::prelude::*;

verus! {

/// The number of safe reports, in decimal.
pub fn process(input: &str) -> (r: Result<String, ReportError>)
    ensures
        r is Ok <==> all_reports(input@),
        r is Ok ==> r.unwrap()@ == decimal(safe_count(lines_of(input@), lines_of(input@).len() as int, false)),
{
    match count_safe(input, false) {
        Some(n) => Ok(usize_to_string(n)),
        None => Err(ReportError::BadNumber),
    }
}

} // verus!
