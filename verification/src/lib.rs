//! A personal finance ledger: named accounts hold dated, labeled monetary
//! transactions with a running balance, and the whole collection round-trips
//! through a flat comma-delimited, brace-scoped text format.
//!
//! Amounts are modeled as a whole number of cents; dates as explicit
//! year/month/day triples of the proleptic Gregorian calendar.

use vstd::prelude::*;
use vstd::string::StrSliceExecFns;

pub mod account;
pub mod codec;
pub mod commands;
pub mod dates;
pub mod errors;
pub mod ledger;
pub mod money;
pub mod text;

verus! {

/// Whether a path ends in the `.csv` suffix the ledger file must carry.
pub open spec fn ends_with_csv(s: Seq<char>) -> bool {
    &&& s.len() >= 4
    &&& s[s.len() - 4] == '.'
    &&& s[s.len() - 3] == 'c'
    &&& s[s.len() - 2] == 's'
    &&& s[s.len() - 1] == 'v'
}

/// Reads the command line: exactly one argument after the program name, a
/// path ending in `.csv`.
pub fn parse_args(args: &[String]) -> (r: Result<&str, crate::errors::CommandError>)
    ensures
        match r {
            Ok(p) => args@.len() == 2 && p@ == args@[1]@ && ends_with_csv(args@[1]@),
            Err(e) => {
                ||| (args@.len() != 2 && e == crate::errors::CommandError::WrongInputCount)
                ||| (args@.len() == 2 && !ends_with_csv(args@[1]@) && e
                    == crate::errors::CommandError::BadFilePath)
            },
        },
{
    if args.len() != 2 {
        return Err(crate::errors::CommandError::WrongInputCount);
    }
    let path = args[1].as_str();
    let n: usize = path.unicode_len();
    if n >= 4 && path.get_char(n - 4) == '.' && path.get_char(n - 3) == 'c' && path.get_char(
        n - 2,
    ) == 's' && path.get_char(n - 1) == 'v' {
        Ok(path)
    } else {
        Err(crate::errors::CommandError::BadFilePath)
    }
}

} // verus!
