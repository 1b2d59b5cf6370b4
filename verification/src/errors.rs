//! The closed set of failures the ledger and its codec can report.

use vstd::prelude::*;

verus! {

/// Why a persisted file was rejected.
#[derive(Clone, Copy, Debug, PartialEq, Eq, Structural)]
pub enum FormatFault {
    /// The token stream is too short, or the first token opens no account.
    CommaSeparators,
    /// An amount token is not a number the model accepts.
    ValueNotValid,
    /// A date token is not a valid `YYYY-MM-DD` date.
    DateNotValid,
    /// An account block ran past the end of the token stream.
    WrongNumberOfEntries,
    /// An account block ends on something other than a closing brace.
    EndingBraces,
}

/// A failure of a ledger operation or of decoding.
#[derive(Clone, Copy, Debug, PartialEq, Eq, Structural)]
pub enum LedgerError {
    /// An empty account name or transaction label.
    Validation,
    /// A transaction with the same date, label and amount already exists.
    DuplicateKey,
    /// The referenced transaction or account is absent.
    NotFound,
    /// The persisted file is malformed.
    Format(FormatFault),
}

/// A failure of an interactive command.
#[derive(Clone, Copy, Debug, PartialEq, Eq, Structural)]
pub enum CommandError {
    /// The command came with the wrong number of words.
    WrongInputCount,
    /// The named account is not present.
    UnknownAccount,
    /// An account of that name already exists.
    AccountExists,
    /// The amount given cannot be read as a number.
    BadAmount,
    /// The date given cannot be read as a calendar date.
    BadDate,
    /// The file path given does not name a ledger file.
    BadFilePath,
    /// The account rejected the operation.
    Ledger(LedgerError),
}

} // verus!
