//! The interactive commands: each takes the whitespace-split words of one
//! input line and applies one checked mutation to the account collection.

use crate::account::{spec_add_tx, spec_edit_amount, spec_edit_date, spec_edit_label,
    spec_remove_tx, Account, AccountView, TxKey};
use crate::dates::{parse_date, spec_parse_date, Date};
use crate::errors::{CommandError, LedgerError};
use crate::ledger::{
    entry_idx, has_entry, ledger_wf, lower_of, lowercase, spec_register, EntryView, Ledger,
};
use crate::money::{lemma_parse_amount_bounds, parse_amount, spec_parse_amount};
use crate::text::{spec_trim, str_eq};
use convert_case::{Case, Casing};
use vstd::prelude::*;

verus! {

/// What `convert_case` returns when title-casing a string: a function of the
/// characters alone.
pub uninterp spec fn title_of(s: Seq<char>) -> Seq<char>;

/// Relies on convert_case's `Casing::to_case` with `Case::Title`: it splits
/// the string into words on its default boundaries and capitalizes each, and
/// its result depends on the characters of its argument alone.
#[verifier::external_body]
fn title_case(s: &str) -> (r: String)
    ensures
        r@ == title_of(s@),
{
    s.to_case(Case::Title)
}

/// The words as character sequences.
pub open spec fn strs(v: Seq<String>) -> Seq<Seq<char>> {
    v.map_values(|s: String| s@)
}

/// Checks that a command came with exactly the expected number of words.
pub fn check_input_length(inputs: &Vec<String>, input_length: usize) -> (r: Result<
    (),
    CommandError,
>)
    ensures
        r is Ok <==> inputs@.len() == input_length,
        r is Err ==> r == Err::<(), CommandError>(CommandError::WrongInputCount),
{
    if inputs.len() != input_length {
        Err(CommandError::WrongInputCount)
    } else {
        Ok(())
    }
}

/// The lookup key named by a command's second word, when an account carries
/// it.
pub fn get_account_name(inputs: &Vec<String>, accounts: &Ledger) -> (r: Result<
    String,
    CommandError,
>)
    requires
        inputs@.len() >= 2,
    ensures
        match r {
            Ok(k) => k@ == lower_of(inputs@[1]@) && has_entry(accounts@, k@),
            Err(e) => e == CommandError::UnknownAccount && !has_entry(
                accounts@,
                lower_of(inputs@[1]@),
            ),
        },
{
    let key = lowercase(inputs[1].as_str());
    if accounts.contains_account(key.as_str()) {
        Ok(key)
    } else {
        Err(CommandError::UnknownAccount)
    }
}

/// The amount named by a command's fourth word.
pub fn get_transaction_amount(inputs: &Vec<String>) -> (r: Result<i64, CommandError>)
    requires
        inputs@.len() >= 4,
    ensures
        match r {
            Ok(a) => spec_parse_amount(inputs@[3]@) == Some(a),
            Err(e) => e == CommandError::BadAmount && spec_parse_amount(inputs@[3]@) is None,
        },
{
    match parse_amount(inputs[3].as_str()) {
        Some(a) => Ok(a),
        None => Err(CommandError::BadAmount),
    }
}

/// The date named by a command's fifth word.
pub fn get_transaction_date(inputs: &Vec<String>) -> (r: Result<Date, CommandError>)
    requires
        inputs@.len() >= 5,
    ensures
        match r {
            Ok(d) => spec_parse_date(inputs@[4]@) == Some(d) && d.wf(),
            Err(e) => e == CommandError::BadDate && spec_parse_date(inputs@[4]@) is None,
        },
{
    match parse_date(inputs[4].as_str()) {
        Some(d) => Ok(d),
        None => Err(CommandError::BadDate),
    }
}

/// Adding a transaction dated today: `at <account> <label> <amount>`.
pub open spec fn spec_cmd_add_new_transaction(
    inputs: Seq<Seq<char>>,
    l: Seq<EntryView>,
    today: Date,
) -> Result<Seq<EntryView>, CommandError> {
    if inputs.len() != 4 {
        Err(CommandError::WrongInputCount)
    } else if !has_entry(l, lower_of(inputs[1])) {
        Err(CommandError::UnknownAccount)
    } else {
        match spec_parse_amount(inputs[3]) {
            None => Err(CommandError::BadAmount),
            Some(amount) => {
                let i = entry_idx(l, lower_of(inputs[1]));
                match spec_add_tx(l[i].account, title_of(inputs[2]), amount, today) {
                    Err(e) => Err(CommandError::Ledger(e)),
                    Ok(av) => Ok(l.update(i, EntryView { key: l[i].key, account: av })),
                }
            },
        }
    }
}

/// Applies `at`: adds a transaction dated today to the named account.
pub fn add_new_transaction(inputs: &Vec<String>, accounts: &mut Ledger, today: Date) -> (r: Result<
    (),
    CommandError,
>)
    requires
        ledger_wf(old(accounts)@),
        today.wf(),
    ensures
        ledger_wf(final(accounts)@),
        match spec_cmd_add_new_transaction(strs(inputs@), old(accounts)@, today) {
            Ok(lv) => r is Ok && final(accounts)@ == lv,
            Err(e) => r == Err::<(), CommandError>(e) && final(accounts)@ == old(accounts)@,
        },
{
    if let Err(e) = check_input_length(inputs, 4) {
        return Err(e);
    }
    let account_name = match get_account_name(inputs, accounts) {
        Err(e) => { return Err(e) },
        Ok(k) => k,
    };
    let label = title_case(inputs[2].as_str());
    let amount = match get_transaction_amount(inputs) {
        Err(e) => { return Err(e) },
        Ok(a) => a,
    };
    proof {
        lemma_parse_amount_bounds(inputs@[3]@);
    }
    match accounts.add_transaction(account_name.as_str(), label.as_str(), amount, today) {
        Err(e) => Err(CommandError::Ledger(e)),
        Ok(()) => Ok(()),
    }
}

/// Adding a transaction on a given day:
/// `atd <account> <label> <amount> <date>`.
pub open spec fn spec_cmd_add_transaction(inputs: Seq<Seq<char>>, l: Seq<EntryView>) -> Result<
    Seq<EntryView>,
    CommandError,
> {
    if inputs.len() != 5 {
        Err(CommandError::WrongInputCount)
    } else if !has_entry(l, lower_of(inputs[1])) {
        Err(CommandError::UnknownAccount)
    } else {
        match spec_parse_amount(inputs[3]) {
            None => Err(CommandError::BadAmount),
            Some(amount) => match spec_parse_date(inputs[4]) {
                None => Err(CommandError::BadDate),
                Some(date) => {
                    let i = entry_idx(l, lower_of(inputs[1]));
                    match spec_add_tx(l[i].account, title_of(inputs[2]), amount, date) {
                        Err(e) => Err(CommandError::Ledger(e)),
                        Ok(av) => Ok(l.update(i, EntryView { key: l[i].key, account: av })),
                    }
                },
            },
        }
    }
}

/// Applies `atd`: adds a transaction on the given day to the named account.
pub fn add_transaction(inputs: &Vec<String>, accounts: &mut Ledger) -> (r: Result<
    (),
    CommandError,
>)
    requires
        ledger_wf(old(accounts)@),
    ensures
        ledger_wf(final(accounts)@),
        match spec_cmd_add_transaction(strs(inputs@), old(accounts)@) {
            Ok(lv) => r is Ok && final(accounts)@ == lv,
            Err(e) => r == Err::<(), CommandError>(e) && final(accounts)@ == old(accounts)@,
        },
{
    if let Err(e) = check_input_length(inputs, 5) {
        return Err(e);
    }
    let account_name = match get_account_name(inputs, accounts) {
        Err(e) => { return Err(e) },
        Ok(k) => k,
    };
    let label = title_case(inputs[2].as_str());
    let amount = match get_transaction_amount(inputs) {
        Err(e) => { return Err(e) },
        Ok(a) => a,
    };
    let date = match get_transaction_date(inputs) {
        Err(e) => { return Err(e) },
        Ok(d) => d,
    };
    proof {
        lemma_parse_amount_bounds(inputs@[3]@);
    }
    match accounts.add_transaction(account_name.as_str(), label.as_str(), amount, date) {
        Err(e) => Err(CommandError::Ledger(e)),
        Ok(()) => Ok(()),
    }
}

/// Creating an account: `aa <account>`. The name is title-cased and must not
/// be blank nor collide with an existing account.
pub open spec fn spec_cmd_add_account(inputs: Seq<Seq<char>>, l: Seq<EntryView>) -> Result<
    Seq<EntryView>,
    CommandError,
> {
    if inputs.len() != 2 {
        Err(CommandError::WrongInputCount)
    } else {
        let name = title_of(inputs[1]);
        if has_entry(l, lower_of(name)) {
            Err(CommandError::AccountExists)
        } else if spec_trim(name).len() == 0 {
            Err(CommandError::Ledger(LedgerError::Validation))
        } else {
            Ok(
                l.push(
                    EntryView {
                        key: lower_of(name),
                        account: AccountView { name, balance: 0, txs: Seq::empty() },
                    },
                ),
            )
        }
    }
}

/// Applies `aa`: creates an empty account under the title-cased name.
pub fn add_account(inputs: &Vec<String>, accounts: &mut Ledger) -> (r: Result<(), CommandError>)
    requires
        ledger_wf(old(accounts)@),
    ensures
        ledger_wf(final(accounts)@),
        match spec_cmd_add_account(strs(inputs@), old(accounts)@) {
            Ok(lv) => r is Ok && final(accounts)@ == lv,
            Err(e) => r == Err::<(), CommandError>(e) && final(accounts)@ == old(accounts)@,
        },
{
    if let Err(e) = check_input_length(inputs, 2) {
        return Err(e);
    }
    let account_name = title_case(inputs[1].as_str());
    let key = lowercase(account_name.as_str());
    if accounts.contains_account(key.as_str()) {
        return Err(CommandError::AccountExists);
    }
    let account = match Account::build(account_name.as_str()) {
        Err(e) => { return Err(CommandError::Ledger(e)) },
        Ok(a) => a,
    };
    let ghost av = account@;
    let ghost before = accounts@;
    accounts.register(account);
    proof {
        assert(accounts@ == spec_register(
            before,
            EntryView { key: lower_of(av.name), account: av },
        ));
        assert(accounts@ == before.push(EntryView { key: lower_of(av.name), account: av }));
    }
    Ok(())
}

/// Removing an account: `ra <account>`.
pub open spec fn spec_cmd_remove_account(inputs: Seq<Seq<char>>, l: Seq<EntryView>) -> Result<
    Seq<EntryView>,
    CommandError,
> {
    if inputs.len() != 2 {
        Err(CommandError::WrongInputCount)
    } else {
        let key = lower_of(title_of(inputs[1]));
        if !has_entry(l, key) {
            Err(CommandError::UnknownAccount)
        } else {
            Ok(l.remove(entry_idx(l, key)))
        }
    }
}

/// Applies `ra`: removes the account named by the title-cased word.
pub fn remove_account(inputs: &Vec<String>, accounts: &mut Ledger) -> (r: Result<
    (),
    CommandError,
>)
    requires
        ledger_wf(old(accounts)@),
    ensures
        ledger_wf(final(accounts)@),
        match spec_cmd_remove_account(strs(inputs@), old(accounts)@) {
            Ok(lv) => r is Ok && final(accounts)@ == lv,
            Err(e) => r == Err::<(), CommandError>(e) && final(accounts)@ == old(accounts)@,
        },
{
    if let Err(e) = check_input_length(inputs, 2) {
        return Err(e);
    }
    let account_name = title_case(inputs[1].as_str());
    let key = lowercase(account_name.as_str());
    if accounts.remove_account(key.as_str()) {
        Ok(())
    } else {
        Err(CommandError::UnknownAccount)
    }
}

/// The transaction identity a six-or-five-word command addresses: the date,
/// the title-cased label, and the amount.
pub open spec fn spec_cmd_key(inputs: Seq<Seq<char>>) -> (Date, Seq<char>, i64)
    recommends
        spec_parse_amount(inputs[3]) is Some,
        spec_parse_date(inputs[4]) is Some,
{
    (
        spec_parse_date(inputs[4])->Some_0,
        title_of(inputs[2]),
        spec_parse_amount(inputs[3])->Some_0,
    )
}

/// Reads the five shared words of a transaction-addressing command: the
/// account key and the stored identity.
fn get_tx_key(inputs: &Vec<String>, accounts: &Ledger) -> (r: Result<
    (String, TxKey),
    CommandError,
>)
    requires
        inputs@.len() >= 5,
    ensures
        match r {
            Ok(p) => p.0@ == lower_of(inputs@[1]@) && has_entry(accounts@, p.0@) && p.1@
                == spec_cmd_key(strs(inputs@)) && spec_parse_amount(inputs@[3]@) is Some
                && spec_parse_date(inputs@[4]@) is Some,
            Err(e) => {
                ||| (e == CommandError::UnknownAccount && !has_entry(
                    accounts@,
                    lower_of(inputs@[1]@),
                ))
                ||| (e == CommandError::BadAmount && has_entry(accounts@, lower_of(inputs@[1]@))
                    && spec_parse_amount(inputs@[3]@) is None)
                ||| (e == CommandError::BadDate && has_entry(accounts@, lower_of(inputs@[1]@))
                    && spec_parse_amount(inputs@[3]@) is Some && spec_parse_date(
                    inputs@[4]@,
                ) is None)
            },
        },
{
    let account_name = match get_account_name(inputs, accounts) {
        Err(e) => { return Err(e) },
        Ok(k) => k,
    };
    let label = title_case(inputs[2].as_str());
    let amount = match get_transaction_amount(inputs) {
        Err(e) => { return Err(e) },
        Ok(a) => a,
    };
    let date = match get_transaction_date(inputs) {
        Err(e) => { return Err(e) },
        Ok(d) => d,
    };
    Ok((account_name, TxKey { date, label, amount }))
}

/// Re-pricing a transaction:
/// `eta <account> <label> <amount> <date> <new amount>`.
pub open spec fn spec_cmd_edit_amount(inputs: Seq<Seq<char>>, l: Seq<EntryView>) -> Result<
    Seq<EntryView>,
    CommandError,
> {
    if inputs.len() != 6 {
        Err(CommandError::WrongInputCount)
    } else if !has_entry(l, lower_of(inputs[1])) {
        Err(CommandError::UnknownAccount)
    } else if spec_parse_amount(inputs[3]) is None {
        Err(CommandError::BadAmount)
    } else if spec_parse_date(inputs[4]) is None {
        Err(CommandError::BadDate)
    } else {
        match spec_parse_amount(inputs[5]) {
            None => Err(CommandError::BadAmount),
            Some(new_amount) => {
                let i = entry_idx(l, lower_of(inputs[1]));
                match spec_edit_amount(l[i].account, spec_cmd_key(inputs), new_amount) {
                    Err(e) => Err(CommandError::Ledger(e)),
                    Ok(av) => Ok(l.update(i, EntryView { key: l[i].key, account: av })),
                }
            },
        }
    }
}

/// Applies `eta`: changes the amount of the addressed transaction.
pub fn edit_transaction_amount(inputs: &Vec<String>, accounts: &mut Ledger) -> (r: Result<
    (),
    CommandError,
>)
    requires
        ledger_wf(old(accounts)@),
    ensures
        ledger_wf(final(accounts)@),
        match spec_cmd_edit_amount(strs(inputs@), old(accounts)@) {
            Ok(lv) => r is Ok && final(accounts)@ == lv,
            Err(e) => r == Err::<(), CommandError>(e) && final(accounts)@ == old(accounts)@,
        },
{
    if let Err(e) = check_input_length(inputs, 6) {
        return Err(e);
    }
    let (account_name, key) = match get_tx_key(inputs, accounts) {
        Err(e) => { return Err(e) },
        Ok(p) => p,
    };
    let new_amount = match parse_amount(inputs[5].as_str()) {
        None => { return Err(CommandError::BadAmount) },
        Some(a) => a,
    };
    proof {
        lemma_parse_amount_bounds(inputs@[5]@);
    }
    match accounts.edit_transaction_amount(account_name.as_str(), &key, new_amount) {
        Err(e) => Err(CommandError::Ledger(e)),
        Ok(()) => Ok(()),
    }
}

/// Re-dating a transaction:
/// `etd <account> <label> <amount> <date> <new date>`.
pub open spec fn spec_cmd_edit_date(inputs: Seq<Seq<char>>, l: Seq<EntryView>) -> Result<
    Seq<EntryView>,
    CommandError,
> {
    if inputs.len() != 6 {
        Err(CommandError::WrongInputCount)
    } else if !has_entry(l, lower_of(inputs[1])) {
        Err(CommandError::UnknownAccount)
    } else if spec_parse_amount(inputs[3]) is None {
        Err(CommandError::BadAmount)
    } else if spec_parse_date(inputs[4]) is None {
        Err(CommandError::BadDate)
    } else {
        match spec_parse_date(inputs[5]) {
            None => Err(CommandError::BadDate),
            Some(new_date) => {
                let i = entry_idx(l, lower_of(inputs[1]));
                match spec_edit_date(l[i].account, spec_cmd_key(inputs), new_date) {
                    Err(e) => Err(CommandError::Ledger(e)),
                    Ok(av) => Ok(l.update(i, EntryView { key: l[i].key, account: av })),
                }
            },
        }
    }
}

/// Applies `etd`: moves the addressed transaction to another date.
pub fn edit_transaction_date(inputs: &Vec<String>, accounts: &mut Ledger) -> (r: Result<
    (),
    CommandError,
>)
    requires
        ledger_wf(old(accounts)@),
    ensures
        ledger_wf(final(accounts)@),
        match spec_cmd_edit_date(strs(inputs@), old(accounts)@) {
            Ok(lv) => r is Ok && final(accounts)@ == lv,
            Err(e) => r == Err::<(), CommandError>(e) && final(accounts)@ == old(accounts)@,
        },
{
    if let Err(e) = check_input_length(inputs, 6) {
        return Err(e);
    }
    let (account_name, key) = match get_tx_key(inputs, accounts) {
        Err(e) => { return Err(e) },
        Ok(p) => p,
    };
    let new_date = match parse_date(inputs[5].as_str()) {
        None => { return Err(CommandError::BadDate) },
        Some(d) => d,
    };
    match accounts.edit_transaction_date(account_name.as_str(), &key, new_date) {
        Err(e) => Err(CommandError::Ledger(e)),
        Ok(()) => Ok(()),
    }
}

/// Renaming a transaction:
/// `etl <account> <label> <amount> <date> <new label>`.
pub open spec fn spec_cmd_edit_label(inputs: Seq<Seq<char>>, l: Seq<EntryView>) -> Result<
    Seq<EntryView>,
    CommandError,
> {
    if inputs.len() != 6 {
        Err(CommandError::WrongInputCount)
    } else if !has_entry(l, lower_of(inputs[1])) {
        Err(CommandError::UnknownAccount)
    } else if spec_parse_amount(inputs[3]) is None {
        Err(CommandError::BadAmount)
    } else if spec_parse_date(inputs[4]) is None {
        Err(CommandError::BadDate)
    } else {
        let i = entry_idx(l, lower_of(inputs[1]));
        match spec_edit_label(l[i].account, spec_cmd_key(inputs), title_of(inputs[5])) {
            Err(e) => Err(CommandError::Ledger(e)),
            Ok(av) => Ok(l.update(i, EntryView { key: l[i].key, account: av })),
        }
    }
}

/// Applies `etl`: renames the addressed transaction to the title-cased word.
pub fn edit_transaction_label(inputs: &Vec<String>, accounts: &mut Ledger) -> (r: Result<
    (),
    CommandError,
>)
    requires
        ledger_wf(old(accounts)@),
    ensures
        ledger_wf(final(accounts)@),
        match spec_cmd_edit_label(strs(inputs@), old(accounts)@) {
            Ok(lv) => r is Ok && final(accounts)@ == lv,
            Err(e) => r == Err::<(), CommandError>(e) && final(accounts)@ == old(accounts)@,
        },
{
    if let Err(e) = check_input_length(inputs, 6) {
        return Err(e);
    }
    let (account_name, key) = match get_tx_key(inputs, accounts) {
        Err(e) => { return Err(e) },
        Ok(p) => p,
    };
    let new_label = title_case(inputs[5].as_str());
    match accounts.edit_transaction_label(account_name.as_str(), &key, new_label.as_str()) {
        Err(e) => Err(CommandError::Ledger(e)),
        Ok(()) => Ok(()),
    }
}

/// Removing a transaction: `rt <account> <label> <amount> <date>`.
pub open spec fn spec_cmd_remove_transaction(inputs: Seq<Seq<char>>, l: Seq<EntryView>) -> Result<
    Seq<EntryView>,
    CommandError,
> {
    if inputs.len() != 5 {
        Err(CommandError::WrongInputCount)
    } else if !has_entry(l, lower_of(inputs[1])) {
        Err(CommandError::UnknownAccount)
    } else if spec_parse_amount(inputs[3]) is None {
        Err(CommandError::BadAmount)
    } else if spec_parse_date(inputs[4]) is None {
        Err(CommandError::BadDate)
    } else {
        let i = entry_idx(l, lower_of(inputs[1]));
        match spec_remove_tx(l[i].account, spec_cmd_key(inputs)) {
            Err(e) => Err(CommandError::Ledger(e)),
            Ok(av) => Ok(l.update(i, EntryView { key: l[i].key, account: av })),
        }
    }
}

/// Applies `rt`: removes the addressed transaction.
pub fn remove_transaction(inputs: &Vec<String>, accounts: &mut Ledger) -> (r: Result<
    (),
    CommandError,
>)
    requires
        ledger_wf(old(accounts)@),
    ensures
        ledger_wf(final(accounts)@),
        match spec_cmd_remove_transaction(strs(inputs@), old(accounts)@) {
            Ok(lv) => r is Ok && final(accounts)@ == lv,
            Err(e) => r == Err::<(), CommandError>(e) && final(accounts)@ == old(accounts)@,
        },
{
    if let Err(e) = check_input_length(inputs, 5) {
        return Err(e);
    }
    let (account_name, key) = match get_tx_key(inputs, accounts) {
        Err(e) => { return Err(e) },
        Ok(p) => p,
    };
    match accounts.remove_transaction(account_name.as_str(), &key) {
        Err(e) => Err(CommandError::Ledger(e)),
        Ok(()) => Ok(()),
    }
}

/// What one input line asks of the session loop, after any mutation it named
/// has been applied.
#[derive(Clone, Copy, Debug, PartialEq, Eq, Structural)]
pub enum Outcome {
    /// A mutating command was applied.
    Applied,
    /// A mutating command was refused, and the collection is unchanged.
    Rejected(CommandError),
    /// The collection should be written to disk.
    Save,
    /// The collection should be re-read from disk.
    Reload,
    /// The session should end, saving first.
    Quit,
    /// The line named no command; a usage hint should be shown.
    Unknown,
}

/// How a mutating command's result shows up as an outcome.
pub open spec fn cmd_outcome(
    res: Result<Seq<EntryView>, CommandError>,
    r: Outcome,
    before: Seq<EntryView>,
    after: Seq<EntryView>,
) -> bool {
    match res {
        Ok(lv) => r == Outcome::Applied && after == lv,
        Err(e) => r == Outcome::Rejected(e) && after == before,
    }
}

/// Dispatches one whitespace-split input line: mutating commands change the
/// collection as their own specification says; `s`, `u` and `q` ask the
/// session loop to save, reload or quit; anything else is unknown. Only the
/// mutating commands touch the collection.
pub fn execute_command(inputs: &Vec<String>, accounts: &mut Ledger, today: Date) -> (r: Outcome)
    requires
        ledger_wf(old(accounts)@),
        today.wf(),
    ensures
        ledger_wf(final(accounts)@),
        ({
            let iv = strs(inputs@);
            let before = old(accounts)@;
            let after = final(accounts)@;
            if inputs@.len() == 0 {
                r == Outcome::Unknown && after == before
            } else if iv[0] == "at"@ {
                cmd_outcome(spec_cmd_add_new_transaction(iv, before, today), r, before, after)
            } else if iv[0] == "atd"@ {
                cmd_outcome(spec_cmd_add_transaction(iv, before), r, before, after)
            } else if iv[0] == "aa"@ {
                cmd_outcome(spec_cmd_add_account(iv, before), r, before, after)
            } else if iv[0] == "ra"@ {
                cmd_outcome(spec_cmd_remove_account(iv, before), r, before, after)
            } else if iv[0] == "eta"@ {
                cmd_outcome(spec_cmd_edit_amount(iv, before), r, before, after)
            } else if iv[0] == "etd"@ {
                cmd_outcome(spec_cmd_edit_date(iv, before), r, before, after)
            } else if iv[0] == "etl"@ {
                cmd_outcome(spec_cmd_edit_label(iv, before), r, before, after)
            } else if iv[0] == "rt"@ {
                cmd_outcome(spec_cmd_remove_transaction(iv, before), r, before, after)
            } else if iv[0] == "s"@ {
                r == Outcome::Save && after == before
            } else if iv[0] == "u"@ {
                r == Outcome::Reload && after == before
            } else if iv[0] == "q"@ {
                r == Outcome::Quit && after == before
            } else {
                r == Outcome::Unknown && after == before
            }
        }),
{
    if inputs.len() == 0 {
        return Outcome::Unknown;
    }
    proof {
        assert(strs(inputs@)[0] == inputs@[0]@);
    }
    let cmd = inputs[0].as_str();
    if str_eq(cmd, "at") {
        match add_new_transaction(inputs, accounts, today) {
            Ok(()) => Outcome::Applied,
            Err(e) => Outcome::Rejected(e),
        }
    } else if str_eq(cmd, "atd") {
        match add_transaction(inputs, accounts) {
            Ok(()) => Outcome::Applied,
            Err(e) => Outcome::Rejected(e),
        }
    } else if str_eq(cmd, "aa") {
        match add_account(inputs, accounts) {
            Ok(()) => Outcome::Applied,
            Err(e) => Outcome::Rejected(e),
        }
    } else if str_eq(cmd, "ra") {
        match remove_account(inputs, accounts) {
            Ok(()) => Outcome::Applied,
            Err(e) => Outcome::Rejected(e),
        }
    } else if str_eq(cmd, "eta") {
        match edit_transaction_amount(inputs, accounts) {
            Ok(()) => Outcome::Applied,
            Err(e) => Outcome::Rejected(e),
        }
    } else if str_eq(cmd, "etd") {
        match edit_transaction_date(inputs, accounts) {
            Ok(()) => Outcome::Applied,
            Err(e) => Outcome::Rejected(e),
        }
    } else if str_eq(cmd, "etl") {
        match edit_transaction_label(inputs, accounts) {
            Ok(()) => Outcome::Applied,
            Err(e) => Outcome::Rejected(e),
        }
    } else if str_eq(cmd, "rt") {
        match remove_transaction(inputs, accounts) {
            Ok(()) => Outcome::Applied,
            Err(e) => Outcome::Rejected(e),
        }
    } else if str_eq(cmd, "s") {
        Outcome::Save
    } else if str_eq(cmd, "u") {
        Outcome::Reload
    } else if str_eq(cmd, "q") {
        Outcome::Quit
    } else {
        Outcome::Unknown
    }
}

} // verus!
