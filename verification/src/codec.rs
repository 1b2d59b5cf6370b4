//! The ledger codec: the flat comma-delimited, brace-scoped text form of an
//! account collection, its encoder, its decoder, and the proof that decoding
//! what was encoded gives the collection back.
//!
//! The format is a single comma-separated token stream. Each account
//! contributes its name followed by `{`, then three tokens per transaction
//! (amount, label, date) in ascending date order, then a lone `}`. Nothing is
//! escaped: a comma inside a label cannot be represented.

use crate::account::{
    has_key, lemma_has_key_push, lemma_sort_by_date_distinct, lemma_sort_by_date_props,
    lemma_sum_first, spec_add_tx, spec_sort_by_date, sum_amounts, Account, AccountView, TxView,
};
use crate::dates::{lemma_date_round_trip, lemma_iso_chars, parse_date, spec_parse_date};
use crate::errors::{FormatFault, LedgerError};
use crate::ledger::{ledger_wf, lower_of, spec_register, EntryView, Ledger};
use crate::money::{
    lemma_amount_round_trip, lemma_amount_token_chars, lemma_parse_amount_bounds, parse_amount,
    push_amount_token, spec_amount_token, spec_parse_amount,
};
use crate::text::{
    lemma_trim_idempotent, spec_trim, spec_trim_end_matches, str_eq, strip_trailing, trim,
};
use vstd::prelude::*;
use vstd::string::{StrSliceExecFns, StringExecFns};

verus! {

/// Splitting on commas, from the front: the empty string is one empty token,
/// a leading comma opens a new empty token, and any other character joins the
/// first token of what follows.
pub open spec fn spec_split_commas(s: Seq<char>) -> Seq<Seq<char>>
    decreases s.len(),
{
    if s.len() == 0 {
        seq![s]
    } else if s[0] == ',' {
        seq![Seq::<char>::empty()] + spec_split_commas(s.drop_first())
    } else {
        let rest = spec_split_commas(s.drop_first());
        seq![seq![s[0]] + rest[0]] + rest.drop_first()
    }
}

/// Splitting yields at least one token.
pub proof fn lemma_split_commas_len(s: Seq<char>)
    ensures
        spec_split_commas(s).len() >= 1,
    decreases s.len(),
{
    if s.len() > 0 {
        lemma_split_commas_len(s.drop_first());
    }
}

/// Tokens joined by a comma between each pair.
pub open spec fn spec_join_commas(toks: Seq<Seq<char>>) -> Seq<char>
    decreases toks.len(),
{
    if toks.len() == 0 {
        Seq::empty()
    } else if toks.len() == 1 {
        toks[0]
    } else {
        toks[0] + seq![','] + spec_join_commas(toks.drop_first())
    }
}

/// Whether no character of the string is a comma.
pub open spec fn comma_free(s: Seq<char>) -> bool {
    forall|i: int| 0 <= i < s.len() ==> s[i] != ','
}

/// A comma-free string splits into itself alone.
proof fn lemma_split_comma_free(s: Seq<char>)
    requires
        comma_free(s),
    ensures
        spec_split_commas(s) == seq![s],
    decreases s.len(),
{
    if s.len() > 0 {
        assert(forall|i: int| 0 <= i < s.drop_first().len() ==> s.drop_first()[i] == s[i + 1]);
        lemma_split_comma_free(s.drop_first());
        let rest = spec_split_commas(s.drop_first());
        assert(rest[0] == s.drop_first());
        assert(seq![s[0]] + s.drop_first() =~= s);
        assert(rest.drop_first() =~= Seq::<Seq<char>>::empty());
        assert(spec_split_commas(s) =~= seq![s]);
    }
}

/// A comma-free token, a comma, and a remainder split into the token followed
/// by the split of the remainder.
proof fn lemma_split_concat(a: Seq<char>, b: Seq<char>)
    requires
        comma_free(a),
    ensures
        spec_split_commas(a + seq![','] + b) == seq![a] + spec_split_commas(b),
    decreases a.len(),
{
    let s = a + seq![','] + b;
    if a.len() == 0 {
        assert(s.len() == b.len() + 1);
        assert(s[0] == ',');
        assert(s.drop_first() =~= b);
        assert(spec_split_commas(s) == seq![Seq::<char>::empty()] + spec_split_commas(b));
        assert(a =~= Seq::<char>::empty());
    } else {
        assert(s[0] == a[0]);
        assert(s[0] != ',');
        assert(s.drop_first() =~= a.drop_first() + seq![','] + b);
        assert(forall|i: int| 0 <= i < a.drop_first().len() ==> a.drop_first()[i] == a[i + 1]);
        lemma_split_concat(a.drop_first(), b);
        let rest = spec_split_commas(s.drop_first());
        assert(rest == seq![a.drop_first()] + spec_split_commas(b));
        lemma_split_commas_len(b);
        assert(rest[0] == a.drop_first());
        assert(seq![s[0]] + rest[0] =~= a);
        assert(rest.drop_first() =~= spec_split_commas(b));
        assert(spec_split_commas(s) =~= seq![a] + spec_split_commas(b));
    }
}

/// Splitting undoes joining when no token holds a comma.
pub proof fn lemma_split_join(toks: Seq<Seq<char>>)
    requires
        toks.len() >= 1,
        forall|i: int| 0 <= i < toks.len() ==> comma_free(#[trigger] toks[i]),
    ensures
        spec_split_commas(spec_join_commas(toks)) == toks,
    decreases toks.len(),
{
    if toks.len() == 1 {
        lemma_split_comma_free(toks[0]);
        assert(seq![toks[0]] =~= toks);
    } else {
        let rest = toks.drop_first();
        assert(forall|i: int| 0 <= i < rest.len() ==> #[trigger] rest[i] == toks[i + 1]);
        lemma_split_join(rest);
        lemma_split_concat(toks[0], spec_join_commas(rest));
        assert(seq![toks[0]] + rest =~= toks);
    }
}

/// Splits a string on every comma.
#[verifier::loop_isolation(false)]
#[verifier::rlimit(50)]
pub fn split_commas(s: &str) -> (r: Vec<String>)
    ensures
        r@.map_values(|t: String| t@) == spec_split_commas(s@),
{
    let n: usize = s.unicode_len();
    let mut toks: Vec<String> = Vec::new();
    let mut start: usize = 0;
    let mut i: usize = 0;
    proof {
        assert(s@.subrange(0, n as int) =~= s@);
        assert(toks@.map_values(|t: String| t@) =~= Seq::<Seq<char>>::empty());
    }
    while i < n
        invariant
            0 <= start <= i <= n,
            forall|j: int| start <= j < i ==> s@[j] != ',',
            toks@.map_values(|t: String| t@) + spec_split_commas(
                s@.subrange(start as int, n as int),
            ) =~= spec_split_commas(s@),
        decreases n - i,
    {
        if s.get_char(i) == ',' {
            let tok = s.substring_char(start, i).to_owned();
            let ghost prevm = toks@.map_values(|t: String| t@);
            proof {
                let a = s@.subrange(start as int, i as int);
                let b = s@.subrange(i + 1, n as int);
                assert(s@.subrange(start as int, n as int) =~= a + seq![','] + b);
                lemma_split_concat(a, b);
            }
            toks.push(tok);
            proof {
                let a = s@.subrange(start as int, i as int);
                assert(toks@.map_values(|t: String| t@) =~= prevm.push(a));
                assert(prevm.push(a) =~= prevm + seq![a]);
            }
            start = i + 1;
        }
        i = i + 1;
    }
    let tok = s.substring_char(start, n).to_owned();
    let ghost prevm = toks@.map_values(|t: String| t@);
    proof {
        lemma_split_comma_free(s@.subrange(start as int, n as int));
    }
    toks.push(tok);
    proof {
        let a = s@.subrange(start as int, n as int);
        assert(toks@.map_values(|t: String| t@) =~= prevm.push(a));
        assert(prevm.push(a) =~= prevm + seq![a]);
        assert(toks@.map_values(|t: String| t@) =~= spec_split_commas(s@));
    }
    toks
}

/// One step of the transaction scanner: while at least three tokens remain
/// ahead and the cursor is not on a closing brace, read an amount, a label
/// and a date, add the transaction, and move on; otherwise demand a closing
/// brace.
pub open spec fn spec_read_txs(toks: Seq<Seq<char>>, i: int, a: AccountView) -> Result<
    (AccountView, int),
    LedgerError,
>
    decreases toks.len() - i,
{
    if i < toks.len() - 2 && toks[i] != seq!['}'] {
        match spec_parse_amount(toks[i]) {
            None => Err(LedgerError::Format(FormatFault::ValueNotValid)),
            Some(amount) => match spec_parse_date(toks[i + 2]) {
                None => Err(LedgerError::Format(FormatFault::DateNotValid)),
                Some(date) => match spec_add_tx(a, toks[i + 1], amount, date) {
                    Err(e) => Err(e),
                    Ok(a2) => spec_read_txs(toks, i + 3, a2),
                },
            },
        }
    } else if i >= toks.len() {
        Err(LedgerError::Format(FormatFault::WrongNumberOfEntries))
    } else if toks[i] != seq!['}'] {
        Err(LedgerError::Format(FormatFault::EndingBraces))
    } else {
        Ok((a, i + 1))
    }
}

/// Reading one account block: the token at the cursor, minus its trailing
/// braces and surrounding whitespace, names the account; its transactions
/// follow until the closing brace.
pub open spec fn spec_read_account(toks: Seq<Seq<char>>, i: int) -> Result<
    (AccountView, int),
    LedgerError,
> {
    let name = spec_trim(spec_trim_end_matches(toks[i], '{'));
    if name.len() == 0 {
        Err(LedgerError::Validation)
    } else {
        spec_read_txs(toks, i + 1, AccountView { name, balance: 0, txs: Seq::empty() })
    }
}

/// Reading account blocks until the tokens are exhausted, registering each
/// account under the lowercase form of its name.
pub open spec fn spec_read_accounts(
    toks: Seq<Seq<char>>,
    i: int,
    acc: Seq<EntryView>,
) -> Result<Seq<EntryView>, LedgerError>
    decreases toks.len() - i,
{
    if i >= toks.len() {
        Ok(acc)
    } else {
        match spec_read_account(toks, i) {
            Err(e) => Err(e),
            Ok((a, j)) => {
                let next = if j <= i {
                    i + 1
                } else if j > toks.len() {
                    toks.len() as int
                } else {
                    j
                };
                spec_read_accounts(
                    toks,
                    next,
                    spec_register(acc, EntryView { key: lower_of(a.name), account: a }),
                )
            },
        }
    }
}

/// What a persisted file denotes: the empty file is the empty collection;
/// otherwise the comma-separated tokens must open with an account name ending
/// in `{` and hold at least two tokens, and the account blocks follow.
pub open spec fn spec_decode(s: Seq<char>) -> Result<Seq<EntryView>, LedgerError> {
    if s.len() == 0 {
        Ok(Seq::empty())
    } else {
        let toks = spec_split_commas(s);
        if toks.len() < 2 || toks[0].len() == 0 || toks[0].last() != '{' {
            Err(LedgerError::Format(FormatFault::CommaSeparators))
        } else {
            spec_read_accounts(toks, 0, Seq::empty())
        }
    }
}

/// Whether the string is exactly the one-character token `}`.
fn is_rbrace(s: &str) -> (r: bool)
    ensures
        r == (s@ == seq!['}']),
{
    proof {
        reveal_strlit("}");
        assert("}"@ =~= seq!['}']);
    }
    str_eq(s, "}")
}

/// Whether the string is nonempty and ends in `{`.
fn ends_with_brace(s: &str) -> (r: bool)
    ensures
        r == (s@.len() > 0 && s@.last() == '{'),
{
    let n: usize = s.unicode_len();
    n > 0 && s.get_char(n - 1) == '{'
}

/// Reads one account block starting at token `i`.
#[verifier::loop_isolation(false)]
#[verifier::rlimit(100)]
fn read_account(toks: &Vec<String>, i: usize) -> (r: Result<(Account, usize), LedgerError>)
    requires
        i < toks@.len(),
    ensures
        ({
            let tv = toks@.map_values(|t: String| t@);
            match r {
                Ok((a, j)) => spec_read_account(tv, i as int) == Ok::<_, LedgerError>(
                    (a@, j as int),
                ) && a@.wf() && i < j <= toks@.len(),
                Err(e) => spec_read_account(tv, i as int) == Err::<(AccountView, int), _>(e),
            }
        }),
{
    let ghost tv = toks@.map_values(|t: String| t@);
    proof {
        assert(tv[i as int] == toks@[i as int]@);
    }
    let stripped = strip_trailing(toks[i].as_str(), '{');
    let name = trim(stripped.as_str());
    proof {
        lemma_trim_idempotent(spec_trim_end_matches(tv[i as int], '{'));
    }
    let mut account = match Account::build(name.as_str()) {
        Err(e) => { return Err(e) },
        Ok(a) => a,
    };
    proof {
        assert(toks@.len() == toks.len());
    }
    let mut iter: usize = i + 1;
    while toks.len() > 2 && iter < toks.len() - 2 && !is_rbrace(toks[iter].as_str())
        invariant
            i + 1 <= iter <= toks@.len(),
            account@.wf(),
            spec_read_account(tv, i as int) == spec_read_txs(tv, iter as int, account@),
        decreases toks@.len() - iter,
    {
        proof {
            assert(tv[iter as int] == toks@[iter as int]@);
            assert(tv[iter + 1] == toks@[iter + 1]@);
            assert(tv[iter + 2] == toks@[iter + 2]@);
        }
        let amount = match parse_amount(toks[iter].as_str()) {
            None => { return Err(LedgerError::Format(FormatFault::ValueNotValid)) },
            Some(a) => a,
        };
        proof {
            lemma_parse_amount_bounds(tv[iter as int]);
        }
        let date = match parse_date(toks[iter + 2].as_str()) {
            None => { return Err(LedgerError::Format(FormatFault::DateNotValid)) },
            Some(d) => d,
        };
        let label = &toks[iter + 1];
        match account.add_transaction(label.as_str(), amount, date) {
            Err(e) => { return Err(e) },
            Ok(()) => {},
        }
        iter = iter + 3;
    }
    if iter >= toks.len() {
        return Err(LedgerError::Format(FormatFault::WrongNumberOfEntries));
    }
    proof {
        assert(tv[iter as int] == toks@[iter as int]@);
    }
    if !is_rbrace(toks[iter].as_str()) {
        return Err(LedgerError::Format(FormatFault::EndingBraces));
    }
    Ok((account, iter + 1))
}

/// Decodes a persisted file into an account collection; a malformed file
/// yields an error and no partial result.
#[verifier::loop_isolation(false)]
pub fn read_from_string(contents: String) -> (r: Result<Ledger, LedgerError>)
    ensures
        match r {
            Ok(l) => spec_decode(contents@) == Ok::<_, LedgerError>(l@) && ledger_wf(l@),
            Err(e) => spec_decode(contents@) == Err::<Seq<EntryView>, _>(e),
        },
{
    if contents.as_str().is_empty() {
        let l = Ledger::new();
        return Ok(l);
    }
    let toks = split_commas(contents.as_str());
    let ghost tv = toks@.map_values(|t: String| t@);
    proof {
        lemma_split_commas_len(contents@);
        assert(toks@.len() == toks.len());
        assert(tv[0] == toks@[0]@);
    }
    let first_ok = ends_with_brace(toks[0].as_str());
    if toks.len() < 2 || !first_ok {
        return Err(LedgerError::Format(FormatFault::CommaSeparators));
    }
    let mut ledger = Ledger::new();
    let mut i: usize = 0;
    proof {
        assert(ledger@ =~= Seq::<EntryView>::empty());
    }
    while i < toks.len()
        invariant
            0 <= i <= toks@.len(),
            ledger_wf(ledger@),
            tv == toks@.map_values(|t: String| t@),
            spec_read_accounts(tv, 0, Seq::<EntryView>::empty()) == spec_read_accounts(
                tv,
                i as int,
                ledger@,
            ),
        decreases toks@.len() - i,
    {
        match read_account(&toks, i) {
            Err(e) => { return Err(e) },
            Ok((account, j)) => {
                let ghost av = account@;
                let ghost before = ledger@;
                ledger.register(account);
                proof {
                    assert(ledger@ == spec_register(
                        before,
                        EntryView { key: lower_of(av.name), account: av },
                    ));
                }
                i = j;
            },
        }
    }
    Ok(ledger)
}

/// The three storage tokens of one transaction: amount, label, date.
pub open spec fn spec_tx_tokens(t: TxView) -> Seq<Seq<char>> {
    seq![spec_amount_token(t.amount as int), t.label, t.date.spec_iso()]
}

/// The storage tokens of a run of transactions, in the given order.
pub open spec fn spec_txs_tokens(txs: Seq<TxView>) -> Seq<Seq<char>>
    decreases txs.len(),
{
    if txs.len() == 0 {
        Seq::empty()
    } else {
        spec_tx_tokens(txs[0]) + spec_txs_tokens(txs.drop_first())
    }
}

/// The storage tokens of one account block: the name with an opening brace,
/// the transactions in ascending date order, and a closing brace.
pub open spec fn spec_account_tokens(a: AccountView) -> Seq<Seq<char>> {
    seq![a.name + seq!['{']] + spec_txs_tokens(spec_sort_by_date(a.txs)) + seq![seq!['}']]
}

/// The storage tokens of the whole collection, account after account.
pub open spec fn spec_ledger_tokens(l: Seq<EntryView>) -> Seq<Seq<char>>
    decreases l.len(),
{
    if l.len() == 0 {
        Seq::empty()
    } else {
        spec_account_tokens(l[0].account) + spec_ledger_tokens(l.drop_first())
    }
}

/// The persisted text of the whole collection: its tokens joined by commas.
pub open spec fn spec_encode(l: Seq<EntryView>) -> Seq<char> {
    spec_join_commas(spec_ledger_tokens(l))
}

proof fn lemma_txs_tokens_push(txs: Seq<TxView>, t: TxView)
    ensures
        spec_txs_tokens(txs.push(t)) == spec_txs_tokens(txs) + spec_tx_tokens(t),
    decreases txs.len(),
{
    let p = txs.push(t);
    if txs.len() == 0 {
        assert(p[0] == t);
        assert(p.drop_first() =~= Seq::<TxView>::empty());
        assert(spec_txs_tokens(Seq::<TxView>::empty()) =~= Seq::<Seq<char>>::empty());
        assert(spec_txs_tokens(p) == spec_tx_tokens(t) + spec_txs_tokens(p.drop_first()));
        assert(spec_tx_tokens(t) + Seq::<Seq<char>>::empty() =~= spec_tx_tokens(t));
        assert(Seq::<Seq<char>>::empty() + spec_tx_tokens(t) =~= spec_tx_tokens(t));
    } else {
        assert(p[0] == txs[0]);
        assert(p.drop_first() =~= txs.drop_first().push(t));
        lemma_txs_tokens_push(txs.drop_first(), t);
        assert(spec_tx_tokens(txs[0]) + (spec_txs_tokens(txs.drop_first()) + spec_tx_tokens(t)) =~= (
        spec_tx_tokens(txs[0]) + spec_txs_tokens(txs.drop_first())) + spec_tx_tokens(t));
    }
}

proof fn lemma_ledger_tokens_push(l: Seq<EntryView>, e: EntryView)
    ensures
        spec_ledger_tokens(l.push(e)) == spec_ledger_tokens(l) + spec_account_tokens(e.account),
    decreases l.len(),
{
    let p = l.push(e);
    if l.len() == 0 {
        assert(p[0] == e);
        assert(p.drop_first() =~= Seq::<EntryView>::empty());
        assert(spec_ledger_tokens(Seq::<EntryView>::empty()) =~= Seq::<Seq<char>>::empty());
        assert(spec_ledger_tokens(p) == spec_account_tokens(e.account) + spec_ledger_tokens(
            p.drop_first(),
        ));
        assert(spec_account_tokens(e.account) + Seq::<Seq<char>>::empty() =~= spec_account_tokens(
            e.account,
        ));
        assert(Seq::<Seq<char>>::empty() + spec_account_tokens(e.account) =~= spec_account_tokens(
            e.account,
        ));
    } else {
        assert(p[0] == l[0]);
        assert(p.drop_first() =~= l.drop_first().push(e));
        lemma_ledger_tokens_push(l.drop_first(), e);
        assert(spec_account_tokens(l[0].account) + (spec_ledger_tokens(l.drop_first())
            + spec_account_tokens(e.account)) =~= (spec_account_tokens(l[0].account)
            + spec_ledger_tokens(l.drop_first())) + spec_account_tokens(e.account));
    }
}

proof fn lemma_join_commas_push(toks: Seq<Seq<char>>, x: Seq<char>)
    requires
        toks.len() >= 1,
    ensures
        spec_join_commas(toks.push(x)) == spec_join_commas(toks) + seq![','] + x,
    decreases toks.len(),
{
    let p = toks.push(x);
    if toks.len() == 1 {
        assert(p.drop_first() =~= seq![x]);
        assert(spec_join_commas(p.drop_first()) == x);
        assert(p[0] == toks[0]);
    } else {
        assert(p.drop_first() =~= toks.drop_first().push(x));
        lemma_join_commas_push(toks.drop_first(), x);
        assert(p[0] == toks[0]);
        assert(toks[0] + seq![','] + (spec_join_commas(toks.drop_first()) + seq![','] + x) =~= (
        toks[0] + seq![','] + spec_join_commas(toks.drop_first())) + seq![','] + x);
    }
}

/// The tokens of a run of transactions, indexed: three per transaction.
proof fn lemma_txs_tokens_index(txs: Seq<TxView>)
    ensures
        spec_txs_tokens(txs).len() == 3 * txs.len(),
        forall|j: int|
            0 <= j < txs.len() ==> spec_txs_tokens(txs)[3 * j] == spec_amount_token(
                (#[trigger] txs[j]).amount as int,
            ) && spec_txs_tokens(txs)[3 * j + 1] == txs[j].label && spec_txs_tokens(txs)[3 * j + 2]
                == txs[j].date.spec_iso(),
    decreases txs.len(),
{
    if txs.len() > 0 {
        let rest = txs.drop_first();
        lemma_txs_tokens_index(rest);
        assert(forall|j: int| 0 <= j < rest.len() ==> #[trigger] rest[j] == txs[j + 1]);
        let w = spec_txs_tokens(txs);
        assert(w == spec_tx_tokens(txs[0]) + spec_txs_tokens(rest));
        assert forall|j: int|
            0 <= j < txs.len() implies w[3 * j] == spec_amount_token(
            (#[trigger] txs[j]).amount as int,
        ) && w[3 * j + 1] == txs[j].label && w[3 * j + 2] == txs[j].date.spec_iso() by {
            if j == 0 {
                assert(w[0] == spec_tx_tokens(txs[0])[0]);
                assert(w[1] == spec_tx_tokens(txs[0])[1]);
                assert(w[2] == spec_tx_tokens(txs[0])[2]);
            } else {
                assert(w[3 * j] == spec_txs_tokens(rest)[3 * (j - 1)]);
                assert(w[3 * j + 1] == spec_txs_tokens(rest)[3 * (j - 1) + 1]);
                assert(w[3 * j + 2] == spec_txs_tokens(rest)[3 * (j - 1) + 2]);
                assert(rest[j - 1] == txs[j]);
            }
        }
    }
}

/// Scanning the encoded tokens of a run of transactions adds exactly those
/// transactions and stops just past the closing brace.
#[verifier::rlimit(100)]
proof fn lemma_read_txs_block(toks: Seq<Seq<char>>, pos: int, txs: Seq<TxView>, a: AccountView)
    requires
        0 <= pos,
        pos + 3 * txs.len() + 1 <= toks.len(),
        forall|j: int|
            0 <= j < txs.len() ==> toks[pos + 3 * j] == spec_amount_token(
                (#[trigger] txs[j]).amount as int,
            ) && toks[pos + 3 * j + 1] == txs[j].label && toks[pos + 3 * j + 2]
                == txs[j].date.spec_iso(),
        toks[pos + 3 * txs.len()] == seq!['}'],
        forall|j: int| 0 <= j < txs.len() ==> (#[trigger] txs[j]).wf(),
        forall|a1: int, b1: int|
            0 <= a1 < b1 < txs.len() ==> (#[trigger] txs[a1]).key() != (#[trigger] txs[b1]).key(),
        forall|j: int| 0 <= j < txs.len() ==> !has_key(a.txs, (#[trigger] txs[j]).key()),
    ensures
        spec_read_txs(toks, pos, a) == Ok::<_, LedgerError>(
            (
                AccountView {
                    name: a.name,
                    balance: a.balance + sum_amounts(txs),
                    txs: a.txs + txs,
                },
                pos + 3 * txs.len() + 1,
            ),
        ),
    decreases txs.len(),
{
    if txs.len() == 0 {
        assert(toks[pos] == seq!['}']);
        assert(a.txs + txs =~= a.txs);
        assert(sum_amounts(txs) == 0);
        assert(spec_read_txs(toks, pos, a) == Ok::<_, LedgerError>((a, pos + 1)));
        assert(AccountView { name: a.name, balance: a.balance + 0, txs: a.txs + txs } == a);
    } else {
        let t0 = txs[0];
        assert(toks[pos] == spec_amount_token(t0.amount as int));
        lemma_amount_token_chars(t0.amount as int);
        assert(toks[pos] != seq!['}']) by {
            if toks[pos] == seq!['}'] {
                assert(toks[pos][0] == '}');
            }
        }
        assert(pos < toks.len() - 2);
        lemma_amount_round_trip(t0.amount);
        assert(spec_parse_amount(toks[pos]) == Some(t0.amount));
        lemma_date_round_trip(t0.date);
        assert(spec_parse_date(toks[pos + 2]) == Some(t0.date));
        assert(toks[pos + 1] == t0.label);
        assert(spec_add_tx(a, t0.label, t0.amount, t0.date) == Ok::<_, LedgerError>(
            AccountView {
                name: a.name,
                balance: a.balance + t0.amount,
                txs: a.txs.push(t0),
            },
        )) by {
            assert(!has_key(a.txs, t0.key()));
            assert(TxView { label: t0.label, amount: t0.amount, date: t0.date } == t0);
        }
        let a2 = AccountView { name: a.name, balance: a.balance + t0.amount, txs: a.txs.push(t0) };
        let rest = txs.drop_first();
        assert(forall|j: int| 0 <= j < rest.len() ==> #[trigger] rest[j] == txs[j + 1]);
        assert(forall|j: int| 0 <= j < rest.len() ==> !has_key(a2.txs, (#[trigger] rest[j]).key()))
            by {
            assert forall|j: int| 0 <= j < rest.len() implies !has_key(
                a2.txs,
                (#[trigger] rest[j]).key(),
            ) by {
                lemma_has_key_push(a.txs, t0, rest[j].key());
                assert(rest[j] == txs[j + 1]);
                assert(txs[0].key() != txs[j + 1].key());
            }
        }
        lemma_read_txs_block(toks, pos + 3, rest, a2);
        assert(a2.txs + rest =~= a.txs + txs);
        lemma_sum_first(txs);
        assert(spec_read_txs(toks, pos, a) == spec_read_txs(toks, pos + 3, a2));
    }
}

/// A name the storage format carries and gives back unchanged: free of the
/// comma delimiter, not ending in an opening brace, and with no surrounding
/// whitespace for decoding to strip.
pub open spec fn encodable_name(s: Seq<char>) -> bool {
    &&& comma_free(s)
    &&& s.len() > 0 ==> s.last() != '{' && !crate::text::is_space(s[0]) && !crate::text::is_space(
        s.last(),
    )
}

/// A collection the storage format carries and gives back unchanged:
/// encodable names, and labels free of the comma delimiter.
pub open spec fn round_trippable(l: Seq<EntryView>) -> bool {
    &&& forall|i: int| 0 <= i < l.len() ==> encodable_name((#[trigger] l[i]).account.name)
    &&& forall|i: int, j: int|
        0 <= i < l.len() && 0 <= j < l[i].account.txs.len() ==> comma_free(
            (#[trigger] l[i].account.txs[j]).label,
        )
}

/// The entry as decoding reproduces it: the same key, name and balance, the
/// transactions sorted by ascending date.
pub open spec fn date_sorted_entry(e: EntryView) -> EntryView {
    EntryView {
        key: e.key,
        account: AccountView {
            name: e.account.name,
            balance: e.account.balance,
            txs: spec_sort_by_date(e.account.txs),
        },
    }
}

/// Reading one encoded account block yields the account with its
/// transactions sorted, and stops just past its closing brace.
#[verifier::rlimit(100)]
proof fn lemma_read_account_block(toks: Seq<Seq<char>>, pos: int, a: AccountView)
    requires
        0 <= pos,
        pos + 2 + 3 * a.txs.len() <= toks.len(),
        toks.subrange(pos, pos + 2 + 3 * a.txs.len()) == spec_account_tokens(a),
        a.wf(),
        encodable_name(a.name),
    ensures
        spec_read_account(toks, pos) == Ok::<_, LedgerError>(
            (
                AccountView { name: a.name, balance: a.balance, txs: spec_sort_by_date(a.txs) },
                pos + 2 + 3 * a.txs.len(),
            ),
        ),
{
    let sorted = spec_sort_by_date(a.txs);
    lemma_sort_by_date_props(a.txs);
    lemma_sort_by_date_distinct(a.txs);
    lemma_txs_tokens_index(sorted);
    let block = spec_account_tokens(a);
    let blen = 2 + 3 * a.txs.len();
    assert(block.len() == blen);
    // The name token.
    assert(toks.subrange(pos, pos + blen)[0] == toks[pos]);
    assert(block[0] == a.name + seq!['{']);
    assert(toks[pos] == a.name + seq!['{']);
    let raw = a.name + seq!['{'];
    assert(a.name.len() > 0) by {
        if a.name.len() == 0 {
            assert(spec_trim(a.name).len() > 0);
            assert(crate::text::spec_trim_start(a.name) =~= a.name);
            assert(crate::text::spec_trim_end(a.name) =~= a.name);
        }
    }
    crate::text::lemma_trim_end_matches_run(raw, '{', a.name.len() as int);
    assert(raw.subrange(0, a.name.len() as int) =~= a.name);
    assert(spec_trim_end_matches(raw, '{') == a.name);
    crate::text::lemma_trim_stable(a.name);
    assert(spec_trim(a.name) == a.name);
    // The transaction tokens.
    assert forall|j: int|
        0 <= j < sorted.len() implies toks[pos + 1 + 3 * j] == spec_amount_token(
        (#[trigger] sorted[j]).amount as int,
    ) && toks[pos + 1 + 3 * j + 1] == sorted[j].label && toks[pos + 1 + 3 * j + 2]
        == sorted[j].date.spec_iso() by {
        assert(toks.subrange(pos, pos + blen)[1 + 3 * j] == toks[pos + (1 + 3 * j)]);
        assert(toks.subrange(pos, pos + blen)[1 + 3 * j + 1] == toks[pos + (1 + 3 * j + 1)]);
        assert(toks.subrange(pos, pos + blen)[1 + 3 * j + 2] == toks[pos + (1 + 3 * j + 2)]);
        assert(block[1 + 3 * j] == spec_txs_tokens(sorted)[3 * j]);
        assert(block[1 + 3 * j + 1] == spec_txs_tokens(sorted)[3 * j + 1]);
        assert(block[1 + 3 * j + 2] == spec_txs_tokens(sorted)[3 * j + 2]);
    }
    assert(toks.subrange(pos, pos + blen)[1 + 3 * sorted.len() as int] == toks[pos + (1 + 3
        * sorted.len() as int)]);
    assert(block[1 + 3 * sorted.len() as int] == seq!['}']);
    assert(toks[pos + 1 + 3 * sorted.len() as int] == seq!['}']);
    assert forall|j: int| 0 <= j < sorted.len() implies (#[trigger] sorted[j]).wf() by {
        assert(a.txs.contains(sorted[j]));
        let x = choose|x: int| 0 <= x < a.txs.len() && a.txs[x] == sorted[j];
    }
    let a0 = AccountView { name: a.name, balance: 0, txs: Seq::empty() };
    assert(forall|j: int|
        0 <= j < sorted.len() ==> !has_key(a0.txs, (#[trigger] sorted[j]).key()));
    lemma_read_txs_block(toks, pos + 1, sorted, a0);
    assert(a0.txs + sorted =~= sorted);
    assert(sum_amounts(sorted) == sum_amounts(a.txs));
    assert(spec_read_account(toks, pos) == spec_read_txs(toks, pos + 1, a0));
}

/// Reading the encoded blocks of a run of accounts registers each in turn.
#[verifier::rlimit(100)]
proof fn lemma_read_accounts_blocks(
    toks: Seq<Seq<char>>,
    pos: int,
    rest: Seq<EntryView>,
    acc: Seq<EntryView>,
)
    requires
        0 <= pos <= toks.len(),
        toks.subrange(pos, toks.len() as int) == spec_ledger_tokens(rest),
        forall|i: int|
            0 <= i < rest.len() ==> (#[trigger] rest[i]).account.wf() && rest[i].key == lower_of(
                rest[i].account.name,
            ) && encodable_name(rest[i].account.name),
        forall|i: int, j: int|
            0 <= i < j < rest.len() ==> (#[trigger] rest[i]).key != (#[trigger] rest[j]).key,
        forall|i: int, j: int|
            0 <= i < acc.len() && 0 <= j < rest.len() ==> (#[trigger] acc[i]).key != (
            #[trigger] rest[j]).key,
    ensures
        spec_read_accounts(toks, pos, acc) == Ok::<_, LedgerError>(
            acc + rest.map_values(|e: EntryView| date_sorted_entry(e)),
        ),
    decreases rest.len(),
{
    let mapped = rest.map_values(|e: EntryView| date_sorted_entry(e));
    if rest.len() == 0 {
        assert(spec_ledger_tokens(rest) =~= Seq::<Seq<char>>::empty());
        assert(toks.len() - pos == 0);
        assert(acc + mapped =~= acc);
    } else {
        let e0 = rest[0];
        let a = e0.account;
        let blen = 2 + 3 * a.txs.len();
        let block = spec_account_tokens(a);
        lemma_sort_by_date_props(a.txs);
        assert(block.len() == blen) by {
            lemma_txs_tokens_index(spec_sort_by_date(a.txs));
        }
        let rest1 = rest.drop_first();
        assert(forall|i: int| 0 <= i < rest1.len() ==> #[trigger] rest1[i] == rest[i + 1]);
        assert(spec_ledger_tokens(rest) == block + spec_ledger_tokens(rest1));
        assert(pos + blen <= toks.len());
        assert(toks.subrange(pos, pos + blen) =~= block) by {
            assert(forall|t: int|
                0 <= t < toks.len() - pos ==> #[trigger] toks.subrange(
                    pos,
                    toks.len() as int,
                )[t] == toks[pos + t]);
        }
        lemma_read_account_block(toks, pos, a);
        let a_sorted = AccountView {
            name: a.name,
            balance: a.balance,
            txs: spec_sort_by_date(a.txs),
        };
        let ev = EntryView { key: lower_of(a_sorted.name), account: a_sorted };
        assert(ev.key == e0.key);
        assert(!crate::ledger::has_entry(acc, ev.key)) by {
            if crate::ledger::has_entry(acc, ev.key) {
                let i = choose|i: int| 0 <= i < acc.len() && acc[i].key == ev.key;
                assert(acc[i].key != rest[0].key);
            }
        }
        assert(spec_register(acc, ev) == acc.push(ev));
        let acc1 = acc.push(ev);
        assert(toks.subrange(pos + blen, toks.len() as int) =~= spec_ledger_tokens(rest1)) by {
            let whole = toks.subrange(pos, toks.len() as int);
            let tail = toks.subrange(pos + blen, toks.len() as int);
            assert(whole.len() == blen + spec_ledger_tokens(rest1).len());
            assert forall|t: int|
                0 <= t < tail.len() implies tail[t] == spec_ledger_tokens(rest1)[t] by {
                assert(tail[t] == toks[pos + blen + t]);
                assert(whole[blen + t] == toks[pos + (blen + t)]);
                assert(whole[blen + t] == spec_ledger_tokens(rest1)[t]);
            }
        }
        assert(forall|i: int, j: int|
            0 <= i < acc1.len() && 0 <= j < rest1.len() ==> (#[trigger] acc1[i]).key != (
            #[trigger] rest1[j]).key) by {
            assert(forall|j: int| 0 <= j < rest1.len() ==> #[trigger] rest1[j] == rest[j + 1]);
            assert(forall|i: int| 0 <= i < acc.len() ==> #[trigger] acc1[i] == acc[i]);
            assert(acc1[acc1.len() - 1] == ev);
        }
        lemma_read_accounts_blocks(toks, pos + blen, rest1, acc1);
        let mapped1 = rest1.map_values(|e: EntryView| date_sorted_entry(e));
        assert(ev == date_sorted_entry(rest[0]));
        assert(acc1 + mapped1 =~= acc + mapped) by {
            assert(mapped[0] == date_sorted_entry(rest[0]));
            assert(forall|j: int| 0 <= j < rest1.len() ==> mapped1[j] == date_sorted_entry(
                rest1[j],
            ));
            assert(forall|j: int| 0 <= j < rest.len() ==> mapped[j] == date_sorted_entry(rest[j]));
        }
        assert(spec_read_accounts(toks, pos, acc) == spec_read_accounts(toks, pos + blen, acc1));
    }
}

/// Every token the encoder emits is free of the comma delimiter.
#[verifier::rlimit(100)]
proof fn lemma_ledger_tokens_comma_free(l: Seq<EntryView>)
    requires
        ledger_wf(l),
        round_trippable(l),
    ensures
        forall|i: int|
            0 <= i < spec_ledger_tokens(l).len() ==> comma_free(#[trigger] spec_ledger_tokens(l)[i]),
    decreases l.len(),
{
    if l.len() > 0 {
        let a = l[0].account;
        let sorted = spec_sort_by_date(a.txs);
        lemma_sort_by_date_props(a.txs);
        lemma_txs_tokens_index(sorted);
        let block = spec_account_tokens(a);
        let rest = l.drop_first();
        assert(forall|i: int| 0 <= i < rest.len() ==> #[trigger] rest[i] == l[i + 1]);
        assert(ledger_wf(rest)) by {
            assert(forall|i: int| 0 <= i < rest.len() ==> #[trigger] rest[i] == l[i + 1]);
        }
        assert(round_trippable(rest)) by {
            assert(forall|i: int| 0 <= i < rest.len() ==> #[trigger] rest[i] == l[i + 1]);
        }
        lemma_ledger_tokens_comma_free(rest);
        assert(comma_free(a.name + seq!['{'])) by {
            assert(comma_free(a.name));
            assert(forall|j: int|
                0 <= j < a.name.len() ==> (a.name + seq!['{'])[j] == a.name[j]);
            assert((a.name + seq!['{'])[a.name.len() as int] == '{');
        }
        assert(comma_free(seq!['}']));
        assert forall|j: int| 0 <= j < block.len() implies comma_free(#[trigger] block[j]) by {
            if j == 0 {
            } else if j < 1 + 3 * sorted.len() {
                let m = j - 1;
                let k = m / 3;
                assert(0 <= k < sorted.len());
                assert(a.txs.contains(sorted[k]));
                let x = choose|x: int| 0 <= x < a.txs.len() && a.txs[x] == sorted[k];
                assert(sorted[k].wf());
                assert(comma_free(sorted[k].label));
                assert(m == 3 * k || m == 3 * k + 1 || m == 3 * k + 2);
                if m == 3 * k {
                    lemma_amount_token_chars(sorted[k].amount as int);
                    assert(block[j] == spec_amount_token(sorted[k].amount as int));
                    assert forall|c: int|
                        0 <= c < block[j].len() implies block[j][c] != ',' by {
                        assert(block[j][c] == '-' || block[j][c] == '.' || crate::text::is_digit(
                            block[j][c],
                        ));
                    }
                } else if m == 3 * k + 1 {
                    assert(block[j] == sorted[k].label);
                } else {
                    lemma_iso_chars(sorted[k].date);
                    assert(block[j] == sorted[k].date.spec_iso());
                    assert forall|c: int|
                        0 <= c < block[j].len() implies block[j][c] != ',' by {
                        assert(block[j][c] == '-' || crate::text::is_digit(block[j][c]));
                    }
                }
            } else {
                assert(block[j] == seq!['}']);
            }
        }
        assert(spec_ledger_tokens(l) == block + spec_ledger_tokens(rest));
    }
}

/// Round trip: decoding an encoded collection succeeds and reproduces an
/// equivalent collection. Each account comes back under the same key, with
/// the same name and the same balance, holding the same set of transactions;
/// only their stored order changes, to ascending date. Labels holding the
/// comma delimiter, and names that the header trimming would alter, are not
/// representable in the format and are excluded.
pub proof fn lemma_round_trip(l: Seq<EntryView>)
    requires
        ledger_wf(l),
        round_trippable(l),
    ensures
        spec_decode(spec_encode(l)) == Ok::<_, LedgerError>(
            l.map_values(|e: EntryView| date_sorted_entry(e)),
        ),
        forall|i: int|
            0 <= i < l.len() ==> {
                let d = l.map_values(|e: EntryView| date_sorted_entry(e))[i];
                d.key == (#[trigger] l[i]).key && d.account.name == l[i].account.name
                    && d.account.balance == l[i].account.balance && d.account.txs.to_multiset()
                    == l[i].account.txs.to_multiset()
            },
{
    let mapped = l.map_values(|e: EntryView| date_sorted_entry(e));
    assert forall|i: int|
        0 <= i < l.len() implies {
        let d = mapped[i];
        d.key == (#[trigger] l[i]).key && d.account.name == l[i].account.name
            && d.account.balance == l[i].account.balance && d.account.txs.to_multiset()
            == l[i].account.txs.to_multiset()
    } by {
        assert(mapped[i] == date_sorted_entry(l[i]));
        lemma_sort_by_date_props(l[i].account.txs);
    }
    if l.len() == 0 {
        assert(spec_ledger_tokens(l) =~= Seq::<Seq<char>>::empty());
        assert(spec_encode(l) == Seq::<char>::empty());
        assert(mapped =~= Seq::<EntryView>::empty());
    } else {
        let toks = spec_ledger_tokens(l);
        lemma_ledger_tokens_comma_free(l);
        let a = l[0].account;
        let block = spec_account_tokens(a);
        lemma_sort_by_date_props(a.txs);
        lemma_txs_tokens_index(spec_sort_by_date(a.txs));
        assert(block.len() == 2 + 3 * a.txs.len());
        assert(toks == block + spec_ledger_tokens(l.drop_first()));
        assert(toks.len() >= 2);
        assert(toks[0] == a.name + seq!['{']);
        assert(a.name.len() > 0) by {
            if a.name.len() == 0 {
                assert(spec_trim(a.name).len() > 0);
                assert(crate::text::spec_trim_start(a.name) =~= a.name);
                assert(crate::text::spec_trim_end(a.name) =~= a.name);
            }
        }
        assert(toks[0].len() > 0 && toks[0].last() == '{');
        lemma_split_join(toks);
        let s = spec_encode(l);
        assert(s == spec_join_commas(toks));
        assert(s.len() > 0) by {
            if toks.len() >= 2 {
                assert(s == toks[0] + seq![','] + spec_join_commas(toks.drop_first()));
            }
        }
        assert(spec_split_commas(s) == toks);
        assert(toks.subrange(0, toks.len() as int) =~= toks);
        lemma_read_accounts_blocks(toks, 0, l, Seq::<EntryView>::empty());
        assert(Seq::<EntryView>::empty() + mapped =~= mapped);
    }
}

/// Joins tokens with a comma between each pair.
#[verifier::loop_isolation(false)]
fn join_commas(toks: &Vec<String>) -> (r: String)
    ensures
        r@ == spec_join_commas(toks@.map_values(|t: String| t@)),
{
    let ghost tv = toks@.map_values(|t: String| t@);
    let mut out = String::new();
    let mut i: usize = 0;
    while i < toks.len()
        invariant
            0 <= i <= toks@.len(),
            i == 0 ==> out@ == Seq::<char>::empty(),
            i >= 1 ==> out@ == spec_join_commas(tv.subrange(0, i as int)),
        decreases toks@.len() - i,
    {
        if i > 0 {
            out.append(",");
        }
        out.append(toks[i].as_str());
        proof {
            reveal_strlit(",");
            assert(tv[i as int] == toks@[i as int]@);
            let pre = tv.subrange(0, i as int);
            let post = tv.subrange(0, i + 1);
            assert(post =~= pre.push(tv[i as int]));
            if i == 0 {
                assert(spec_join_commas(post) == tv[0]);
                assert(out@ =~= spec_join_commas(post));
            } else {
                lemma_join_commas_push(pre, tv[i as int]);
                assert(out@ =~= spec_join_commas(post));
            }
        }
        i = i + 1;
    }
    proof {
        if toks@.len() == 0 {
            assert(tv.len() == 0);
        } else {
            assert(tv.subrange(0, tv.len() as int) =~= tv);
        }
    }
    out
}

/// Encodes an account collection into its persisted text.
#[verifier::loop_isolation(false)]
#[verifier::rlimit(100)]
pub fn encode(l: &Ledger) -> (r: String)
    requires
        ledger_wf(l@),
    ensures
        r@ == spec_encode(l@),
{
    let mut toks: Vec<String> = Vec::new();
    proof {
        assert(l@.subrange(0, 0) =~= Seq::<EntryView>::empty());
        assert(toks@.map_values(|t: String| t@) =~= Seq::<Seq<char>>::empty());
        assert(spec_ledger_tokens(Seq::<EntryView>::empty()) =~= Seq::<Seq<char>>::empty());
    }
    let n = l.len();
    let mut ei: usize = 0;
    while ei < n
        invariant
            0 <= ei <= l@.len(),
            n == l@.len(),
            toks@.map_values(|t: String| t@) == spec_ledger_tokens(l@.subrange(0, ei as int)),
        decreases n - ei,
    {
        let account = l.account_at(ei);
        let ghost av = l@[ei as int].account;
        let mut nt = String::new();
        nt.append(account.name.as_str());
        nt.append("{");
        let ghost head = toks@.map_values(|t: String| t@);
        toks.push(nt);
        proof {
            reveal_strlit("{");
            assert("{"@ =~= seq!['{']);
            assert(toks@.map_values(|t: String| t@) =~= head.push(av.name + seq!['{']));
        }
        let sorted = account.sorted_by_date();
        let ghost sv = spec_sort_by_date(av.txs);
        proof {
            lemma_sort_by_date_props(av.txs);
            assert forall|j: int| 0 <= j < sv.len() implies (#[trigger] sv[j]).wf() by {
                assert(av.txs.contains(sv[j]));
                let x = choose|x: int| 0 <= x < av.txs.len() && av.txs[x] == sv[j];
            }
            assert(sv.subrange(0, 0) =~= Seq::<TxView>::empty());
            assert(spec_txs_tokens(Seq::<TxView>::empty()) =~= Seq::<Seq<char>>::empty());
            assert(head.push(av.name + seq!['{']) =~= head + seq![av.name + seq!['{']]);
        }
        let mut ti: usize = 0;
        while ti < sorted.len()
            invariant
                0 <= ti <= sorted@.len(),
                sorted@.map_values(|t: crate::account::Transaction| t@) == sv,
                forall|j: int| 0 <= j < sv.len() ==> (#[trigger] sv[j]).wf(),
                toks@.map_values(|t: String| t@) == head + seq![av.name + seq!['{']]
                    + spec_txs_tokens(sv.subrange(0, ti as int)),
            decreases sorted@.len() - ti,
        {
            proof {
                assert(sorted@.map_values(|t: crate::account::Transaction| t@)[ti as int] == sv[ti as int]);
                assert(sorted@[ti as int]@ == sv[ti as int]);
            }
            let mut at = String::new();
            push_amount_token(&mut at, sorted[ti].amount);
            let ghost mid = toks@.map_values(|t: String| t@);
            toks.push(at);
            toks.push(sorted[ti].label.clone());
            toks.push(sorted[ti].date.iso());
            proof {
                assert(toks@.map_values(|t: String| t@) =~= mid + spec_tx_tokens(sv[ti as int]));
                let pre = sv.subrange(0, ti as int);
                let post = sv.subrange(0, ti + 1);
                assert(post =~= pre.push(sv[ti as int]));
                lemma_txs_tokens_push(pre, sv[ti as int]);
                assert(toks@.map_values(|t: String| t@) =~= head + seq![av.name + seq!['{']]
                    + spec_txs_tokens(post));
            }
            ti = ti + 1;
        }
        let rb = String::from_str("}");
        let ghost tail = toks@.map_values(|t: String| t@);
        toks.push(rb);
        proof {
            reveal_strlit("}");
            assert("}"@ =~= seq!['}']);
            assert(sv.subrange(0, sv.len() as int) =~= sv);
            assert(toks@.map_values(|t: String| t@) =~= tail.push(seq!['}']));
            assert(tail.push(seq!['}']) =~= head + spec_account_tokens(av));
            let pre = l@.subrange(0, ei as int);
            let post = l@.subrange(0, ei + 1);
            assert(post =~= pre.push(l@[ei as int]));
            lemma_ledger_tokens_push(pre, l@[ei as int]);
            assert(toks@.map_values(|t: String| t@) =~= spec_ledger_tokens(post));
        }
        ei = ei + 1;
    }
    proof {
        assert(l@.subrange(0, l@.len() as int) =~= l@);
    }
    join_commas(&toks)
}

} // verus!
