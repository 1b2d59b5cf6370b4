//! Accounts and their transactions: a named bucket of dated, labeled amounts
//! whose running balance always equals the sum of what it holds.
//!
//! A transaction's identity is the triple of its date, label and amount: two
//! transactions agreeing on all three collide, and the second is rejected.

use crate::dates::{lemma_date_le_total, Date};
use crate::errors::LedgerError;
use crate::money::{push_money2, spec_money2, AMOUNT_MAX};
use crate::text::{spec_trim, trim};
use vstd::prelude::*;
use vstd::string::{StrSliceExecFns, StringExecFns};

verus! {

/// The mathematical content of a transaction.
pub ghost struct TxView {
    pub label: Seq<char>,
    pub amount: i64,
    pub date: Date,
}

/// A transaction's identity: its date, label and amount.
pub type KeyView = (Date, Seq<char>, i64);

impl TxView {
    pub open spec fn key(self) -> KeyView {
        (self.date, self.label, self.amount)
    }

    /// A valid transaction: a label that is not blank, a real date, and an
    /// amount the storage format can carry.
    pub open spec fn wf(self) -> bool {
        &&& spec_trim(self.label).len() > 0
        &&& self.date.wf()
        &&& -AMOUNT_MAX <= self.amount <= AMOUNT_MAX
    }
}

/// A single dated, labeled, signed monetary entry, in cents.
pub struct Transaction {
    pub label: String,
    pub amount: i64,
    pub date: Date,
}

impl View for Transaction {
    type V = TxView;

    open spec fn view(&self) -> TxView {
        TxView { label: self.label@, amount: self.amount, date: self.date }
    }
}

impl Transaction {
    pub fn label(&self) -> (r: &str)
        ensures
            r@ == self@.label,
    {
        self.label.as_str()
    }

    pub fn amount(&self) -> (r: i64)
        ensures
            r == self@.amount,
    {
        self.amount
    }

    pub fn date(&self) -> (r: Date)
        ensures
            r == self@.date,
    {
        self.date
    }

    /// A copy of the transaction with the same content.
    pub fn duplicate(&self) -> (r: Transaction)
        ensures
            r@ == self@,
    {
        Transaction { label: self.label.clone(), amount: self.amount, date: self.date }
    }

    /// The one-line display form of the transaction.
    pub fn render(&self) -> (r: String)
        requires
            self@.wf(),
        ensures
            r@ == spec_render_tx(self@),
    {
        let mut out = String::new();
        out.append("Date: ");
        self.date.push_pretty(&mut out);
        out.append(" | Label: ");
        out.append(self.label.as_str());
        out.append(" | Amount: $");
        push_money2(&mut out, self.amount as i128);
        proof {
            assert(out@ =~= spec_render_tx(self@));
        }
        out
    }
}

/// The display form of a transaction:
/// `Date: DD Mon YYYY | Label: <label> | Amount: $<amount>`.
pub open spec fn spec_render_tx(t: TxView) -> Seq<char> {
    "Date: "@ + t.date.spec_pretty() + " | Label: "@ + t.label + " | Amount: $"@ + spec_money2(
        t.amount as int,
    )
}

/// A transaction identity as a value: used to say which entry an operation
/// addresses.
pub struct TxKey {
    pub date: Date,
    pub label: String,
    pub amount: i64,
}

impl View for TxKey {
    type V = KeyView;

    open spec fn view(&self) -> KeyView {
        (self.date, self.label@, self.amount)
    }
}

/// Whether some transaction in the sequence has the given identity.
pub open spec fn has_key(txs: Seq<TxView>, k: KeyView) -> bool {
    exists|i: int| 0 <= i < txs.len() && txs[i].key() == k
}

/// The first position holding the given identity, `-1` when there is none.
pub open spec fn idx_of_key(txs: Seq<TxView>, k: KeyView) -> int
    decreases txs.len(),
{
    if txs.len() == 0 {
        -1
    } else if txs[0].key() == k {
        0
    } else {
        let r = idx_of_key(txs.drop_first(), k);
        if r == -1 {
            -1
        } else {
            r + 1
        }
    }
}

/// `idx_of_key` finds a position exactly when the key is present.
pub proof fn lemma_idx_of_key(txs: Seq<TxView>, k: KeyView)
    ensures
        has_key(txs, k) <==> 0 <= idx_of_key(txs, k) < txs.len(),
        has_key(txs, k) ==> txs[idx_of_key(txs, k)].key() == k,
        !has_key(txs, k) ==> idx_of_key(txs, k) == -1,
    decreases txs.len(),
{
    if txs.len() > 0 && txs[0].key() != k {
        lemma_idx_of_key(txs.drop_first(), k);
        assert(forall|i: int| 0 < i < txs.len() ==> txs.drop_first()[i - 1] == txs[i]);
        if has_key(txs, k) {
            let i = choose|i: int| 0 <= i < txs.len() && txs[i].key() == k;
            assert(txs.drop_first()[i - 1] == txs[i]);
        }
    }
}

/// The sum, in cents, of the amounts in a sequence of transactions.
pub open spec fn sum_amounts(txs: Seq<TxView>) -> int
    decreases txs.len(),
{
    if txs.len() == 0 {
        0
    } else {
        sum_amounts(txs.drop_last()) + txs.last().amount
    }
}

/// A sum of bounded amounts is itself bounded by the count of its terms.
pub proof fn lemma_sum_bound(txs: Seq<TxView>)
    requires
        forall|i: int| 0 <= i < txs.len() ==> -AMOUNT_MAX <= (#[trigger] txs[i]).amount
            <= AMOUNT_MAX,
    ensures
        -(txs.len() as int) * (AMOUNT_MAX as int) <= sum_amounts(txs) <= (txs.len() as int) * (
        AMOUNT_MAX as int),
    decreases txs.len(),
{
    let m = AMOUNT_MAX as int;
    let n = txs.len() as int;
    if txs.len() == 0 {
    } else {
        let t = txs.drop_last();
        assert(forall|i: int| 0 <= i < t.len() ==> #[trigger] t[i] == txs[i]);
        lemma_sum_bound(t);
        assert(n * m == (n - 1) * m + m) by (nonlinear_arith);
    }
}

/// Removing one entry takes exactly its amount out of the sum.
pub proof fn lemma_sum_remove(txs: Seq<TxView>, i: int)
    requires
        0 <= i < txs.len(),
    ensures
        sum_amounts(txs.remove(i)) == sum_amounts(txs) - txs[i].amount,
    decreases txs.len(),
{
    if i == txs.len() - 1 {
        assert(txs.remove(i) =~= txs.drop_last());
    } else {
        let t = txs.drop_last();
        lemma_sum_remove(t, i);
        assert(txs.remove(i).drop_last() =~= t.remove(i));
        assert(txs.remove(i).last() == txs.last());
    }
}

/// Replacing one entry shifts the sum by the difference of the amounts.
pub proof fn lemma_sum_update(txs: Seq<TxView>, i: int, t: TxView)
    requires
        0 <= i < txs.len(),
    ensures
        sum_amounts(txs.update(i, t)) == sum_amounts(txs) - txs[i].amount + t.amount,
    decreases txs.len(),
{
    if i == txs.len() - 1 {
        assert(txs.update(i, t).drop_last() =~= txs.drop_last());
        assert(txs.update(i, t).last() == t);
    } else {
        lemma_sum_update(txs.drop_last(), i, t);
        assert(txs.update(i, t).drop_last() =~= txs.drop_last().update(i, t));
        assert(txs.update(i, t).last() == txs.last());
    }
}

/// The mathematical content of an account.
pub ghost struct AccountView {
    pub name: Seq<char>,
    pub balance: int,
    pub txs: Seq<TxView>,
}

impl AccountView {
    /// A valid account: a name that is not blank, valid transactions with
    /// pairwise distinct identities, and a balance equal to their sum.
    pub open spec fn wf(self) -> bool {
        &&& spec_trim(self.name).len() > 0
        &&& forall|i: int| 0 <= i < self.txs.len() ==> (#[trigger] self.txs[i]).wf()
        &&& forall|i: int, j: int|
            0 <= i < j < self.txs.len() ==> (#[trigger] self.txs[i]).key() != (
            #[trigger] self.txs[j]).key()
        &&& self.balance == sum_amounts(self.txs)
    }
}

/// A named bucket of transactions with a derived running balance, in cents.
pub struct Account {
    pub name: String,
    pub balance: i128,
    pub transactions: Vec<Transaction>,
}

impl View for Account {
    type V = AccountView;

    open spec fn view(&self) -> AccountView {
        AccountView {
            name: self.name@,
            balance: self.balance as int,
            txs: self.transactions@.map_values(|t: Transaction| t@),
        }
    }
}

/// Adding a transaction: rejected for a blank label or a colliding identity,
/// otherwise appended with the balance raised by its amount.
pub open spec fn spec_add_tx(a: AccountView, label: Seq<char>, amount: i64, date: Date) -> Result<
    AccountView,
    LedgerError,
> {
    if spec_trim(label).len() == 0 {
        Err(LedgerError::Validation)
    } else if has_key(a.txs, (date, label, amount)) {
        Err(LedgerError::DuplicateKey)
    } else {
        Ok(
            AccountView {
                name: a.name,
                balance: a.balance + amount,
                txs: a.txs.push(TxView { label, amount, date }),
            },
        )
    }
}

/// Removing by identity: rejected when absent, otherwise taken out with the
/// balance lowered by its amount.
pub open spec fn spec_remove_tx(a: AccountView, k: KeyView) -> Result<AccountView, LedgerError> {
    if !has_key(a.txs, k) {
        Err(LedgerError::NotFound)
    } else {
        let i = idx_of_key(a.txs, k);
        Ok(
            AccountView {
                name: a.name,
                balance: a.balance - a.txs[i].amount,
                txs: a.txs.remove(i),
            },
        )
    }
}

/// Re-pricing by identity: rejected when absent or when the re-keyed entry
/// would collide with a different one; otherwise the amount is replaced and
/// the balance moves by the difference.
pub open spec fn spec_edit_amount(a: AccountView, k: KeyView, new_amount: i64) -> Result<
    AccountView,
    LedgerError,
> {
    if !has_key(a.txs, k) {
        Err(LedgerError::NotFound)
    } else {
        let i = idx_of_key(a.txs, k);
        let t = a.txs[i];
        let nt = TxView { label: t.label, amount: new_amount, date: t.date };
        if nt.key() != k && has_key(a.txs, nt.key()) {
            Err(LedgerError::DuplicateKey)
        } else {
            Ok(
                AccountView {
                    name: a.name,
                    balance: a.balance - t.amount + new_amount,
                    txs: a.txs.update(i, nt),
                },
            )
        }
    }
}

/// Re-dating by identity: rejected when absent or colliding; the balance is
/// untouched.
pub open spec fn spec_edit_date(a: AccountView, k: KeyView, new_date: Date) -> Result<
    AccountView,
    LedgerError,
> {
    if !has_key(a.txs, k) {
        Err(LedgerError::NotFound)
    } else {
        let i = idx_of_key(a.txs, k);
        let t = a.txs[i];
        let nt = TxView { label: t.label, amount: t.amount, date: new_date };
        if nt.key() != k && has_key(a.txs, nt.key()) {
            Err(LedgerError::DuplicateKey)
        } else {
            Ok(AccountView { name: a.name, balance: a.balance, txs: a.txs.update(i, nt) })
        }
    }
}

/// Re-labeling by identity: rejected when absent, when the new label is
/// blank, or when the re-keyed entry would collide; the balance is untouched.
pub open spec fn spec_edit_label(a: AccountView, k: KeyView, new_label: Seq<char>) -> Result<
    AccountView,
    LedgerError,
> {
    if !has_key(a.txs, k) {
        Err(LedgerError::NotFound)
    } else if spec_trim(new_label).len() == 0 {
        Err(LedgerError::Validation)
    } else {
        let i = idx_of_key(a.txs, k);
        let t = a.txs[i];
        let nt = TxView { label: new_label, amount: t.amount, date: t.date };
        if nt.key() != k && has_key(a.txs, nt.key()) {
            Err(LedgerError::DuplicateKey)
        } else {
            Ok(AccountView { name: a.name, balance: a.balance, txs: a.txs.update(i, nt) })
        }
    }
}

impl Account {
    /// Builds an empty account, rejecting a blank name.
    pub fn build(name: &str) -> (r: Result<Account, LedgerError>)
        ensures
            match r {
                Ok(a) => spec_trim(name@).len() > 0 && a@ == (AccountView {
                    name: name@,
                    balance: 0,
                    txs: Seq::empty(),
                }) && a@.wf(),
                Err(e) => e == LedgerError::Validation && spec_trim(name@).len() == 0,
            },
    {
        let t = trim(name);
        if t.as_str().is_empty() {
            Err(LedgerError::Validation)
        } else {
            let a = Account { name: name.to_owned(), balance: 0, transactions: Vec::new() };
            proof {
                assert(a@.txs =~= Seq::<TxView>::empty());
            }
            Ok(a)
        }
    }

    pub fn name(&self) -> (r: &str)
        ensures
            r@ == self@.name,
    {
        self.name.as_str()
    }

    pub fn balance(&self) -> (r: i128)
        ensures
            r == self@.balance,
    {
        self.balance
    }

    pub fn transactions(&self) -> (r: &Vec<Transaction>)
        ensures
            r@.map_values(|t: Transaction| t@) == self@.txs,
    {
        &self.transactions
    }

    /// The position of the transaction with the given identity, if any.
    #[verifier::loop_isolation(false)]
    fn position_of(&self, date: Date, label: &str, amount: i64) -> (r: Option<usize>)
        ensures
            match r {
                Some(i) => i < self@.txs.len() && self@.txs[i as int].key() == (date, label@, amount)
                    && i == idx_of_key(self@.txs, (date, label@, amount)),
                None => !has_key(self@.txs, (date, label@, amount)),
            },
    {
        let ghost k: KeyView = (date, label@, amount);
        let n = self.transactions.len();
        let mut i: usize = 0;
        while i < n
            invariant
                0 <= i <= n,
                n == self.transactions@.len(),
                forall|j: int| 0 <= j < i ==> (#[trigger] self@.txs[j]).key() != k,
            decreases n - i,
        {
            let t = &self.transactions[i];
            proof {
                assert(self@.txs[i as int] == self.transactions@[i as int]@);
            }
            if t.date == date && t.amount == amount && crate::text::str_eq(t.label.as_str(), label) {
                proof {
                    assert(self@.txs[i as int].key() == k);
                    lemma_idx_of_key_prefix(self@.txs, k, i as int);
                }
                return Some(i);
            }
            proof {
                assert(self@.txs[i as int].key() != k);
            }
            i = i + 1;
        }
        proof {
            assert(forall|j: int| 0 <= j < self@.txs.len() ==> (#[trigger] self@.txs[j]).key() != k);
        }
        None
    }

    /// Adds a transaction dated `date`, enforcing label validity and identity
    /// uniqueness, and raising the balance by `amount`.
    pub fn add_transaction(&mut self, label: &str, amount: i64, date: Date) -> (r: Result<
        (),
        LedgerError,
    >)
        requires
            old(self)@.wf(),
            date.wf(),
            -AMOUNT_MAX <= amount <= AMOUNT_MAX,
        ensures
            match spec_add_tx(old(self)@, label@, amount, date) {
                Ok(av) => r is Ok && final(self)@ == av && final(self)@.wf(),
                Err(e) => r == Err::<(), LedgerError>(e) && final(self)@ == old(self)@,
            },
            spec_trim(label@).len() == 0 ==> r == Err::<(), LedgerError>(LedgerError::Validation),
            has_key(old(self)@.txs, (date, label@, amount)) && spec_trim(label@).len() > 0 ==> r
                == Err::<(), LedgerError>(LedgerError::DuplicateKey),
            r is Err ==> final(self)@ == old(self)@,
    {
        let t = trim(label);
        if t.as_str().is_empty() {
            return Err(LedgerError::Validation);
        }
        if self.position_of(date, label, amount).is_some() {
            return Err(LedgerError::DuplicateKey);
        }
        proof {
            lemma_sum_bound(old(self)@.txs);
            let n = old(self)@.txs.len() as int;
            let m = AMOUNT_MAX as int;
            assert(old(self).transactions.len() == old(self)@.txs.len());
            assert(n <= usize::MAX as int);
            assert(n * m <= usize::MAX as int * m && -(usize::MAX as int) * m <= -n * m)
                by (nonlinear_arith)
                requires
                    0 <= n <= usize::MAX as int,
                    m > 0,
            ;
        }
        self.balance = self.balance + amount as i128;
        self.transactions.push(
            Transaction { label: label.to_owned(), amount, date },
        );
        proof {
            let tv = TxView { label: label@, amount, date };
            assert(self@.txs =~= old(self)@.txs.push(tv));
            assert(self@.txs.drop_last() =~= old(self)@.txs);
            let nt = self@.txs;
            assert(forall|i: int| 0 <= i < nt.len() - 1 ==> #[trigger] nt[i] == old(self)@.txs[i]);
            assert(nt.last() == tv);
        }
        Ok(())
    }

    /// Adds a transaction dated today, the current date being supplied by the
    /// caller.
    pub fn add_new_transaction(&mut self, label: &str, amount: i64, today: Date) -> (r: Result<
        (),
        LedgerError,
    >)
        requires
            old(self)@.wf(),
            today.wf(),
            -AMOUNT_MAX <= amount <= AMOUNT_MAX,
        ensures
            match spec_add_tx(old(self)@, label@, amount, today) {
                Ok(av) => r is Ok && final(self)@ == av && final(self)@.wf(),
                Err(e) => r == Err::<(), LedgerError>(e) && final(self)@ == old(self)@,
            },
    {
        self.add_transaction(label, amount, today)
    }

    /// Removes the transaction with the given identity, lowering the balance
    /// by its amount.
    pub fn remove_transaction(&mut self, key: &TxKey) -> (r: Result<(), LedgerError>)
        requires
            old(self)@.wf(),
        ensures
            match spec_remove_tx(old(self)@, key@) {
                Ok(av) => r is Ok && final(self)@ == av && final(self)@.wf(),
                Err(e) => r == Err::<(), LedgerError>(e) && final(self)@ == old(self)@,
            },
            !has_key(old(self)@.txs, key@) ==> r == Err::<(), LedgerError>(LedgerError::NotFound)
                && final(self)@ == old(self)@,
    {
        match self.position_of(key.date, key.label.as_str(), key.amount) {
            None => Err(LedgerError::NotFound),
            Some(i) => {
                proof {
                    lemma_sum_bound(old(self)@.txs);
                    let n = old(self)@.txs.len() as int;
                    let m = AMOUNT_MAX as int;
                    assert(old(self).transactions.len() == old(self)@.txs.len());
                    assert(n * m <= usize::MAX as int * m && -(usize::MAX as int) * m <= -n * m)
                        by (nonlinear_arith)
                        requires
                            0 <= n <= usize::MAX as int,
                            m > 0,
                    ;
                }
                let removed = self.transactions.remove(i);
                self.balance = self.balance - removed.amount as i128;
                proof {
                    assert(self@.txs =~= old(self)@.txs.remove(i as int));
                    lemma_sum_remove(old(self)@.txs, i as int);
                    lemma_remove_keeps_wf(old(self)@.txs, i as int);
                }
                Ok(())
            },
        }
    }

    /// The transactions in ascending date order, entries of equal date
    /// keeping their stored order.
    #[verifier::loop_isolation(false)]
    pub fn sorted_by_date(&self) -> (r: Vec<Transaction>)
        ensures
            r@.map_values(|t: Transaction| t@) == spec_sort_by_date(self@.txs),
    {
        let mut out: Vec<Transaction> = Vec::new();
        let mut idx: usize = 0;
        proof {
            assert(self@.txs.subrange(0, 0) =~= Seq::<TxView>::empty());
            assert(out@.map_values(|t: Transaction| t@) =~= Seq::<TxView>::empty());
        }
        while idx < self.transactions.len()
            invariant
                0 <= idx <= self.transactions@.len(),
                out@.map_values(|t: Transaction| t@) == spec_sort_by_date(
                    self@.txs.subrange(0, idx as int),
                ),
            decreases self.transactions@.len() - idx,
        {
            let t = self.transactions[idx].duplicate();
            let ghost prev = out@.map_values(|x: Transaction| x@);
            let mut j: usize = out.len();
            while j > 0 && !out[j - 1].date.le(t.date)
                invariant
                    0 <= j <= out@.len(),
                    forall|k: int|
                        j <= k < out@.len() ==> !(#[trigger] prev[k]).date.spec_le(t@.date),
                decreases j,
            {
                proof {
                    assert(prev[j - 1] == out@[j - 1]@);
                }
                j = j - 1;
            }
            proof {
                if j > 0 {
                    assert(prev[j - 1] == out@[j - 1]@);
                }
                lemma_insert_by_date_at(prev, t@, j as int);
            }
            out.insert(j, t);
            proof {
                assert(out@.map_values(|x: Transaction| x@) =~= prev.subrange(0, j as int) + seq![
                    t@,
                ] + prev.subrange(j as int, prev.len() as int));
                assert(self@.txs.subrange(0, idx + 1).drop_last() =~= self@.txs.subrange(
                    0,
                    idx as int,
                ));
                assert(self@.txs.subrange(0, idx + 1).last() == self@.txs[idx as int]);
                assert(self@.txs[idx as int] == t@);
            }
            idx = idx + 1;
        }
        proof {
            assert(self@.txs.subrange(0, self@.txs.len() as int) =~= self@.txs);
        }
        out
    }

    /// The display form of the account, transactions sorted by ascending
    /// date.
    #[verifier::loop_isolation(false)]
    #[verifier::rlimit(100)]
    pub fn render(&self) -> (r: String)
        requires
            self@.wf(),
        ensures
            r@ == spec_render_account(self@),
    {
        let mut out = String::new();
        out.append("Name: ");
        out.append(self.name.as_str());
        out.append(" | Balance: $");
        proof {
            lemma_sum_bound(self@.txs);
            let n = self@.txs.len() as int;
            let m = AMOUNT_MAX as int;
            assert(self.transactions.len() == self@.txs.len());
            assert(n * m <= usize::MAX as int * m && -(usize::MAX as int) * m <= -n * m)
                by (nonlinear_arith)
                requires
                    0 <= n <= usize::MAX as int,
                    m > 0,
            ;
        }
        push_money2(&mut out, self.balance);
        out.append("\nTransactions:\n");
        let sorted = self.sorted_by_date();
        let ghost sv = spec_sort_by_date(self@.txs);
        let ghost rendered = sv.map_values(|t: TxView| spec_render_tx(t));
        proof {
            lemma_sort_by_date_props(self@.txs);
            assert forall|j: int| 0 <= j < sv.len() implies (#[trigger] sv[j]).wf() by {
                assert(self@.txs.contains(sv[j]));
                let x = choose|x: int| 0 <= x < self@.txs.len() && self@.txs[x] == sv[j];
            }
        }
        let ghost head = out@;
        let mut i: usize = 0;
        while i < sorted.len()
            invariant
                0 <= i <= sorted@.len(),
                i == 0 ==> out@ == head,
                i >= 1 ==> out@ == head + spec_join_nl(rendered.subrange(0, i as int)),
            decreases sorted@.len() - i,
        {
            if i > 0 {
                out.append("\n");
            }
            proof {
                assert(sorted@.map_values(|t: Transaction| t@)[i as int] == sv[i as int]);
                assert(sorted@[i as int]@ == sv[i as int]);
            }
            let line = sorted[i].render();
            out.append(line.as_str());
            proof {
                reveal_strlit("\n");
                assert(sorted@[i as int]@ == sv[i as int]);
                assert(rendered[i as int] == spec_render_tx(sv[i as int]));
                let pre = rendered.subrange(0, i as int);
                let post = rendered.subrange(0, i + 1);
                assert(post =~= pre.push(rendered[i as int]));
                if i == 0 {
                    assert(spec_join_nl(post) == rendered[0]);
                    assert(out@ =~= head + spec_join_nl(post));
                } else {
                    lemma_join_nl_push(pre, rendered[i as int]);
                    assert(out@ =~= head + spec_join_nl(post));
                }
            }
            i = i + 1;
        }
        proof {
            if sorted@.len() == 0 {
                assert(rendered.len() == 0);
                assert(spec_join_nl(rendered) == Seq::<char>::empty());
                assert(out@ =~= head + spec_join_nl(rendered));
            } else {
                assert(rendered.subrange(0, rendered.len() as int) =~= rendered);
            }
            assert(out@ =~= spec_render_account(self@));
        }
        out
    }

    /// Changes the amount of the transaction with the given identity. The
    /// entry is implicitly re-keyed: a lookup under the old identity will no
    /// longer find it, and the balance moves by the difference.
    pub fn edit_transaction_amount(&mut self, key: &TxKey, new_amount: i64) -> (r: Result<
        (),
        LedgerError,
    >)
        requires
            old(self)@.wf(),
            -AMOUNT_MAX <= new_amount <= AMOUNT_MAX,
        ensures
            match spec_edit_amount(old(self)@, key@, new_amount) {
                Ok(av) => r is Ok && final(self)@ == av && final(self)@.wf(),
                Err(e) => r == Err::<(), LedgerError>(e) && final(self)@ == old(self)@,
            },
    {
        let i = match self.position_of(key.date, key.label.as_str(), key.amount) {
            None => { return Err(LedgerError::NotFound) },
            Some(i) => i,
        };
        let old_amount = self.transactions[i].amount;
        if new_amount != old_amount {
            if self.position_of(key.date, key.label.as_str(), new_amount).is_some() {
                return Err(LedgerError::DuplicateKey);
            }
        }
        let ghost nt = TxView { label: key.label@, amount: new_amount, date: key.date };
        proof {
            lemma_sum_remove(old(self)@.txs, i as int);
            lemma_remove_keeps_wf(old(self)@.txs, i as int);
            let rem = old(self)@.txs.remove(i as int);
            lemma_sum_bound(rem);
            let n = old(self)@.txs.len() as int;
            let m = AMOUNT_MAX as int;
            assert(old(self).transactions.len() == old(self)@.txs.len());
            assert(n * m <= usize::MAX as int * m && -(usize::MAX as int) * m <= -n * m)
                by (nonlinear_arith)
                requires
                    0 <= n <= usize::MAX as int,
                    m > 0,
            ;
        }
        self.balance = self.balance - old_amount as i128 + new_amount as i128;
        let t = &mut self.transactions[i];
        t.amount = new_amount;
        proof {
            assert(final(self)@.txs =~= old(self)@.txs.update(i as int, nt));
            lemma_sum_update(old(self)@.txs, i as int, nt);
            lemma_update_keeps_distinct(old(self)@.txs, i as int, nt);
            let u = final(self)@.txs;
            assert(forall|a: int| 0 <= a < u.len() ==> (#[trigger] u[a]).wf()) by {
                assert(forall|a: int| 0 <= a < u.len() ==> u[a] == (if a == i as int {
                    nt
                } else {
                    old(self)@.txs[a]
                }));
            }
        }
        Ok(())
    }

    /// Moves the transaction with the given identity to another date,
    /// re-keying it; the balance is untouched.
    pub fn edit_transaction_date(&mut self, key: &TxKey, new_date: Date) -> (r: Result<
        (),
        LedgerError,
    >)
        requires
            old(self)@.wf(),
            new_date.wf(),
        ensures
            match spec_edit_date(old(self)@, key@, new_date) {
                Ok(av) => r is Ok && final(self)@ == av && final(self)@.wf(),
                Err(e) => r == Err::<(), LedgerError>(e) && final(self)@ == old(self)@,
            },
    {
        let i = match self.position_of(key.date, key.label.as_str(), key.amount) {
            None => { return Err(LedgerError::NotFound) },
            Some(i) => i,
        };
        if !(new_date == key.date) {
            if self.position_of(new_date, key.label.as_str(), key.amount).is_some() {
                return Err(LedgerError::DuplicateKey);
            }
        }
        let ghost nt = TxView { label: key.label@, amount: key.amount, date: new_date };
        let t = &mut self.transactions[i];
        t.date = new_date;
        proof {
            assert(final(self)@.txs =~= old(self)@.txs.update(i as int, nt));
            lemma_sum_update(old(self)@.txs, i as int, nt);
            lemma_update_keeps_distinct(old(self)@.txs, i as int, nt);
            let u = final(self)@.txs;
            assert(forall|a: int| 0 <= a < u.len() ==> (#[trigger] u[a]).wf()) by {
                assert(forall|a: int| 0 <= a < u.len() ==> u[a] == (if a == i as int {
                    nt
                } else {
                    old(self)@.txs[a]
                }));
            }
        }
        Ok(())
    }

    /// Renames the transaction with the given identity, re-keying it and
    /// rejecting a blank replacement label; the balance is untouched.
    pub fn edit_transaction_label(&mut self, key: &TxKey, new_label: &str) -> (r: Result<
        (),
        LedgerError,
    >)
        requires
            old(self)@.wf(),
        ensures
            match spec_edit_label(old(self)@, key@, new_label@) {
                Ok(av) => r is Ok && final(self)@ == av && final(self)@.wf(),
                Err(e) => r == Err::<(), LedgerError>(e) && final(self)@ == old(self)@,
            },
    {
        let i = match self.position_of(key.date, key.label.as_str(), key.amount) {
            None => { return Err(LedgerError::NotFound) },
            Some(i) => i,
        };
        let tl = trim(new_label);
        if tl.as_str().is_empty() {
            return Err(LedgerError::Validation);
        }
        if !crate::text::str_eq(new_label, key.label.as_str()) {
            if self.position_of(key.date, new_label, key.amount).is_some() {
                return Err(LedgerError::DuplicateKey);
            }
        }
        let ghost nt = TxView { label: new_label@, amount: key.amount, date: key.date };
        let t = &mut self.transactions[i];
        t.label = new_label.to_owned();
        proof {
            assert(final(self)@.txs =~= old(self)@.txs.update(i as int, nt));
            lemma_sum_update(old(self)@.txs, i as int, nt);
            lemma_update_keeps_distinct(old(self)@.txs, i as int, nt);
            let u = final(self)@.txs;
            assert(forall|a: int| 0 <= a < u.len() ==> (#[trigger] u[a]).wf()) by {
                assert(forall|a: int| 0 <= a < u.len() ==> u[a] == (if a == i as int {
                    nt
                } else {
                    old(self)@.txs[a]
                }));
            }
        }
        Ok(())
    }
}

/// Whether the transactions come in ascending date order.
pub open spec fn date_sorted(txs: Seq<TxView>) -> bool {
    forall|i: int, j: int|
        0 <= i < j < txs.len() ==> (#[trigger] txs[i]).date.spec_le((#[trigger] txs[j]).date)
}

/// Stable insertion into a date-sorted sequence: the new entry goes after
/// every entry dated no later than it.
pub open spec fn spec_insert_by_date(s: Seq<TxView>, t: TxView) -> Seq<TxView>
    decreases s.len(),
{
    if s.len() > 0 && !s.last().date.spec_le(t.date) {
        spec_insert_by_date(s.drop_last(), t).push(s.last())
    } else {
        s.push(t)
    }
}

/// Stable sort by ascending date.
pub open spec fn spec_sort_by_date(s: Seq<TxView>) -> Seq<TxView>
    decreases s.len(),
{
    if s.len() == 0 {
        Seq::empty()
    } else {
        spec_insert_by_date(spec_sort_by_date(s.drop_last()), s.last())
    }
}

/// Insertion keeps everything the callers care about: the entries as a
/// multiset (hence the identities, the sum, and the length).
pub proof fn lemma_insert_by_date_props(s: Seq<TxView>, t: TxView)
    ensures
        spec_insert_by_date(s, t).len() == s.len() + 1,
        spec_insert_by_date(s, t).to_multiset() == s.to_multiset().insert(t),
        forall|j: int|
            0 <= j < spec_insert_by_date(s, t).len() ==> (#[trigger] spec_insert_by_date(s, t)[j])
                == t || s.contains(spec_insert_by_date(s, t)[j]),
        forall|k: KeyView| has_key(spec_insert_by_date(s, t), k) <==> has_key(s, k) || t.key() == k,
        sum_amounts(spec_insert_by_date(s, t)) == sum_amounts(s) + t.amount,
    decreases s.len(),
{
    broadcast use vstd::seq_lib::group_to_multiset_ensures;

    let u = spec_insert_by_date(s, t);
    if s.len() > 0 && !s.last().date.spec_le(t.date) {
        let dl = s.drop_last();
        lemma_insert_by_date_props(dl, t);
        let v = spec_insert_by_date(dl, t);
        assert(u == v.push(s.last()));
        assert(u.to_multiset() =~= v.to_multiset().insert(s.last()));
        assert(dl.push(s.last()) =~= s);
        assert(s.to_multiset() =~= dl.to_multiset().insert(s.last()));
        assert(u.to_multiset() =~= s.to_multiset().insert(t));
        assert(forall|j: int| 0 <= j < u.len() - 1 ==> #[trigger] u[j] == v[j]);
        assert(forall|j: int| 0 <= j < dl.len() ==> dl.contains(#[trigger] dl[j]) && #[trigger] dl[j]
            == s[j]);
        assert(forall|j: int| 0 <= j < u.len() ==> #[trigger] u[j] == t || s.contains(u[j])) by {
            assert(forall|x: TxView| dl.contains(x) ==> s.contains(x));
            assert(u[u.len() - 1] == s.last() && s.contains(s.last()));
        }
        assert(forall|k: KeyView| has_key(u, k) <==> has_key(s, k) || t.key() == k) by {
            assert forall|k: KeyView| has_key(u, k) implies has_key(s, k) || t.key() == k by {
                let j = choose|j: int| 0 <= j < u.len() && u[j].key() == k;
                if j < u.len() - 1 {
                    assert(v[j].key() == k);
                    if has_key(dl, k) {
                        let x = choose|x: int| 0 <= x < dl.len() && dl[x].key() == k;
                        assert(s[x].key() == k);
                    }
                } else {
                    assert(s[s.len() - 1].key() == k);
                }
            }
            assert forall|k: KeyView| has_key(s, k) || t.key() == k implies has_key(u, k) by {
                if has_key(s, k) {
                    let j = choose|j: int| 0 <= j < s.len() && s[j].key() == k;
                    if j < s.len() - 1 {
                        assert(dl[j].key() == k);
                        assert(has_key(dl, k));
                        let x = choose|x: int| 0 <= x < v.len() && v[x].key() == k;
                        assert(u[x].key() == k);
                    } else {
                        assert(u[u.len() - 1].key() == k);
                    }
                } else {
                    assert(v.to_multiset() == dl.to_multiset().insert(t));
                    assert(v.to_multiset().count(t) > 0);
                    assert(v.contains(t));
                    let x = choose|x: int| 0 <= x < v.len() && v[x] == t;
                    assert(u[x].key() == t.key());
                }
            }
        }
        assert(sum_amounts(u) == sum_amounts(v) + s.last().amount) by {
            assert(u.drop_last() =~= v);
        }
        assert(sum_amounts(s) == sum_amounts(dl) + s.last().amount);
    } else {
        assert(u == s.push(t));
        assert(u.to_multiset() =~= s.to_multiset().insert(t));
        assert(u.drop_last() =~= s);
        assert(forall|j: int| 0 <= j < u.len() - 1 ==> #[trigger] u[j] == s[j] && s.contains(s[j]));
        assert(forall|k: KeyView| has_key(u, k) <==> has_key(s, k) || t.key() == k) by {
            assert(u[u.len() - 1] == t);
            assert forall|k: KeyView| has_key(u, k) implies has_key(s, k) || t.key() == k by {
                let j = choose|j: int| 0 <= j < u.len() && u[j].key() == k;
                if j < u.len() - 1 {
                    assert(s[j].key() == k);
                }
            }
            assert forall|k: KeyView| has_key(s, k) || t.key() == k implies has_key(u, k) by {
                if has_key(s, k) {
                    let j = choose|j: int| 0 <= j < s.len() && s[j].key() == k;
                    assert(u[j].key() == k);
                } else {
                    assert(u[u.len() - 1].key() == k);
                }
            }
        }
    }
}

/// The sum taken from the front: first amount plus the sum of the rest.
pub proof fn lemma_sum_first(txs: Seq<TxView>)
    requires
        txs.len() >= 1,
    ensures
        sum_amounts(txs) == txs[0].amount + sum_amounts(txs.drop_first()),
    decreases txs.len(),
{
    if txs.len() == 1 {
        assert(txs.drop_last() =~= Seq::<TxView>::empty());
        assert(txs.drop_first() =~= Seq::<TxView>::empty());
        assert(txs.last() == txs[0]);
    } else {
        let dl = txs.drop_last();
        lemma_sum_first(dl);
        assert(dl[0] == txs[0]);
        assert(dl.drop_first() =~= txs.drop_first().drop_last());
        assert(txs.drop_first().last() == txs.last());
    }
}

/// An appended entry is found by exactly its own identity and the old ones.
pub proof fn lemma_has_key_push(txs: Seq<TxView>, t: TxView, k: KeyView)
    ensures
        has_key(txs.push(t), k) <==> has_key(txs, k) || t.key() == k,
{
    let p = txs.push(t);
    if has_key(p, k) {
        let i = choose|i: int| 0 <= i < p.len() && p[i].key() == k;
        if i < txs.len() {
            assert(txs[i].key() == k);
        }
    }
    if has_key(txs, k) {
        let i = choose|i: int| 0 <= i < txs.len() && txs[i].key() == k;
        assert(p[i].key() == k);
    }
    if t.key() == k {
        assert(p[p.len() - 1].key() == k);
    }
}

/// Inserting an entry whose identity is fresh keeps identities pairwise
/// distinct.
pub proof fn lemma_insert_by_date_distinct(s: Seq<TxView>, t: TxView)
    requires
        forall|a: int, b: int|
            0 <= a < b < s.len() ==> (#[trigger] s[a]).key() != (#[trigger] s[b]).key(),
        !has_key(s, t.key()),
    ensures
        forall|a: int, b: int|
            0 <= a < b < spec_insert_by_date(s, t).len() ==> (#[trigger] spec_insert_by_date(
                s,
                t,
            )[a]).key() != (#[trigger] spec_insert_by_date(s, t)[b]).key(),
    decreases s.len(),
{
    let u = spec_insert_by_date(s, t);
    assert(forall|j: int| 0 <= j < s.len() ==> (#[trigger] s[j]).key() != t.key());
    if s.len() > 0 && !s.last().date.spec_le(t.date) {
        let dl = s.drop_last();
        assert(forall|j: int| 0 <= j < dl.len() ==> #[trigger] dl[j] == s[j]);
        assert(!has_key(dl, t.key())) by {
            if has_key(dl, t.key()) {
                let j = choose|j: int| 0 <= j < dl.len() && dl[j].key() == t.key();
                assert(s[j].key() == t.key());
            }
        }
        lemma_insert_by_date_distinct(dl, t);
        lemma_insert_by_date_props(dl, t);
        let v = spec_insert_by_date(dl, t);
        assert(u == v.push(s.last()));
        assert forall|a: int, b: int| 0 <= a < b < u.len() implies (#[trigger] u[a]).key() != (
        #[trigger] u[b]).key() by {
            if b < u.len() - 1 {
                assert(u[a] == v[a] && u[b] == v[b]);
            } else {
                assert(u[b] == s.last());
                assert(u[a] == v[a]);
                assert(!has_key(v, s.last().key())) by {
                    assert(forall|k: KeyView|
                        has_key(v, k) <==> has_key(dl, k) || (#[trigger] t.key()) == k);
                    assert(s.last().key() != t.key());
                    if has_key(dl, s.last().key()) {
                        let j = choose|j: int|
                            0 <= j < dl.len() && dl[j].key() == s.last().key();
                        assert(s[j].key() == s[s.len() - 1].key());
                    }
                }
                assert(forall|j: int| 0 <= j < v.len() ==> (#[trigger] v[j]).key() != s.last().key());
            }
        }
    } else {
        assert(u == s.push(t));
        assert forall|a: int, b: int| 0 <= a < b < u.len() implies (#[trigger] u[a]).key() != (
        #[trigger] u[b]).key() by {
            if b < u.len() - 1 {
                assert(u[a] == s[a] && u[b] == s[b]);
            } else {
                assert(u[b] == t && u[a] == s[a]);
            }
        }
    }
}

/// Sorting by date keeps identities pairwise distinct.
pub proof fn lemma_sort_by_date_distinct(s: Seq<TxView>)
    requires
        forall|a: int, b: int|
            0 <= a < b < s.len() ==> (#[trigger] s[a]).key() != (#[trigger] s[b]).key(),
    ensures
        forall|a: int, b: int|
            0 <= a < b < spec_sort_by_date(s).len() ==> (#[trigger] spec_sort_by_date(s)[a]).key()
                != (#[trigger] spec_sort_by_date(s)[b]).key(),
    decreases s.len(),
{
    if s.len() > 0 {
        let dl = s.drop_last();
        assert(forall|j: int| 0 <= j < dl.len() ==> #[trigger] dl[j] == s[j]);
        lemma_sort_by_date_distinct(dl);
        lemma_sort_by_date_props(dl);
        let v = spec_sort_by_date(dl);
        assert(!has_key(v, s.last().key())) by {
            if has_key(v, s.last().key()) {
                assert(has_key(dl, s.last().key()));
                let j = choose|j: int| 0 <= j < dl.len() && dl[j].key() == s.last().key();
                assert(s[j].key() == s[s.len() - 1].key());
            }
        }
        lemma_insert_by_date_distinct(v, s.last());
    }
}

/// Dates order transitively.
pub proof fn lemma_date_le_trans(a: Date, b: Date, c: Date)
    requires
        a.spec_le(b),
        b.spec_le(c),
    ensures
        a.spec_le(c),
{
}

/// Insertion into a date-sorted sequence keeps it date-sorted.
pub proof fn lemma_insert_by_date_sorted(s: Seq<TxView>, t: TxView)
    requires
        date_sorted(s),
    ensures
        date_sorted(spec_insert_by_date(s, t)),
    decreases s.len(),
{
    let u = spec_insert_by_date(s, t);
    if s.len() > 0 && !s.last().date.spec_le(t.date) {
        let dl = s.drop_last();
        assert(forall|j: int| 0 <= j < dl.len() ==> #[trigger] dl[j] == s[j]);
        lemma_insert_by_date_sorted(dl, t);
        lemma_insert_by_date_props(dl, t);
        let v = spec_insert_by_date(dl, t);
        assert(t.date.spec_le(s.last().date)) by {
            lemma_date_le_total(s.last().date, t.date);
        }
        assert forall|i: int, j: int| 0 <= i < j < u.len() implies (#[trigger] u[i]).date.spec_le(
            (#[trigger] u[j]).date,
        ) by {
            if j < u.len() - 1 {
                assert(u[i] == v[i] && u[j] == v[j]);
            } else {
                assert(u[j] == s.last());
                assert(u[i] == v[i]);
                if v[i] == t {
                } else {
                    assert(dl.contains(v[i]));
                    let x = choose|x: int| 0 <= x < dl.len() && dl[x] == v[i];
                    assert(s[x].date.spec_le(s.last().date));
                }
            }
        }
    } else {
        assert forall|i: int, j: int| 0 <= i < j < u.len() implies (#[trigger] u[i]).date.spec_le(
            (#[trigger] u[j]).date,
        ) by {
            if j < u.len() - 1 {
                assert(u[i] == s[i] && u[j] == s[j]);
            } else if s.len() > 0 {
                assert(u[j] == t && u[i] == s[i]);
                assert(s[i].date.spec_le(s.last().date));
                lemma_date_le_trans(s[i].date, s.last().date, t.date);
            }
        }
    }
}

/// Sorting by date keeps the entries as a multiset, the identities, the sum
/// and the length, and yields ascending dates.
pub proof fn lemma_sort_by_date_props(s: Seq<TxView>)
    ensures
        spec_sort_by_date(s).len() == s.len(),
        spec_sort_by_date(s).to_multiset() == s.to_multiset(),
        date_sorted(spec_sort_by_date(s)),
        forall|j: int|
            0 <= j < spec_sort_by_date(s).len() ==> s.contains(
                #[trigger] spec_sort_by_date(s)[j],
            ),
        forall|k: KeyView| has_key(spec_sort_by_date(s), k) <==> has_key(s, k),
        sum_amounts(spec_sort_by_date(s)) == sum_amounts(s),
    decreases s.len(),
{
    broadcast use vstd::seq_lib::group_to_multiset_ensures;

    let u = spec_sort_by_date(s);
    if s.len() > 0 {
        let dl = s.drop_last();
        lemma_sort_by_date_props(dl);
        let v = spec_sort_by_date(dl);
        lemma_insert_by_date_props(v, s.last());
        lemma_insert_by_date_sorted(v, s.last());
        assert(dl.push(s.last()) =~= s);
        assert(s.to_multiset() =~= dl.to_multiset().insert(s.last()));
        assert(u.to_multiset() =~= v.to_multiset().insert(s.last()));
        assert(forall|j: int| 0 <= j < dl.len() ==> #[trigger] dl[j] == s[j]);
        assert(forall|j: int| 0 <= j < u.len() ==> #[trigger] u[j] == s.last() || s.contains(u[j]))
            by {
            assert(forall|x: TxView| dl.contains(x) ==> s.contains(x));
            assert(forall|j: int| 0 <= j < u.len() ==> #[trigger] u[j] == s.last() || v.contains(
                u[j],
            ));
            assert(forall|j: int| 0 <= j < v.len() ==> dl.contains(#[trigger] v[j]));
        }
        assert(s.contains(s.last()));
        assert(forall|k: KeyView| has_key(u, k) <==> has_key(s, k)) by {
            assert(forall|k: KeyView|
                has_key(u, k) <==> has_key(v, k) || (#[trigger] s.last().key()) == k);
            assert forall|k: KeyView| has_key(dl, k) || s.last().key() == k implies has_key(s, k) by {
                if has_key(dl, k) {
                    let j = choose|j: int| 0 <= j < dl.len() && dl[j].key() == k;
                    assert(s[j].key() == k);
                } else {
                    assert(s[s.len() - 1].key() == k);
                }
            }
            assert forall|k: KeyView| has_key(s, k) implies has_key(dl, k) || s.last().key() == k by {
                let j = choose|j: int| 0 <= j < s.len() && s[j].key() == k;
                if j < s.len() - 1 {
                    assert(dl[j].key() == k);
                }
            }
        }
        assert(sum_amounts(s) == sum_amounts(dl) + s.last().amount);
    }
}

/// Lines joined by a newline between each pair.
pub open spec fn spec_join_nl(items: Seq<Seq<char>>) -> Seq<char>
    decreases items.len(),
{
    if items.len() == 0 {
        Seq::empty()
    } else if items.len() == 1 {
        items[0]
    } else {
        items[0] + seq!['\n'] + spec_join_nl(items.drop_first())
    }
}

/// Joining one more line appends a newline and the line.
proof fn lemma_join_nl_push(items: Seq<Seq<char>>, x: Seq<char>)
    requires
        items.len() >= 1,
    ensures
        spec_join_nl(items.push(x)) == spec_join_nl(items) + seq!['\n'] + x,
    decreases items.len(),
{
    let p = items.push(x);
    if items.len() == 1 {
        assert(p.drop_first() =~= seq![x]);
        assert(spec_join_nl(p.drop_first()) == x);
        assert(p[0] == items[0]);
        assert(spec_join_nl(p) == items[0] + seq!['\n'] + x);
    } else {
        assert(p.drop_first() =~= items.drop_first().push(x));
        lemma_join_nl_push(items.drop_first(), x);
        assert(p[0] == items[0]);
        assert(items[0] + seq!['\n'] + (spec_join_nl(items.drop_first()) + seq!['\n'] + x) =~= (
        items[0] + seq!['\n'] + spec_join_nl(items.drop_first())) + seq!['\n'] + x);
    }
}

/// The display form of an account: its name, its balance to two decimal
/// places, and its transactions sorted by ascending date, one per line.
pub open spec fn spec_render_account(a: AccountView) -> Seq<char> {
    "Name: "@ + a.name + " | Balance: $"@ + spec_money2(a.balance) + "\nTransactions:\n"@
        + spec_join_nl(spec_sort_by_date(a.txs).map_values(|t: TxView| spec_render_tx(t)))
}

/// The balance of a valid account always equals the sum of its transactions'
/// amounts; every operation of this module preserves validity, so the
/// equality holds after each one.
pub proof fn lemma_balance_invariant(a: AccountView)
    requires
        a.wf(),
    ensures
        a.balance == sum_amounts(a.txs),
{
}

/// An amount edit re-keys the entry: once an entry's amount has changed, a
/// lookup under its old identity finds nothing, and the balance has moved by
/// the difference of the amounts.
pub proof fn lemma_edit_amount_rekeys(a: AccountView, k: KeyView, new_amount: i64)
    requires
        a.wf(),
        spec_edit_amount(a, k, new_amount) is Ok,
        new_amount != k.2,
    ensures
        !has_key(spec_edit_amount(a, k, new_amount)->Ok_0.txs, k),
        spec_edit_amount(a, k, new_amount)->Ok_0.balance == a.balance - k.2 + new_amount,
{
    lemma_idx_of_key(a.txs, k);
    let i = idx_of_key(a.txs, k);
    let t = a.txs[i];
    assert(t.key() == k);
    assert(t.amount == k.2);
    let nt = TxView { label: t.label, amount: new_amount, date: t.date };
    let u = a.txs.update(i, nt);
    assert(nt.key() != k);
    if has_key(u, k) {
        let j = choose|j: int| 0 <= j < u.len() && u[j].key() == k;
        if j == i {
            assert(u[j] == nt);
        } else {
            assert(u[j] == a.txs[j]);
            assert(a.txs[j].key() == a.txs[i].key());
        }
    }
}

/// Inserting at the first position from the end whose predecessor is dated no
/// later is what `spec_insert_by_date` does.
proof fn lemma_insert_by_date_at(s: Seq<TxView>, t: TxView, j: int)
    requires
        0 <= j <= s.len(),
        j > 0 ==> s[j - 1].date.spec_le(t.date),
        forall|k: int| j <= k < s.len() ==> !(#[trigger] s[k]).date.spec_le(t.date),
    ensures
        spec_insert_by_date(s, t) == s.subrange(0, j) + seq![t] + s.subrange(j, s.len() as int),
    decreases s.len(),
{
    if j == s.len() {
        assert(spec_insert_by_date(s, t) == s.push(t));
        assert(s.push(t) =~= s.subrange(0, j) + seq![t] + s.subrange(j, s.len() as int));
    } else {
        let dl = s.drop_last();
        assert(forall|k: int| 0 <= k < dl.len() ==> #[trigger] dl[k] == s[k]);
        lemma_insert_by_date_at(dl, t, j);
        assert(spec_insert_by_date(s, t) == spec_insert_by_date(dl, t).push(s.last()));
        assert(spec_insert_by_date(dl, t).push(s.last()) =~= s.subrange(0, j) + seq![t]
            + s.subrange(j, s.len() as int)) by {
            assert(dl.subrange(0, j) =~= s.subrange(0, j));
            assert(dl.subrange(j, dl.len() as int) =~= s.subrange(j, s.len() - 1));
        }
    }
}

/// Replacing an entry by one whose identity is its own or wholly new keeps
/// identities pairwise distinct.
proof fn lemma_update_keeps_distinct(txs: Seq<TxView>, i: int, nt: TxView)
    requires
        0 <= i < txs.len(),
        forall|a: int, b: int|
            0 <= a < b < txs.len() ==> (#[trigger] txs[a]).key() != (#[trigger] txs[b]).key(),
        nt.key() == txs[i].key() || !has_key(txs, nt.key()),
    ensures
        forall|a: int, b: int|
            0 <= a < b < txs.update(i, nt).len() ==> (#[trigger] txs.update(i, nt)[a]).key() != (
            #[trigger] txs.update(i, nt)[b]).key(),
{
    let u = txs.update(i, nt);
    assert forall|a: int, b: int| 0 <= a < b < u.len() implies (#[trigger] u[a]).key() != (
    #[trigger] u[b]).key() by {
        if a != i && b != i {
            assert(u[a] == txs[a] && u[b] == txs[b]);
        } else if nt.key() == txs[i].key() {
            assert(u[a] == (if a == i {
                nt
            } else {
                txs[a]
            }));
            assert(u[b] == (if b == i {
                nt
            } else {
                txs[b]
            }));
        } else {
            assert(forall|j: int| 0 <= j < txs.len() ==> (#[trigger] txs[j]).key() != nt.key());
            assert(u[a] == (if a == i {
                nt
            } else {
                txs[a]
            }));
            assert(u[b] == (if b == i {
                nt
            } else {
                txs[b]
            }));
        }
    }
}

/// A key found at a position past a prefix free of it is found first there.
proof fn lemma_idx_of_key_prefix(txs: Seq<TxView>, k: KeyView, i: int)
    requires
        0 <= i < txs.len(),
        txs[i].key() == k,
        forall|j: int| 0 <= j < i ==> (#[trigger] txs[j]).key() != k,
    ensures
        idx_of_key(txs, k) == i,
    decreases txs.len(),
{
    if i > 0 {
        assert(forall|j: int| 0 <= j < txs.drop_first().len() ==> #[trigger] txs.drop_first()[j]
            == txs[j + 1]);
        lemma_idx_of_key_prefix(txs.drop_first(), k, i - 1);
    }
}

/// Removing an entry keeps validity, distinct identities, and the other
/// entries.
proof fn lemma_remove_keeps_wf(txs: Seq<TxView>, i: int)
    requires
        0 <= i < txs.len(),
        forall|a: int| 0 <= a < txs.len() ==> (#[trigger] txs[a]).wf(),
        forall|a: int, b: int|
            0 <= a < b < txs.len() ==> (#[trigger] txs[a]).key() != (#[trigger] txs[b]).key(),
    ensures
        forall|a: int| 0 <= a < txs.remove(i).len() ==> (#[trigger] txs.remove(i)[a]).wf(),
        forall|a: int, b: int|
            0 <= a < b < txs.remove(i).len() ==> (#[trigger] txs.remove(i)[a]).key() != (
            #[trigger] txs.remove(i)[b]).key(),
{
    let r = txs.remove(i);
    assert(forall|a: int| 0 <= a < r.len() ==> #[trigger] r[a] == (if a < i {
        txs[a]
    } else {
        txs[a + 1]
    }));
}

} // verus!
