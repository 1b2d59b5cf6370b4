//! The account collection of one file: accounts keyed by the lowercase form
//! of their names, mutated through checked operations.

use crate::account::{
    spec_add_tx, spec_edit_amount, spec_edit_date, spec_edit_label, spec_remove_tx, Account,
    AccountView, TxKey,
};
use crate::dates::Date;
use crate::errors::LedgerError;
use crate::money::AMOUNT_MAX;
use crate::account::spec_render_account;
use crate::text::{spec_str_le, str_eq};
use vstd::prelude::*;

verus! {

/// What `str::to_lowercase` returns for a given string: a function of the
/// characters alone.
pub uninterp spec fn lower_of(s: Seq<char>) -> Seq<char>;

/// Relies on `str::to_lowercase`: its result depends on the characters of its
/// argument alone, so equal strings always map to equal keys.
#[verifier::external_body]
pub(crate) fn lowercase(s: &str) -> (r: String)
    ensures
        r@ == lower_of(s@),
{
    s.to_lowercase()
}

/// One slot of the collection: the lookup key and the account it names.
pub ghost struct EntryView {
    pub key: Seq<char>,
    pub account: AccountView,
}

pub struct LedgerEntry {
    pub key: String,
    pub account: Account,
}

impl View for LedgerEntry {
    type V = EntryView;

    open spec fn view(&self) -> EntryView {
        EntryView { key: self.key@, account: self.account@ }
    }
}

/// The full collection of accounts for one file.
pub struct Ledger {
    pub entries: Vec<LedgerEntry>,
}

impl View for Ledger {
    type V = Seq<EntryView>;

    open spec fn view(&self) -> Seq<EntryView> {
        self.entries@.map_values(|e: LedgerEntry| e@)
    }
}

/// Whether some slot carries the given key.
pub open spec fn has_entry(l: Seq<EntryView>, k: Seq<char>) -> bool {
    exists|i: int| 0 <= i < l.len() && l[i].key == k
}

/// The first slot carrying the given key, `-1` when there is none.
pub open spec fn entry_idx(l: Seq<EntryView>, k: Seq<char>) -> int
    decreases l.len(),
{
    if l.len() == 0 {
        -1
    } else if l[0].key == k {
        0
    } else {
        let r = entry_idx(l.drop_first(), k);
        if r == -1 {
            -1
        } else {
            r + 1
        }
    }
}

/// A valid collection: every slot holds a valid account keyed by the
/// lowercase form of its name, and keys are pairwise distinct.
pub open spec fn ledger_wf(l: Seq<EntryView>) -> bool {
    &&& forall|i: int|
        0 <= i < l.len() ==> (#[trigger] l[i]).account.wf() && l[i].key == lower_of(
            l[i].account.name,
        )
    &&& forall|i: int, j: int| 0 <= i < j < l.len() ==> (#[trigger] l[i]).key != (#[trigger] l[j]).key
}

/// Registering an account under a key: an existing slot with that key is
/// replaced, otherwise a new slot is appended.
pub open spec fn spec_register(l: Seq<EntryView>, e: EntryView) -> Seq<EntryView> {
    if has_entry(l, e.key) {
        l.update(entry_idx(l, e.key), e)
    } else {
        l.push(e)
    }
}

/// A key found at a slot past a prefix free of it is found first there.
proof fn lemma_entry_idx_prefix(l: Seq<EntryView>, k: Seq<char>, i: int)
    requires
        0 <= i < l.len(),
        l[i].key == k,
        forall|j: int| 0 <= j < i ==> (#[trigger] l[j]).key != k,
    ensures
        entry_idx(l, k) == i,
    decreases l.len(),
{
    if i > 0 {
        assert(forall|j: int| 0 <= j < l.drop_first().len() ==> #[trigger] l.drop_first()[j] == l[j
            + 1]);
        lemma_entry_idx_prefix(l.drop_first(), k, i - 1);
    }
}

impl Ledger {
    /// An empty collection.
    pub fn new() -> (r: Ledger)
        ensures
            r@ == Seq::<EntryView>::empty(),
            ledger_wf(r@),
    {
        let r = Ledger { entries: Vec::new() };
        proof {
            assert(r@ =~= Seq::<EntryView>::empty());
        }
        r
    }

    /// How many accounts the collection holds.
    pub fn len(&self) -> (r: usize)
        ensures
            r == self@.len(),
    {
        self.entries.len()
    }

    /// Whether the collection holds no account.
    pub fn is_empty(&self) -> (r: bool)
        ensures
            r == (self@.len() == 0),
    {
        self.entries.len() == 0
    }

    /// The slot carrying the given key, if any.
    #[verifier::loop_isolation(false)]
    pub fn position_of_key(&self, key: &str) -> (r: Option<usize>)
        ensures
            match r {
                Some(i) => i < self@.len() && self@[i as int].key == key@ && i == entry_idx(
                    self@,
                    key@,
                ),
                None => !has_entry(self@, key@),
            },
    {
        let n = self.entries.len();
        let mut i: usize = 0;
        while i < n
            invariant
                0 <= i <= n,
                forall|j: int| 0 <= j < i ==> (#[trigger] self@[j]).key != key@,
            decreases n - i,
        {
            proof {
                assert(self@[i as int] == self.entries@[i as int]@);
            }
            if str_eq(self.entries[i].key.as_str(), key) {
                proof {
                    lemma_entry_idx_prefix(self@, key@, i as int);
                }
                return Some(i);
            }
            i = i + 1;
        }
        None
    }

    /// Whether an account is registered under the given key.
    pub fn contains_account(&self, key: &str) -> (r: bool)
        ensures
            r == has_entry(self@, key@),
    {
        self.position_of_key(key).is_some()
    }

    /// The account registered under the given key, if any.
    pub fn get(&self, key: &str) -> (r: Option<&Account>)
        ensures
            match r {
                Some(a) => has_entry(self@, key@) && a@ == self@[entry_idx(self@, key@)].account,
                None => !has_entry(self@, key@),
            },
    {
        match self.position_of_key(key) {
            Some(i) => Some(&self.entries[i].account),
            None => None,
        }
    }

    /// The account in the given slot.
    pub fn account_at(&self, i: usize) -> (r: &Account)
        requires
            i < self@.len(),
        ensures
            r@ == self@[i as int].account,
    {
        &self.entries[i].account
    }

    /// Registers an account under the lowercase form of its name, replacing
    /// any account already registered under that key.
    pub fn register(&mut self, account: Account) -> (r: ())
        requires
            ledger_wf(old(self)@),
            account@.wf(),
        ensures
            final(self)@ == spec_register(
                old(self)@,
                EntryView { key: lower_of(account@.name), account: account@ },
            ),
            ledger_wf(final(self)@),
    {
        let key = lowercase(account.name());
        let ghost ev = EntryView { key: lower_of(account@.name), account: account@ };
        match self.position_of_key(key.as_str()) {
            Some(i) => {
                let slot = &mut self.entries[i];
                slot.key = key;
                slot.account = account;
                proof {
                    assert(final(self)@ =~= old(self)@.update(i as int, ev));
                    let u = final(self)@;
                    assert(forall|a: int| 0 <= a < u.len() ==> #[trigger] u[a] == (if a == i as int {
                        ev
                    } else {
                        old(self)@[a]
                    }));
                    assert(old(self)@[i as int].key == ev.key);
                }
            },
            None => {
                self.entries.push(LedgerEntry { key, account });
                proof {
                    assert(final(self)@ =~= old(self)@.push(ev));
                    let u = final(self)@;
                    assert(forall|a: int| 0 <= a < u.len() - 1 ==> #[trigger] u[a] == old(self)@[a]);
                    assert(u[u.len() - 1] == ev);
                }
            },
        }
    }

    /// Removes the account registered under the given key; says whether one
    /// was there.
    pub fn remove_account(&mut self, key: &str) -> (r: bool)
        requires
            ledger_wf(old(self)@),
        ensures
            r == has_entry(old(self)@, key@),
            r ==> final(self)@ == old(self)@.remove(entry_idx(old(self)@, key@)),
            !r ==> final(self)@ == old(self)@,
            ledger_wf(final(self)@),
    {
        match self.position_of_key(key) {
            Some(i) => {
                let _ = self.entries.remove(i);
                proof {
                    assert(final(self)@ =~= old(self)@.remove(i as int));
                    let u = final(self)@;
                    assert(forall|a: int| 0 <= a < u.len() ==> #[trigger] u[a] == (if a < i as int {
                        old(self)@[a]
                    } else {
                        old(self)@[a + 1]
                    }));
                }
                true
            },
            None => false,
        }
    }

    /// Adds a transaction to the account registered under the given key.
    pub fn add_transaction(&mut self, key: &str, label: &str, amount: i64, date: Date) -> (r:
        Result<(), LedgerError>)
        requires
            ledger_wf(old(self)@),
            date.wf(),
            -AMOUNT_MAX <= amount <= AMOUNT_MAX,
        ensures
            ledger_wf(final(self)@),
            !has_entry(old(self)@, key@) ==> r == Err::<(), LedgerError>(LedgerError::NotFound)
                && final(self)@ == old(self)@,
            has_entry(old(self)@, key@) ==> {
                let i = entry_idx(old(self)@, key@);
                match spec_add_tx(old(self)@[i].account, label@, amount, date) {
                    Ok(av) => r is Ok && final(self)@ == old(self)@.update(
                        i,
                        EntryView { key: old(self)@[i].key, account: av },
                    ),
                    Err(e) => r == Err::<(), LedgerError>(e) && final(self)@ == old(self)@,
                }
            },
    {
        match self.position_of_key(key) {
            None => Err(LedgerError::NotFound),
            Some(i) => {
                let slot = &mut self.entries[i];
                let r = slot.account.add_transaction(label, amount, date);
                proof {
                    lemma_slot_update(old(self)@, self@, self.entries@, old(self).entries@, i as int);
                }
                r
            },
        }
    }

    /// Removes a transaction from the account registered under the given key.
    pub fn remove_transaction(&mut self, key: &str, tx: &TxKey) -> (r: Result<(), LedgerError>)
        requires
            ledger_wf(old(self)@),
        ensures
            ledger_wf(final(self)@),
            !has_entry(old(self)@, key@) ==> r == Err::<(), LedgerError>(LedgerError::NotFound)
                && final(self)@ == old(self)@,
            has_entry(old(self)@, key@) ==> {
                let i = entry_idx(old(self)@, key@);
                match spec_remove_tx(old(self)@[i].account, tx@) {
                    Ok(av) => r is Ok && final(self)@ == old(self)@.update(
                        i,
                        EntryView { key: old(self)@[i].key, account: av },
                    ),
                    Err(e) => r == Err::<(), LedgerError>(e) && final(self)@ == old(self)@,
                }
            },
    {
        match self.position_of_key(key) {
            None => Err(LedgerError::NotFound),
            Some(i) => {
                let slot = &mut self.entries[i];
                let r = slot.account.remove_transaction(tx);
                proof {
                    lemma_slot_update(old(self)@, self@, self.entries@, old(self).entries@, i as int);
                }
                r
            },
        }
    }

    /// Changes the amount of a transaction of the account registered under
    /// the given key.
    pub fn edit_transaction_amount(&mut self, key: &str, tx: &TxKey, new_amount: i64) -> (r: Result<
        (),
        LedgerError,
    >)
        requires
            ledger_wf(old(self)@),
            -AMOUNT_MAX <= new_amount <= AMOUNT_MAX,
        ensures
            ledger_wf(final(self)@),
            !has_entry(old(self)@, key@) ==> r == Err::<(), LedgerError>(LedgerError::NotFound)
                && final(self)@ == old(self)@,
            has_entry(old(self)@, key@) ==> {
                let i = entry_idx(old(self)@, key@);
                match spec_edit_amount(old(self)@[i].account, tx@, new_amount) {
                    Ok(av) => r is Ok && final(self)@ == old(self)@.update(
                        i,
                        EntryView { key: old(self)@[i].key, account: av },
                    ),
                    Err(e) => r == Err::<(), LedgerError>(e) && final(self)@ == old(self)@,
                }
            },
    {
        match self.position_of_key(key) {
            None => Err(LedgerError::NotFound),
            Some(i) => {
                let slot = &mut self.entries[i];
                let r = slot.account.edit_transaction_amount(tx, new_amount);
                proof {
                    lemma_slot_update(old(self)@, self@, self.entries@, old(self).entries@, i as int);
                }
                r
            },
        }
    }

    /// Moves a transaction of the account registered under the given key to
    /// another date.
    pub fn edit_transaction_date(&mut self, key: &str, tx: &TxKey, new_date: Date) -> (r: Result<
        (),
        LedgerError,
    >)
        requires
            ledger_wf(old(self)@),
            new_date.wf(),
        ensures
            ledger_wf(final(self)@),
            !has_entry(old(self)@, key@) ==> r == Err::<(), LedgerError>(LedgerError::NotFound)
                && final(self)@ == old(self)@,
            has_entry(old(self)@, key@) ==> {
                let i = entry_idx(old(self)@, key@);
                match spec_edit_date(old(self)@[i].account, tx@, new_date) {
                    Ok(av) => r is Ok && final(self)@ == old(self)@.update(
                        i,
                        EntryView { key: old(self)@[i].key, account: av },
                    ),
                    Err(e) => r == Err::<(), LedgerError>(e) && final(self)@ == old(self)@,
                }
            },
    {
        match self.position_of_key(key) {
            None => Err(LedgerError::NotFound),
            Some(i) => {
                let slot = &mut self.entries[i];
                let r = slot.account.edit_transaction_date(tx, new_date);
                proof {
                    lemma_slot_update(old(self)@, self@, self.entries@, old(self).entries@, i as int);
                }
                r
            },
        }
    }

    /// Renames a transaction of the account registered under the given key.
    pub fn edit_transaction_label(&mut self, key: &str, tx: &TxKey, new_label: &str) -> (r: Result<
        (),
        LedgerError,
    >)
        requires
            ledger_wf(old(self)@),
        ensures
            ledger_wf(final(self)@),
            !has_entry(old(self)@, key@) ==> r == Err::<(), LedgerError>(LedgerError::NotFound)
                && final(self)@ == old(self)@,
            has_entry(old(self)@, key@) ==> {
                let i = entry_idx(old(self)@, key@);
                match spec_edit_label(old(self)@[i].account, tx@, new_label@) {
                    Ok(av) => r is Ok && final(self)@ == old(self)@.update(
                        i,
                        EntryView { key: old(self)@[i].key, account: av },
                    ),
                    Err(e) => r == Err::<(), LedgerError>(e) && final(self)@ == old(self)@,
                }
            },
    {
        match self.position_of_key(key) {
            None => Err(LedgerError::NotFound),
            Some(i) => {
                let slot = &mut self.entries[i];
                let r = slot.account.edit_transaction_label(tx, new_label);
                proof {
                    lemma_slot_update(old(self)@, self@, self.entries@, old(self).entries@, i as int);
                }
                r
            },
        }
    }
}

/// Stable insertion into a name-sorted run of slots: the new slot goes after
/// every slot whose account name orders no later.
pub open spec fn spec_insert_by_name(s: Seq<EntryView>, e: EntryView) -> Seq<EntryView>
    decreases s.len(),
{
    if s.len() > 0 && !spec_str_le(s.last().account.name, e.account.name) {
        spec_insert_by_name(s.drop_last(), e).push(s.last())
    } else {
        s.push(e)
    }
}

/// Stable sort of the slots by account name.
pub open spec fn spec_sort_by_name(s: Seq<EntryView>) -> Seq<EntryView>
    decreases s.len(),
{
    if s.len() == 0 {
        Seq::empty()
    } else {
        spec_insert_by_name(spec_sort_by_name(s.drop_last()), s.last())
    }
}

/// Every slot of an insertion is the inserted one or one of the old ones.
proof fn lemma_insert_by_name_contains(s: Seq<EntryView>, e: EntryView)
    ensures
        spec_insert_by_name(s, e).len() == s.len() + 1,
        forall|j: int|
            0 <= j < spec_insert_by_name(s, e).len() ==> (#[trigger] spec_insert_by_name(s, e)[j])
                == e || s.contains(spec_insert_by_name(s, e)[j]),
    decreases s.len(),
{
    let u = spec_insert_by_name(s, e);
    if s.len() > 0 && !spec_str_le(s.last().account.name, e.account.name) {
        let dl = s.drop_last();
        lemma_insert_by_name_contains(dl, e);
        let v = spec_insert_by_name(dl, e);
        assert(forall|j: int| 0 <= j < dl.len() ==> #[trigger] dl[j] == s[j]);
        assert(forall|x: EntryView| dl.contains(x) ==> s.contains(x));
        assert(forall|j: int| 0 <= j < u.len() - 1 ==> #[trigger] u[j] == v[j]);
        assert(u[u.len() - 1] == s.last() && s.contains(s.last()));
    } else {
        assert(u == s.push(e));
        assert(forall|j: int| 0 <= j < u.len() - 1 ==> #[trigger] u[j] == s[j] && s.contains(s[j]));
        assert(u[u.len() - 1] == e);
    }
}

/// Every slot of the sorted run comes from the unsorted run.
proof fn lemma_sort_by_name_contains(s: Seq<EntryView>)
    ensures
        spec_sort_by_name(s).len() == s.len(),
        forall|j: int|
            0 <= j < spec_sort_by_name(s).len() ==> s.contains(#[trigger] spec_sort_by_name(s)[j]),
    decreases s.len(),
{
    let u = spec_sort_by_name(s);
    if s.len() > 0 {
        let dl = s.drop_last();
        lemma_sort_by_name_contains(dl);
        let v = spec_sort_by_name(dl);
        lemma_insert_by_name_contains(v, s.last());
        assert(forall|j: int| 0 <= j < dl.len() ==> #[trigger] dl[j] == s[j]);
        assert(forall|x: EntryView| dl.contains(x) ==> s.contains(x));
        assert(s.contains(s.last()));
        assert(forall|j: int| 0 <= j < v.len() ==> dl.contains(#[trigger] v[j]));
    }
}

/// Inserting at the first position from the end whose predecessor's name
/// orders no later is what `spec_insert_by_name` does.
proof fn lemma_insert_by_name_at(s: Seq<EntryView>, e: EntryView, j: int)
    requires
        0 <= j <= s.len(),
        j > 0 ==> spec_str_le(s[j - 1].account.name, e.account.name),
        forall|k: int|
            j <= k < s.len() ==> !spec_str_le((#[trigger] s[k]).account.name, e.account.name),
    ensures
        spec_insert_by_name(s, e) == s.subrange(0, j) + seq![e] + s.subrange(j, s.len() as int),
    decreases s.len(),
{
    if j == s.len() {
        assert(spec_insert_by_name(s, e) == s.push(e));
        assert(s.push(e) =~= s.subrange(0, j) + seq![e] + s.subrange(j, s.len() as int));
    } else {
        let dl = s.drop_last();
        assert(forall|k: int| 0 <= k < dl.len() ==> #[trigger] dl[k] == s[k]);
        lemma_insert_by_name_at(dl, e, j);
        assert(spec_insert_by_name(s, e) == spec_insert_by_name(dl, e).push(s.last()));
        assert(spec_insert_by_name(dl, e).push(s.last()) =~= s.subrange(0, j) + seq![e]
            + s.subrange(j, s.len() as int)) by {
            assert(dl.subrange(0, j) =~= s.subrange(0, j));
            assert(dl.subrange(j, dl.len() as int) =~= s.subrange(j, s.len() - 1));
        }
    }
}

/// The display form of a run of slots: each account's display, one per line,
/// indented and followed by a blank line.
pub open spec fn spec_render_entries(l: Seq<EntryView>) -> Seq<char>
    decreases l.len(),
{
    if l.len() == 0 {
        Seq::empty()
    } else {
        seq!['\t'] + spec_render_account(l[0].account) + seq!['\n', '\n'] + spec_render_entries(
            l.drop_first(),
        )
    }
}

proof fn lemma_render_entries_push(l: Seq<EntryView>, e: EntryView)
    ensures
        spec_render_entries(l.push(e)) == spec_render_entries(l) + (seq!['\t']
            + spec_render_account(e.account) + seq!['\n', '\n']),
    decreases l.len(),
{
    let p = l.push(e);
    let block = seq!['\t'] + spec_render_account(e.account) + seq!['\n', '\n'];
    if l.len() == 0 {
        assert(p[0] == e);
        assert(p.drop_first() =~= Seq::<EntryView>::empty());
        assert(spec_render_entries(p) == seq!['\t'] + spec_render_account(e.account) + seq![
            '\n',
            '\n',
        ] + spec_render_entries(p.drop_first()));
        assert(spec_render_entries(p) =~= spec_render_entries(l) + block);
    } else {
        assert(p[0] == l[0]);
        assert(p.drop_first() =~= l.drop_first().push(e));
        lemma_render_entries_push(l.drop_first(), e);
        let head = seq!['\t'] + spec_render_account(l[0].account) + seq!['\n', '\n'];
        assert(head + (spec_render_entries(l.drop_first()) + block) =~= (head
            + spec_render_entries(l.drop_first())) + block);
    }
}

/// The display form of the whole collection: its accounts sorted by name.
pub open spec fn spec_render_ledger(l: Seq<EntryView>) -> Seq<char> {
    spec_render_entries(spec_sort_by_name(l))
}

impl Ledger {
    /// The display form of the collection, accounts sorted by name, each
    /// indented and followed by a blank line.
    #[verifier::loop_isolation(false)]
    #[verifier::rlimit(100)]
    pub fn render(&self) -> (r: String)
        requires
            ledger_wf(self@),
        ensures
            r@ == spec_render_ledger(self@),
    {
        // Sort slot positions by account name.
        let mut idxs: Vec<usize> = Vec::new();
        let mut i: usize = 0;
        proof {
            assert(self@.subrange(0, 0) =~= Seq::<EntryView>::empty());
            assert(idxs@.map_values(|k: usize| self@[k as int]) =~= Seq::<EntryView>::empty());
        }
        while i < self.entries.len()
            invariant
                0 <= i <= self@.len(),
                forall|j: int| 0 <= j < idxs@.len() ==> (#[trigger] idxs@[j]) < self@.len(),
                idxs@.map_values(|k: usize| self@[k as int]) == spec_sort_by_name(
                    self@.subrange(0, i as int),
                ),
            decreases self@.len() - i,
        {
            let ghost prev = idxs@.map_values(|k: usize| self@[k as int]);
            let mut j: usize = idxs.len();
            while j > 0 && !crate::text::str_le(
                self.entries[idxs[j - 1]].account.name.as_str(),
                self.entries[i].account.name.as_str(),
            )
                invariant
                    0 <= j <= idxs@.len(),
                    forall|k: int|
                        j <= k < idxs@.len() ==> !spec_str_le(
                            (#[trigger] prev[k]).account.name,
                            self@[i as int].account.name,
                        ),
                decreases j,
            {
                proof {
                    assert(prev[j - 1] == self@[idxs@[j - 1] as int]);
                    assert(self@[idxs@[j - 1] as int] == self.entries@[idxs@[j - 1] as int]@);
                    assert(self@[i as int] == self.entries@[i as int]@);
                }
                j = j - 1;
            }
            proof {
                if j > 0 {
                    assert(prev[j - 1] == self@[idxs@[j - 1] as int]);
                    assert(self@[idxs@[j - 1] as int] == self.entries@[idxs@[j - 1] as int]@);
                    assert(self@[i as int] == self.entries@[i as int]@);
                }
                lemma_insert_by_name_at(prev, self@[i as int], j as int);
            }
            idxs.insert(j, i);
            proof {
                assert(idxs@.map_values(|k: usize| self@[k as int]) =~= prev.subrange(0, j as int)
                    + seq![self@[i as int]] + prev.subrange(j as int, prev.len() as int));
                assert(self@.subrange(0, i + 1).drop_last() =~= self@.subrange(0, i as int));
                assert(self@.subrange(0, i + 1).last() == self@[i as int]);
            }
            i = i + 1;
        }
        proof {
            assert(self@.subrange(0, self@.len() as int) =~= self@);
        }
        let ghost sorted = spec_sort_by_name(self@);
        proof {
            lemma_sort_by_name_contains(self@);
            assert forall|j: int| 0 <= j < sorted.len() implies (#[trigger] sorted[j]).account.wf()
                by {
                assert(self@.contains(sorted[j]));
                let x = choose|x: int| 0 <= x < self@.len() && self@[x] == sorted[j];
            }
        }
        // Render in that order.
        let mut out = String::new();
        let mut i: usize = 0;
        proof {
            assert(sorted.subrange(0, 0) =~= Seq::<EntryView>::empty());
        }
        while i < idxs.len()
            invariant
                0 <= i <= idxs@.len(),
                out@ == spec_render_entries(sorted.subrange(0, i as int)),
            decreases idxs@.len() - i,
        {
            proof {
                assert(idxs@.map_values(|k: usize| self@[k as int])[i as int] == sorted[i as int]);
                assert(self@[idxs@[i as int] as int] == sorted[i as int]);
            }
            out.append("\t");
            let line = self.entries[idxs[i]].account.render();
            out.append(line.as_str());
            out.append("\n\n");
            proof {
                reveal_strlit("\t");
                reveal_strlit("\n\n");
                assert("\t"@ =~= seq!['\t']);
                assert("\n\n"@ =~= seq!['\n', '\n']);
                assert(self@[idxs@[i as int] as int] == self.entries@[idxs@[i as int] as int]@);
                let pre = sorted.subrange(0, i as int);
                let post = sorted.subrange(0, i + 1);
                assert(post =~= pre.push(sorted[i as int]));
                lemma_render_entries_push(pre, sorted[i as int]);
                assert(out@ =~= spec_render_entries(post));
            }
            i = i + 1;
        }
        proof {
            assert(sorted.subrange(0, sorted.len() as int) =~= sorted);
        }
        out
    }
}

/// Updating one slot's account while its key and name stay related keeps the
/// collection valid, and touches no other slot.
proof fn lemma_slot_update(
    before: Seq<EntryView>,
    after: Seq<EntryView>,
    entries_after: Seq<LedgerEntry>,
    entries_before: Seq<LedgerEntry>,
    i: int,
)
    requires
        0 <= i < before.len(),
        before == entries_before.map_values(|e: LedgerEntry| e@),
        after == entries_after.map_values(|e: LedgerEntry| e@),
        entries_after == entries_before.update(i, entries_after[i]),
        ledger_wf(before),
        after[i].key == before[i].key,
        after[i].account.wf(),
        after[i].account.name == before[i].account.name,
    ensures
        after == before.update(i, after[i]),
        ledger_wf(after),
{
    assert(after =~= before.update(i, after[i]));
    assert(forall|a: int| 0 <= a < after.len() ==> #[trigger] after[a] == (if a == i {
        after[i]
    } else {
        before[a]
    }));
}

} // verus!
