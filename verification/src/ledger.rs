//! The ledger itself: opaque identities, the owner, the balance book, and
//! the mint / transfer / query operations with their contracts.

use vstd::prelude::*;
use vstd::string::StringExecFns;

use crate::model::balance_of;
use crate::model::has_key;
use crate::model::index_of;
use crate::model::keys_unique;
use crate::model::lemma_balance_le_total;
use crate::model::lemma_total_nonneg;
use crate::model::lemma_total_push;
use crate::model::lemma_total_split;
use crate::model::lemma_upsert;
use crate::model::step;
use crate::model::total_of;
use crate::model::upsert;
use crate::model::LedgerOp;
use crate::text::append_decimal;
use crate::text::append_hex;
use crate::text::dec_digits;
use crate::text::hex_digits;

verus! {

/// The amount credited to the owner when the ledger is first initialized.
pub const INITIAL_SUPPLY: u64 = 1000000;

/// An opaque identity naming a caller or an account: a byte token that the
/// ledger compares only for equality.
pub struct Identity {
    pub bytes: Vec<u8>,
}

impl View for Identity {
    type V = Seq<u8>;

    open spec fn view(&self) -> Seq<u8> {
        self.bytes@
    }
}

impl Identity {
    /// Builds an identity from its raw bytes.
    pub fn from_bytes(bytes: Vec<u8>) -> (id: Identity)
        ensures
            id@ == bytes@,
    {
        Identity { bytes }
    }

    /// Whether two identities name the same principal.
    pub fn same(&self, other: &Identity) -> (r: bool)
        ensures
            r == (self@ == other@),
    {
        if self.bytes.len() != other.bytes.len() {
            return false;
        }
        let n = self.bytes.len();
        let mut i: usize = 0;
        while i < n
            invariant
                i <= n,
                n == self.bytes@.len(),
                n == other.bytes@.len(),
                forall|j: int| 0 <= j < i ==> self.bytes@[j] == other.bytes@[j],
            decreases n - i,
        {
            if self.bytes[i] != other.bytes[i] {
                assert(self.bytes@[i as int] != other.bytes@[i as int]);
                return false;
            }
            i += 1;
        }
        proof {
            assert(self.bytes@ =~= other.bytes@);
        }
        true
    }

    /// A structural copy of this identity.
    pub fn duplicate(&self) -> (copy: Identity)
        ensures
            copy@ == self@,
    {
        let mut bytes: Vec<u8> = Vec::new();
        let mut i: usize = 0;
        while i < self.bytes.len()
            invariant
                i <= self.bytes@.len(),
                bytes@ == self.bytes@.take(i as int),
            decreases self.bytes@.len() - i,
        {
            bytes.push(self.bytes[i]);
            proof {
                assert(bytes@ =~= self.bytes@.take(i as int + 1));
            }
            i += 1;
        }
        proof {
            assert(bytes@ =~= self.bytes@);
        }
        Identity { bytes }
    }
}

/// One stored account: an identity and its balance.
pub struct Account {
    pub id: Identity,
    pub balance: u64,
}

/// The (key, balance) entries that a sequence of accounts stands for.
pub open spec fn entries(accounts: Seq<Account>) -> Seq<(Seq<u8>, u64)> {
    accounts.map_values(|a: Account| (a.id@, a.balance))
}

/// The outcome of a mint or transfer: a confirmation or an error, both as
/// human-readable text.
pub enum WalletResult {
    Confirmation(String),
    Rejection(String),
}

impl WalletResult {
    /// Whether the operation succeeded.
    pub fn is_ok(&self) -> (r: bool)
        ensures
            r == (self is Confirmation),
    {
        match self {
            WalletResult::Confirmation(_) => true,
            WalletResult::Rejection(_) => false,
        }
    }

    /// The carried message, for success and failure alike.
    pub fn message(&self) -> (m: &String)
        ensures
            match self {
                WalletResult::Confirmation(s) => m == s,
                WalletResult::Rejection(s) => m == s,
            },
    {
        match self {
            WalletResult::Confirmation(s) => s,
            WalletResult::Rejection(s) => s,
        }
    }
}

/// The error text of a mint attempted by a non-owner.
pub open spec fn unauthorized_message() -> Seq<char> {
    "Only owner can mint tokens"@
}

/// The error text of a transfer beyond the sender's balance.
pub open spec fn insufficient_message() -> Seq<char> {
    "Insufficient balance"@
}

/// The error text of a mint that would push the total supply past `u64::MAX`.
pub open spec fn overflow_message() -> Seq<char> {
    "Amount would overflow the total supply"@
}

/// The confirmation text of a successful mint.
pub open spec fn mint_ok_message(amount: u64, to: Seq<u8>) -> Seq<char> {
    "Successfully minted "@ + dec_digits(amount) + " tokens to "@ + hex_digits(to)
}

/// The confirmation text of a successful transfer.
pub open spec fn send_ok_message(amount: u64, to: Seq<u8>) -> Seq<char> {
    "Successfully sent "@ + dec_digits(amount) + " tokens to "@ + hex_digits(to)
}

fn mint_ok_text(amount: u64, to: &Identity) -> (s: String)
    ensures
        s@ == mint_ok_message(amount, to@),
{
    let mut s = String::from_str("Successfully minted ");
    append_decimal(&mut s, amount);
    s.append(" tokens to ");
    append_hex(&mut s, &to.bytes);
    proof {
        assert(s@ =~= mint_ok_message(amount, to@));
    }
    s
}

fn send_ok_text(amount: u64, to: &Identity) -> (s: String)
    ensures
        s@ == send_ok_message(amount, to@),
{
    let mut s = String::from_str("Successfully sent ");
    append_decimal(&mut s, amount);
    s.append(" tokens to ");
    append_hex(&mut s, &to.bytes);
    proof {
        assert(s@ =~= send_ok_message(amount, to@));
    }
    s
}

fn find_index(accounts: &Vec<Account>, key: &Identity) -> (found: Option<usize>)
    ensures
        match found {
            Option::Some(i) => i < accounts@.len() && entries(accounts@)[i as int].0 == key@,
            Option::None => !has_key(entries(accounts@), key@),
        },
{
    let mut i: usize = 0;
    while i < accounts.len()
        invariant
            i <= accounts@.len(),
            forall|j: int| 0 <= j < i ==> #[trigger] entries(accounts@)[j].0 != key@,
        decreases accounts@.len() - i,
    {
        if accounts[i].id.same(key) {
            assert(entries(accounts@)[i as int].0 == key@);
            return Some(i);
        }
        assert(entries(accounts@)[i as int].0 != key@);
        i += 1;
    }
    proof {
        assert(entries(accounts@).len() == accounts@.len());
        if has_key(entries(accounts@), key@) {
            let j = index_of(entries(accounts@), key@);
            assert(0 <= j < entries(accounts@).len() && entries(accounts@)[j].0 == key@);
            assert(false);
        }
    }
    None
}

/// The ledger: the owner's identity and the balance book.
pub struct Ledger {
    pub owner: Identity,
    pub accounts: Vec<Account>,
}

impl Ledger {
    /// The abstract balance book this ledger stands for.
    pub open spec fn entries_view(self) -> Seq<(Seq<u8>, u64)> {
        entries(self.accounts@)
    }

    /// Well-formedness: account keys are unique and the total supply is
    /// representable as a 64-bit balance.
    pub open spec fn wf(self) -> bool {
        &&& keys_unique(self.entries_view())
        &&& total_of(self.entries_view()) <= u64::MAX
    }

    /// The balance stored under `key` (0 when the key is absent).
    pub open spec fn spec_balance(self, key: Seq<u8>) -> u64 {
        balance_of(self.entries_view(), key)
    }

    /// Whether `key` is stored in the balance book.
    pub open spec fn spec_has(self, key: Seq<u8>) -> bool {
        has_key(self.entries_view(), key)
    }

    /// The sum of all stored balances.
    pub open spec fn spec_total(self) -> int {
        total_of(self.entries_view())
    }

    /// Creates the ledger, owned by `caller` and crediting `caller` with the
    /// initial supply. Called exactly once in the ledger's lifetime.
    pub fn initialize(caller: &Identity) -> (ledger: Ledger)
        ensures
            ledger.wf(),
            ledger.owner@ == caller@,
            ledger.entries_view() == seq![(caller@, INITIAL_SUPPLY)],
            ledger.spec_has(caller@),
            ledger.spec_balance(caller@) == INITIAL_SUPPLY,
            ledger.spec_total() == INITIAL_SUPPLY,
    {
        let mut accounts: Vec<Account> = Vec::new();
        accounts.push(Account { id: caller.duplicate(), balance: INITIAL_SUPPLY });
        let ledger = Ledger { owner: caller.duplicate(), accounts };
        proof {
            let e = ledger.entries_view();
            assert(e =~= seq![(caller@, INITIAL_SUPPLY)]);
            assert(e[0].0 == caller@);
            assert(has_key(e, caller@));
            let j = index_of(e, caller@);
            assert(0 <= j < e.len() && e[j].0 == caller@);
            assert(total_of(e.drop_first()) == 0);
        }
        ledger
    }

    /// The balance of `caller`; an account never touched reads as 0.
    pub fn get_balance(&self, caller: &Identity) -> (balance: u64)
        requires
            self.wf(),
        ensures
            balance == self.spec_balance(caller@),
    {
        match find_index(&self.accounts, caller) {
            Some(i) => {
                proof {
                    let e = self.entries_view();
                    assert(has_key(e, caller@));
                    let j = index_of(e, caller@);
                    assert(0 <= j < e.len() && e[j].0 == caller@);
                    assert(j == i as int);
                }
                self.accounts[i].balance
            },
            None => 0,
        }
    }

    /// Whether `address` has an entry in the balance book; an explicitly
    /// stored zero balance still counts as existing.
    pub fn address_exists(&self, address: &Identity) -> (present: bool)
        ensures
            present == self.spec_has(address@),
    {
        match find_index(&self.accounts, address) {
            Some(i) => {
                proof {
                    let e = self.entries_view();
                    assert(e[i as int].0 == address@);
                }
                true
            },
            None => false,
        }
    }

    /// The sum of all stored balances.
    pub fn get_total_supply(&self) -> (supply: u64)
        requires
            self.wf(),
        ensures
            supply == self.spec_total(),
    {
        let ghost e = self.entries_view();
        let mut sum: u64 = 0;
        let mut i: usize = 0;
        while i < self.accounts.len()
            invariant
                i <= self.accounts@.len(),
                e == entries(self.accounts@),
                total_of(e) <= u64::MAX,
                sum == total_of(e.take(i as int)),
            decreases self.accounts@.len() - i,
        {
            proof {
                lemma_total_split(e, i as int);
                assert(e.skip(i as int)[0] == e[i as int]);
                assert(e.skip(i as int).drop_first() =~= e.skip(i as int + 1));
                lemma_total_nonneg(e.skip(i as int + 1));
                lemma_total_nonneg(e.take(i as int));
                assert(e.take(i as int + 1) =~= e.take(i as int).push(e[i as int]));
                lemma_total_push(e.take(i as int), e[i as int]);
                assert(e[i as int].1 == self.accounts@[i as int].balance);
            }
            sum = sum + self.accounts[i].balance;
            i += 1;
        }
        proof {
            assert(e.take(self.accounts@.len() as int) =~= e);
        }
        sum
    }

    fn set_balance(&mut self, key: &Identity, value: u64)
        requires
            keys_unique(old(self).entries_view()),
        ensures
            final(self).owner == old(self).owner,
            final(self).entries_view() == upsert(old(self).entries_view(), key@, value),
    {
        let found = find_index(&self.accounts, key);
        match found {
            Some(i) => {
                self.accounts.set(i, Account { id: key.duplicate(), balance: value });
                proof {
                    let e = old(self).entries_view();
                    assert(e[i as int].0 == key@);
                    assert(has_key(e, key@));
                    let j = index_of(e, key@);
                    assert(0 <= j < e.len() && e[j].0 == key@);
                    assert(j == i as int);
                    assert(self.entries_view() =~= e.update(i as int, (key@, value)));
                }
            },
            None => {
                self.accounts.push(Account { id: key.duplicate(), balance: value });
                proof {
                    let e = old(self).entries_view();
                    assert(self.entries_view() =~= e.push((key@, value)));
                }
            },
        }
    }

    /// Mints `amount` new tokens to `to`. Only the owner may mint; a mint
    /// that would push the total supply past `u64::MAX` is rejected; a
    /// rejected mint leaves every balance untouched.
    pub fn mint(&mut self, caller: &Identity, to: &Identity, amount: u64) -> (outcome:
        WalletResult)
        requires
            old(self).wf(),
        ensures
            final(self).wf(),
            final(self).owner@ == old(self).owner@,
            final(self).entries_view() == step(
                old(self).owner@,
                old(self).entries_view(),
                LedgerOp::Mint { caller: caller@, to: to@, amount },
            ),
            caller@ != old(self).owner@ ==> (outcome matches WalletResult::Rejection(m) && m@
                == unauthorized_message() && final(self).entries_view() == old(self).entries_view()),
            caller@ == old(self).owner@ && old(self).spec_total() + amount > u64::MAX ==> (outcome
                matches WalletResult::Rejection(m) && m@ == overflow_message()
                && final(self).entries_view() == old(self).entries_view()),
            caller@ == old(self).owner@ && old(self).spec_total() + amount <= u64::MAX ==> (outcome
                matches WalletResult::Confirmation(m) && m@ == mint_ok_message(amount, to@)
                && final(self).spec_has(to@) && final(self).spec_balance(to@) == old(self).spec_balance(to@)
                + amount && final(self).spec_total() == old(self).spec_total() + amount),
            forall|k: Seq<u8>| k != to@ ==> #[trigger] final(self).spec_balance(k) == old(
                self,
            ).spec_balance(k) && #[trigger] final(self).spec_has(k) == old(self).spec_has(k),
    {
        let authorized = caller.same(&self.owner);
        if !authorized {
            return WalletResult::Rejection(String::from_str("Only owner can mint tokens"));
        }
        let total = self.get_total_supply();
        if amount > u64::MAX - total {
            return WalletResult::Rejection(String::from_str("Amount would overflow the total supply"));
        }
        let current = self.get_balance(to);
        proof {
            lemma_balance_le_total(old(self).entries_view(), to@);
            lemma_upsert(old(self).entries_view(), to@, (current + amount) as u64);
        }
        self.set_balance(to, current + amount);
        WalletResult::Confirmation(mint_ok_text(amount, to))
    }

    /// Transfers `amount` tokens from `caller` to `to`. A transfer beyond the
    /// caller's balance is rejected and leaves every balance untouched; a
    /// transfer to oneself is a no-op on the balances; the total supply never
    /// changes.
    pub fn send_tokens(&mut self, caller: &Identity, to: &Identity, amount: u64) -> (outcome:
        WalletResult)
        requires
            old(self).wf(),
        ensures
            final(self).wf(),
            final(self).owner@ == old(self).owner@,
            final(self).entries_view() == step(
                old(self).owner@,
                old(self).entries_view(),
                LedgerOp::Transfer { caller: caller@, to: to@, amount },
            ),
            final(self).spec_total() == old(self).spec_total(),
            old(self).spec_balance(caller@) < amount ==> (outcome matches WalletResult::Rejection(
                m,
            ) && m@ == insufficient_message() && final(self).entries_view() == old(self).entries_view()),
            old(self).spec_balance(caller@) >= amount ==> (outcome
                matches WalletResult::Confirmation(m) && m@ == send_ok_message(amount, to@) && (to@
                == caller@ ==> final(self).spec_balance(caller@) == old(self).spec_balance(caller@)) && (
            to@ != caller@ ==> final(self).spec_balance(caller@) == old(self).spec_balance(caller@)
                - amount && final(self).spec_balance(to@) == old(self).spec_balance(to@) + amount)),
            forall|k: Seq<u8>| k != caller@ && k != to@ ==> #[trigger] final(self).spec_balance(k) == old(
                self,
            ).spec_balance(k),
    {
        let sender_balance = self.get_balance(caller);
        if sender_balance < amount {
            return WalletResult::Rejection(String::from_str("Insufficient balance"));
        }
        proof {
            lemma_upsert(old(self).entries_view(), caller@, (sender_balance - amount) as u64);
        }
        self.set_balance(caller, sender_balance - amount);
        let recipient_balance = self.get_balance(to);
        proof {
            lemma_balance_le_total(self.entries_view(), to@);
            lemma_upsert(self.entries_view(), to@, (recipient_balance + amount) as u64);
        }
        self.set_balance(to, recipient_balance + amount);
        WalletResult::Confirmation(send_ok_text(amount, to))
    }
}

} // verus!
