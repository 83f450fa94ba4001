//! The mathematical model of the ledger: a sequence of (key, balance)
//! entries with unique keys, together with the lookup, update and summing
//! functions that every contract of the crate speaks of, and the single-step
//! transition function of the ledger's state machine.

use vstd::prelude::*;

verus! {

/// Whether some entry of `e` carries the key `key`.
pub open spec fn has_key(e: Seq<(Seq<u8>, u64)>, key: Seq<u8>) -> bool {
    exists|i: int| 0 <= i < e.len() && #[trigger] e[i].0 == key
}

/// No two entries of `e` carry the same key.
pub open spec fn keys_unique(e: Seq<(Seq<u8>, u64)>) -> bool {
    forall|i: int, j: int| #![trigger e[i], e[j]] 0 <= i < j < e.len() ==> e[i].0 != e[j].0
}

/// An index of the entry carrying `key` (meaningful only when `has_key` holds;
/// unique when `keys_unique` holds).
pub open spec fn index_of(e: Seq<(Seq<u8>, u64)>, key: Seq<u8>) -> int {
    choose|i: int| 0 <= i < e.len() && #[trigger] e[i].0 == key
}

/// The balance stored under `key`; an absent key stands for a balance of 0.
pub open spec fn balance_of(e: Seq<(Seq<u8>, u64)>, key: Seq<u8>) -> u64 {
    if has_key(e, key) {
        e[index_of(e, key)].1
    } else {
        0
    }
}

/// The sum of all stored balances.
pub open spec fn total_of(e: Seq<(Seq<u8>, u64)>) -> int
    decreases e.len(),
{
    if e.len() == 0 {
        0
    } else {
        e[0].1 + total_of(e.drop_first())
    }
}

/// `e` with the balance under `key` set to `value`: the entry is updated in
/// place when the key is present and appended when it is absent.
pub open spec fn upsert(e: Seq<(Seq<u8>, u64)>, key: Seq<u8>, value: u64) -> Seq<(Seq<u8>, u64)> {
    if has_key(e, key) {
        e.update(index_of(e, key), (key, value))
    } else {
        e.push((key, value))
    }
}

pub proof fn lemma_total_nonneg(e: Seq<(Seq<u8>, u64)>)
    ensures
        total_of(e) >= 0,
    decreases e.len(),
{
    if e.len() > 0 {
        lemma_total_nonneg(e.drop_first());
    }
}

pub proof fn lemma_total_push(e: Seq<(Seq<u8>, u64)>, p: (Seq<u8>, u64))
    ensures
        total_of(e.push(p)) == total_of(e) + p.1,
    decreases e.len(),
{
    assert(e.push(p).len() == e.len() + 1);
    assert(total_of(e.push(p)) == e.push(p)[0].1 + total_of(e.push(p).drop_first()));
    if e.len() == 0 {
        assert(e.push(p)[0] == p);
        assert(e.push(p).drop_first() =~= Seq::<(Seq<u8>, u64)>::empty());
        assert(total_of(Seq::<(Seq<u8>, u64)>::empty()) == 0);
    } else {
        assert(e.push(p)[0] == e[0]);
        assert(e.push(p).drop_first() =~= e.drop_first().push(p));
        lemma_total_push(e.drop_first(), p);
        assert(total_of(e) == e[0].1 + total_of(e.drop_first()));
    }
}

pub proof fn lemma_total_update(e: Seq<(Seq<u8>, u64)>, i: int, p: (Seq<u8>, u64))
    requires
        0 <= i < e.len(),
    ensures
        total_of(e.update(i, p)) == total_of(e) - e[i].1 + p.1,
    decreases e.len(),
{
    if i == 0 {
        assert(e.update(0, p).drop_first() =~= e.drop_first());
    } else {
        assert(e.update(i, p).drop_first() =~= e.drop_first().update(i - 1, p));
        lemma_total_update(e.drop_first(), i - 1, p);
    }
}

pub proof fn lemma_total_split(e: Seq<(Seq<u8>, u64)>, i: int)
    requires
        0 <= i <= e.len(),
    ensures
        total_of(e) == total_of(e.take(i)) + total_of(e.skip(i)),
    decreases e.len(),
{
    if i == 0 {
        assert(e.take(0) =~= Seq::<(Seq<u8>, u64)>::empty());
        assert(e.skip(0) =~= e);
    } else {
        assert(e.take(i).drop_first() =~= e.drop_first().take(i - 1));
        assert(e.skip(i) =~= e.drop_first().skip(i - 1));
        lemma_total_split(e.drop_first(), i - 1);
    }
}

/// A single balance never exceeds the sum of all balances.
pub proof fn lemma_balance_le_total(e: Seq<(Seq<u8>, u64)>, key: Seq<u8>)
    ensures
        0 <= balance_of(e, key) <= total_of(e),
{
    if has_key(e, key) {
        let i = index_of(e, key);
        assert(0 <= i < e.len() && e[i].0 == key);
        lemma_total_split(e, i);
        assert(e.skip(i)[0] == e[i]);
        assert(total_of(e.skip(i)) == e[i].1 + total_of(e.skip(i).drop_first()));
        lemma_total_nonneg(e.take(i));
        lemma_total_nonneg(e.skip(i).drop_first());
    } else {
        lemma_total_nonneg(e);
    }
}

/// What `upsert` does to the book: the named key now holds `value`, every
/// other key keeps its balance and its presence, key uniqueness is preserved,
/// and the total moves by exactly the difference written under the key.
pub proof fn lemma_upsert(e: Seq<(Seq<u8>, u64)>, key: Seq<u8>, value: u64)
    requires
        keys_unique(e),
    ensures
        keys_unique(upsert(e, key, value)),
        has_key(upsert(e, key, value), key),
        balance_of(upsert(e, key, value), key) == value,
        forall|k: Seq<u8>| k != key ==> #[trigger] has_key(upsert(e, key, value), k) == has_key(
            e,
            k,
        ),
        forall|k: Seq<u8>| k != key ==> #[trigger] balance_of(upsert(e, key, value), k)
            == balance_of(e, k),
        total_of(upsert(e, key, value)) == total_of(e) - balance_of(e, key) + value,
        upsert(e, key, value).len() == if has_key(e, key) {
            e.len()
        } else {
            e.len() + 1
        },
{
    let u = upsert(e, key, value);
    if has_key(e, key) {
        let i = index_of(e, key);
        assert(0 <= i < e.len() && e[i].0 == key);
        assert(u == e.update(i, (key, value)));
        assert forall|a: int, b: int| 0 <= a < b < u.len() implies #[trigger] u[a].0
            != #[trigger] u[b].0 by {
            assert(e[a].0 != e[b].0);
        }
        lemma_total_update(e, i, (key, value));
        assert forall|k: Seq<u8>| k != key implies #[trigger] has_key(u, k) == has_key(e, k)
            && balance_of(u, k) == balance_of(e, k) by {
            if has_key(e, k) {
                let j = index_of(e, k);
                assert(0 <= j < e.len() && e[j].0 == k);
                assert(j != i);
                assert(u[j].0 == k);
                assert(has_key(u, k));
                let j2 = index_of(u, k);
                assert(0 <= j2 < u.len() && u[j2].0 == k);
                assert(j2 != i);
                assert(e[j2].0 == k);
                assert(j2 == j);
                assert(balance_of(u, k) == balance_of(e, k));
            } else {
                if has_key(u, k) {
                    let j2 = index_of(u, k);
                    assert(0 <= j2 < u.len() && u[j2].0 == k);
                    assert(j2 != i);
                    assert(e[j2].0 == k);
                    assert(false);
                }
            }
        }
        assert(u[i].0 == key);
        assert(has_key(u, key));
        let i2 = index_of(u, key);
        assert(0 <= i2 < u.len() && u[i2].0 == key);
        assert(i2 == i);
    } else {
        assert(u == e.push((key, value)));
        assert(forall|j: int| 0 <= j < e.len() ==> #[trigger] e[j].0 != key);
        assert forall|a: int, b: int| 0 <= a < b < u.len() implies #[trigger] u[a].0
            != #[trigger] u[b].0 by {
            if b < e.len() {
                assert(e[a].0 != e[b].0);
            } else {
                assert(u[b].0 == key);
                assert(u[a].0 == e[a].0);
            }
        }
        lemma_total_push(e, (key, value));
        assert(u[e.len() as int].0 == key);
        assert(has_key(u, key));
        let i2 = index_of(u, key);
        assert(0 <= i2 < u.len() && u[i2].0 == key);
        assert(i2 == e.len() as int);
        assert(balance_of(u, key) == value);
        assert forall|k: Seq<u8>| k != key implies #[trigger] has_key(u, k) == has_key(e, k)
            && balance_of(u, k) == balance_of(e, k) by {
            if has_key(e, k) {
                let j = index_of(e, k);
                assert(0 <= j < e.len() && e[j].0 == k);
                assert(u[j].0 == k);
                assert(has_key(u, k));
                let j2 = index_of(u, k);
                assert(0 <= j2 < u.len() && u[j2].0 == k);
                assert(j2 != e.len() as int);
                assert(e[j2].0 == k);
                assert(j2 == j);
            } else {
                if has_key(u, k) {
                    let j2 = index_of(u, k);
                    assert(0 <= j2 < u.len() && u[j2].0 == k);
                    assert(j2 != e.len() as int);
                    assert(e[j2].0 == k);
                    assert(false);
                }
            }
        }
    }
}

/// One operation submitted to the ledger: the caller's key, the recipient's
/// key and the amount.
pub enum LedgerOp {
    Mint { caller: Seq<u8>, to: Seq<u8>, amount: u64 },
    Transfer { caller: Seq<u8>, to: Seq<u8>, amount: u64 },
}

/// The balance book after one operation. A mint by anyone but the owner, a
/// mint that would push the total past `u64::MAX`, and a transfer beyond the
/// caller's balance all leave the book untouched.
pub open spec fn step(owner: Seq<u8>, e: Seq<(Seq<u8>, u64)>, op: LedgerOp) -> Seq<(Seq<u8>, u64)> {
    match op {
        LedgerOp::Mint { caller, to, amount } => {
            if caller == owner && total_of(e) + amount <= u64::MAX {
                upsert(e, to, (balance_of(e, to) + amount) as u64)
            } else {
                e
            }
        },
        LedgerOp::Transfer { caller, to, amount } => {
            if balance_of(e, caller) >= amount {
                let debited = upsert(e, caller, (balance_of(e, caller) - amount) as u64);
                upsert(debited, to, (balance_of(debited, to) + amount) as u64)
            } else {
                e
            }
        },
    }
}

/// The balance book after a whole sequence of operations.
pub open spec fn run_ops(owner: Seq<u8>, e: Seq<(Seq<u8>, u64)>, ops: Seq<LedgerOp>) -> Seq<
    (Seq<u8>, u64),
>
    decreases ops.len(),
{
    if ops.len() == 0 {
        e
    } else {
        run_ops(owner, step(owner, e, ops[0]), ops.drop_first())
    }
}

/// The amounts successfully minted along a sequence of operations: a mint
/// counts exactly when the caller is the owner and the total stays
/// representable.
pub open spec fn minted_along(owner: Seq<u8>, e: Seq<(Seq<u8>, u64)>, ops: Seq<LedgerOp>) -> int
    decreases ops.len(),
{
    if ops.len() == 0 {
        0
    } else {
        (match ops[0] {
            LedgerOp::Mint { caller, to, amount } => {
                if caller == owner && total_of(e) + amount <= u64::MAX {
                    amount as int
                } else {
                    0
                }
            },
            LedgerOp::Transfer { .. } => 0,
        }) + minted_along(owner, step(owner, e, ops[0]), ops.drop_first())
    }
}

} // verus!
