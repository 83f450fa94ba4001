//! The ledger's laws, stated over the abstract model and proved once and for
//! all: conservation of supply across any sequence of operations, bounds on
//! every balance, and the no-effect guarantees of rejected or self-directed
//! operations.

use vstd::prelude::*;

use crate::model::balance_of;
use crate::model::keys_unique;
use crate::model::lemma_balance_le_total;
use crate::model::lemma_upsert;
use crate::model::minted_along;
use crate::model::run_ops;
use crate::model::step;
use crate::model::total_of;
use crate::model::upsert;
use crate::model::LedgerOp;

verus! {

/// The amount one operation adds to the supply: the minted amount when the
/// mint is authorized and representable, otherwise nothing.
pub open spec fn minted_by(owner: Seq<u8>, e: Seq<(Seq<u8>, u64)>, op: LedgerOp) -> int {
    match op {
        LedgerOp::Mint { caller, to, amount } => {
            if caller == owner && total_of(e) + amount <= u64::MAX {
                amount as int
            } else {
                0
            }
        },
        LedgerOp::Transfer { .. } => 0,
    }
}

/// One step keeps the book well formed and moves the total by exactly the
/// amount it minted: a transfer never changes the total.
pub proof fn lemma_step_conserves(owner: Seq<u8>, e: Seq<(Seq<u8>, u64)>, op: LedgerOp)
    requires
        keys_unique(e),
        total_of(e) <= u64::MAX,
    ensures
        keys_unique(step(owner, e, op)),
        total_of(step(owner, e, op)) <= u64::MAX,
        total_of(step(owner, e, op)) == total_of(e) + minted_by(owner, e, op),
{
    match op {
        LedgerOp::Mint { caller, to, amount } => {
            if caller == owner && total_of(e) + amount <= u64::MAX {
                lemma_balance_le_total(e, to);
                lemma_upsert(e, to, (balance_of(e, to) + amount) as u64);
            }
        },
        LedgerOp::Transfer { caller, to, amount } => {
            if balance_of(e, caller) >= amount {
                let sb = balance_of(e, caller);
                lemma_balance_le_total(e, caller);
                lemma_upsert(e, caller, (sb - amount) as u64);
                let debited = upsert(e, caller, (sb - amount) as u64);
                lemma_balance_le_total(debited, to);
                lemma_upsert(debited, to, (balance_of(debited, to) + amount) as u64);
            }
        },
    }
}

/// Conservation: across any sequence of mint and transfer operations, the
/// total supply grows by exactly the successfully minted amounts; transfers
/// never change it.
pub proof fn lemma_conservation(owner: Seq<u8>, e: Seq<(Seq<u8>, u64)>, ops: Seq<LedgerOp>)
    requires
        keys_unique(e),
        total_of(e) <= u64::MAX,
    ensures
        keys_unique(run_ops(owner, e, ops)),
        total_of(run_ops(owner, e, ops)) <= u64::MAX,
        total_of(run_ops(owner, e, ops)) == total_of(e) + minted_along(owner, e, ops),
    decreases ops.len(),
{
    if ops.len() > 0 {
        lemma_step_conserves(owner, e, ops[0]);
        lemma_conservation(owner, step(owner, e, ops[0]), ops.drop_first());
    }
}

/// Non-negativity: every observable balance lies between zero and the total
/// supply; a balance can never be read as negative or wrapped.
pub proof fn lemma_balance_bounds(e: Seq<(Seq<u8>, u64)>, key: Seq<u8>)
    ensures
        0 <= balance_of(e, key) <= total_of(e),
{
    lemma_balance_le_total(e, key);
}

/// Authorization: a mint whose caller is not the owner leaves the book
/// exactly as it was.
pub proof fn lemma_unauthorized_mint_unchanged(
    owner: Seq<u8>,
    e: Seq<(Seq<u8>, u64)>,
    caller: Seq<u8>,
    to: Seq<u8>,
    amount: u64,
)
    requires
        caller != owner,
    ensures
        step(owner, e, LedgerOp::Mint { caller, to, amount }) == e,
{
}

/// Insufficiency: a transfer of more than the caller holds leaves the book
/// exactly as it was.
pub proof fn lemma_insufficient_transfer_unchanged(
    owner: Seq<u8>,
    e: Seq<(Seq<u8>, u64)>,
    caller: Seq<u8>,
    to: Seq<u8>,
    amount: u64,
)
    requires
        balance_of(e, caller) < amount,
    ensures
        step(owner, e, LedgerOp::Transfer { caller, to, amount }) == e,
{
}

/// Self-transfer: a transfer from the caller to the caller leaves every
/// observable balance unchanged, whether or not it succeeds.
pub proof fn lemma_self_transfer_noop(
    owner: Seq<u8>,
    e: Seq<(Seq<u8>, u64)>,
    caller: Seq<u8>,
    amount: u64,
)
    requires
        keys_unique(e),
    ensures
        forall|k: Seq<u8>|
            #[trigger] balance_of(
                step(owner, e, LedgerOp::Transfer { caller, to: caller, amount }),
                k,
            ) == balance_of(e, k),
{
    let after = step(owner, e, LedgerOp::Transfer { caller, to: caller, amount });
    if balance_of(e, caller) >= amount {
        let sb = balance_of(e, caller);
        lemma_upsert(e, caller, (sb - amount) as u64);
        let debited = upsert(e, caller, (sb - amount) as u64);
        lemma_upsert(debited, caller, (balance_of(debited, caller) + amount) as u64);
        assert(balance_of(debited, caller) == sb - amount);
        assert forall|k: Seq<u8>| #[trigger] balance_of(after, k) == balance_of(e, k) by {
            if k == caller {
                assert(balance_of(after, caller) == sb);
            } else {
                assert(balance_of(debited, k) == balance_of(e, k));
                assert(balance_of(after, k) == balance_of(debited, k));
            }
        }
    }
}

} // verus!
