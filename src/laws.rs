use vstd::prelude::*;
use crate::ledger::{
    Ledger,
    TokenError,
    mint_to_outcome,
    after_mint_to,
    transfer_outcome,
    after_transfer,
    lemma_balances_within_supply,
};

verus! {

/// A mint that succeeds adds exactly `amount` to the credited balance and to
/// the mint's supply, and touches no other mint or account.
pub proof fn lemma_mint_adds_amount(l: &Ledger, mint: u64, to: u64, authority: u64, amount: u64)
    requires
        l.wf(),
        mint_to_outcome(l@, mint, to, authority, amount) is Ok,
    ensures
        ({
            let v = after_mint_to(l@, mint, to, authority, amount);
            &&& v.accounts[to].balance == l@.accounts[to].balance + amount
            &&& v.mints[mint].supply == l@.mints[mint].supply + amount
            &&& v.accounts.dom() == l@.accounts.dom()
            &&& v.mints.dom() == l@.mints.dom()
            &&& forall|id: u64| id != to ==> v.accounts[id] == l@.accounts[id]
            &&& forall|id: u64| id != mint ==> v.mints[id] == l@.mints[id]
        }),
{
    lemma_balances_within_supply(l);
    assert(l@.accounts[to].balance <= l@.mints[l@.accounts[to].mint].supply);
    let v = after_mint_to(l@, mint, to, authority, amount);
    assert(v.accounts.dom() =~= l@.accounts.dom());
    assert(v.mints.dom() =~= l@.mints.dom());
}

/// A transfer that succeeds keeps the sum of the two balances, moves exactly
/// `amount` between two distinct accounts, and leaves every mint's supply
/// and every other account as they were.
pub proof fn lemma_transfer_conserves(l: &Ledger, from: u64, to: u64, authority: u64, amount: u64)
    requires
        l.wf(),
        transfer_outcome(l@, from, to, authority, amount) is Ok,
    ensures
        ({
            let v = after_transfer(l@, from, to, authority, amount);
            &&& v.accounts[from].balance + v.accounts[to].balance == l@.accounts[from].balance
                + l@.accounts[to].balance
            &&& from != to ==> v.accounts[from].balance == l@.accounts[from].balance - amount
                && v.accounts[to].balance == l@.accounts[to].balance + amount
            &&& v.mints == l@.mints
            &&& v.accounts.dom() == l@.accounts.dom()
            &&& forall|id: u64| id != from && id != to ==> v.accounts[id] == l@.accounts[id]
        }),
{
    lemma_balances_within_supply(l);
    if from != to {
        assert(l@.accounts[from].balance + l@.accounts[to].balance
            <= l@.mints[l@.accounts[from].mint].supply);
    }
    let v = after_transfer(l@, from, to, authority, amount);
    assert(v.accounts.dom() =~= l@.accounts.dom());
}

/// A mint asked for by an authority other than the mint's own is refused
/// as unauthorised and changes nothing.
pub proof fn lemma_mint_wrong_authority(l: &Ledger, mint: u64, to: u64, authority: u64, amount: u64)
    requires
        l@.mints.contains_key(mint),
        l@.accounts.contains_key(to),
        l@.mints[mint].authority != authority,
    ensures
        mint_to_outcome(l@, mint, to, authority, amount) == Err::<(), TokenError>(
            TokenError::Unauthorized,
        ),
        after_mint_to(l@, mint, to, authority, amount) == l@,
{
}

/// A transfer, by the source's authority, of more than the source holds is
/// refused for insufficient funds and changes nothing.
pub proof fn lemma_transfer_insufficient(l: &Ledger, from: u64, to: u64, authority: u64, amount: u64)
    requires
        l@.accounts.contains_key(from),
        l@.accounts.contains_key(to),
        l@.accounts[from].authority == authority,
        amount > l@.accounts[from].balance,
    ensures
        transfer_outcome(l@, from, to, authority, amount) == Err::<(), TokenError>(
            TokenError::InsufficientFunds,
        ),
        after_transfer(l@, from, to, authority, amount) == l@,
{
}

/// Minting is not idempotent: the same mint of a positive amount made twice
/// credits the account and grows the supply twice.
pub proof fn lemma_mint_twice(l: &Ledger, mint: u64, to: u64, authority: u64, amount: u64)
    requires
        l.wf(),
        amount > 0,
        mint_to_outcome(l@, mint, to, authority, amount) is Ok,
        l@.mints[mint].supply + 2 * amount <= u64::MAX,
    ensures
        ({
            let once = after_mint_to(l@, mint, to, authority, amount);
            let twice = after_mint_to(once, mint, to, authority, amount);
            &&& mint_to_outcome(once, mint, to, authority, amount) is Ok
            &&& once.accounts[to].balance > l@.accounts[to].balance
            &&& twice.accounts[to].balance == l@.accounts[to].balance + 2 * amount
            &&& twice.mints[mint].supply == l@.mints[mint].supply + 2 * amount
        }),
{
    lemma_balances_within_supply(l);
    assert(l@.accounts[to].balance <= l@.mints[l@.accounts[to].mint].supply);
}

/// Transferring is not idempotent: the same transfer of a positive amount
/// between distinct accounts, made twice from a source that holds enough,
/// moves the amount twice.
pub proof fn lemma_transfer_twice(l: &Ledger, from: u64, to: u64, authority: u64, amount: u64)
    requires
        l.wf(),
        amount > 0,
        from != to,
        transfer_outcome(l@, from, to, authority, amount) is Ok,
        l@.accounts[from].balance >= 2 * amount,
    ensures
        ({
            let once = after_transfer(l@, from, to, authority, amount);
            let twice = after_transfer(once, from, to, authority, amount);
            &&& transfer_outcome(once, from, to, authority, amount) is Ok
            &&& once.accounts[from].balance < l@.accounts[from].balance
            &&& twice.accounts[from].balance == l@.accounts[from].balance - 2 * amount
            &&& twice.accounts[to].balance == l@.accounts[to].balance + 2 * amount
        }),
{
    lemma_balances_within_supply(l);
    assert(l@.accounts[from].balance + l@.accounts[to].balance
        <= l@.mints[l@.accounts[from].mint].supply);
}

/// Two transfers of `amount` from one account that together ask for more
/// than it holds, applied one after the other: the first succeeds and the
/// second is refused for insufficient funds, leaving the ledger as the first
/// left it.
pub proof fn lemma_competing_transfers(
    l: &Ledger,
    from: u64,
    to1: u64,
    to2: u64,
    authority: u64,
    amount: u64,
)
    requires
        l.wf(),
        from != to1,
        l@.accounts.contains_key(to2),
        transfer_outcome(l@, from, to1, authority, amount) is Ok,
        l@.accounts[from].balance < 2 * amount,
    ensures
        ({
            let once = after_transfer(l@, from, to1, authority, amount);
            &&& transfer_outcome(once, from, to2, authority, amount) == Err::<(), TokenError>(
                TokenError::InsufficientFunds,
            )
            &&& after_transfer(once, from, to2, authority, amount) == once
        }),
{
    lemma_balances_within_supply(l);
    assert(l@.accounts[from].balance + l@.accounts[to1].balance
        <= l@.mints[l@.accounts[from].mint].supply);
}

} // verus!
