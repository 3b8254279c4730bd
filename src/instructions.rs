use vstd::prelude::*;
use crate::ledger::{Ledger, TokenError, mint_to_outcome, after_mint_to, transfer_outcome, after_transfer};

verus! {

/// The accounts named by a mint instruction: the mint to issue from, the
/// account credited, the authority that asks, and whether it signed.
#[derive(Clone, Copy, Debug, PartialEq, Eq, Structural)]
pub struct MintToken {
    pub mint: u64,
    pub to: u64,
    pub authority: u64,
    pub authority_signed: bool,
}

/// The accounts named by a transfer instruction: the account debited, the
/// account credited, the authority that asks, and whether it signed.
#[derive(Clone, Copy, Debug, PartialEq, Eq, Structural)]
pub struct TransferToken {
    pub from: u64,
    pub to: u64,
    pub authority: u64,
    pub authority_signed: bool,
}

/// Runs a mint instruction: an unsigned authority is refused, and otherwise
/// the ledger mints `amount` units as `Ledger::mint_to` does.
pub fn mint_token(ledger: &mut Ledger, accounts: &MintToken, amount: u64) -> (r: Result<(), TokenError>)
    requires
        old(ledger).wf(),
    ensures
        final(ledger).wf(),
        r == (if accounts.authority_signed {
            mint_to_outcome(old(ledger)@, accounts.mint, accounts.to, accounts.authority, amount)
        } else {
            Err(TokenError::Unauthorized)
        }),
        final(ledger)@ == (if accounts.authority_signed {
            after_mint_to(old(ledger)@, accounts.mint, accounts.to, accounts.authority, amount)
        } else {
            old(ledger)@
        }),
{
    if !accounts.authority_signed {
        return Err(TokenError::Unauthorized);
    }
    ledger.mint_to(accounts.mint, accounts.to, accounts.authority, amount)
}

/// Runs a transfer instruction: an unsigned authority is refused, and
/// otherwise the ledger moves `amount` units as `Ledger::transfer` does.
pub fn transfer_token(ledger: &mut Ledger, accounts: &TransferToken, amount: u64) -> (r: Result<
    (),
    TokenError,
>)
    requires
        old(ledger).wf(),
    ensures
        final(ledger).wf(),
        r == (if accounts.authority_signed {
            transfer_outcome(old(ledger)@, accounts.from, accounts.to, accounts.authority, amount)
        } else {
            Err(TokenError::Unauthorized)
        }),
        final(ledger)@ == (if accounts.authority_signed {
            after_transfer(old(ledger)@, accounts.from, accounts.to, accounts.authority, amount)
        } else {
            old(ledger)@
        }),
{
    if !accounts.authority_signed {
        return Err(TokenError::Unauthorized);
    }
    ledger.transfer(accounts.from, accounts.to, accounts.authority, amount)
}

} // verus!
