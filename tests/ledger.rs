use toastcoin::instructions::{mint_token, transfer_token, MintToken, TransferToken};
use toastcoin::ledger::{Ledger, Mint, TokenAccount, TokenError};

const MINT: u64 = 1;
const OTHER_MINT: u64 = 2;
const MINTER: u64 = 100;
const ALICE: u64 = 200;
const BOB: u64 = 201;
const A: u64 = 10;
const B: u64 = 11;
const C: u64 = 12;
const FOREIGN: u64 = 20;

fn setup() -> Ledger {
    let mut l = Ledger::new();
    l.create_mint(MINT, MINTER).unwrap();
    l.create_mint(OTHER_MINT, MINTER).unwrap();
    l.open_account(A, MINT, ALICE).unwrap();
    l.open_account(B, MINT, BOB).unwrap();
    l.open_account(C, MINT, BOB).unwrap();
    l.open_account(FOREIGN, OTHER_MINT, ALICE).unwrap();
    l
}

#[test]
fn new_ledger_is_empty() {
    let l = Ledger::new();
    assert_eq!(l.balance(A), None);
    assert_eq!(l.supply(MINT), None);
    assert_eq!(l.account(A), None);
    assert_eq!(l.mint(MINT), None);
}

#[test]
fn created_records_are_readable() {
    let l = setup();
    assert_eq!(l.mint(MINT), Some(Mint { id: MINT, authority: MINTER, supply: 0 }));
    assert_eq!(
        l.account(FOREIGN),
        Some(TokenAccount { id: FOREIGN, mint: OTHER_MINT, authority: ALICE, balance: 0 })
    );
    assert_eq!(l.balance(B), Some(0));
    assert_eq!(l.supply(OTHER_MINT), Some(0));
}

#[test]
fn create_mint_twice_is_refused() {
    let mut l = setup();
    assert_eq!(l.create_mint(MINT, ALICE), Err(TokenError::AlreadyExists));
    assert_eq!(l.mint(MINT), Some(Mint { id: MINT, authority: MINTER, supply: 0 }));
}

#[test]
fn open_account_errors() {
    let mut l = setup();
    assert_eq!(l.open_account(30, 99, ALICE), Err(TokenError::NotFound));
    assert_eq!(l.open_account(A, MINT, BOB), Err(TokenError::AlreadyExists));
    assert_eq!(l.account(30), None);
    assert_eq!(l.account(A).unwrap().authority, ALICE);
}

#[test]
fn mint_credits_account_and_supply() {
    let mut l = setup();
    assert_eq!(l.mint_to(MINT, A, MINTER, 7), Ok(()));
    assert_eq!(l.balance(A), Some(7));
    assert_eq!(l.supply(MINT), Some(7));
    assert_eq!(l.balance(B), Some(0));
    assert_eq!(l.supply(OTHER_MINT), Some(0));
}

#[test]
fn mint_wrong_authority_is_unauthorized() {
    let mut l = setup();
    l.mint_to(MINT, A, MINTER, 3).unwrap();
    assert_eq!(l.mint_to(MINT, A, ALICE, 10), Err(TokenError::Unauthorized));
    assert_eq!(l.balance(A), Some(3));
    assert_eq!(l.supply(MINT), Some(3));
}

#[test]
fn mint_to_foreign_account_is_mismatch() {
    let mut l = setup();
    assert_eq!(l.mint_to(MINT, FOREIGN, MINTER, 10), Err(TokenError::AccountMismatch));
    assert_eq!(l.balance(FOREIGN), Some(0));
    assert_eq!(l.supply(MINT), Some(0));
}

#[test]
fn mint_unknown_is_not_found() {
    let mut l = setup();
    assert_eq!(l.mint_to(99, A, MINTER, 10), Err(TokenError::NotFound));
    assert_eq!(l.mint_to(MINT, 99, MINTER, 10), Err(TokenError::NotFound));
    assert_eq!(l.supply(MINT), Some(0));
}

#[test]
fn mint_past_largest_supply_overflows() {
    let mut l = setup();
    assert_eq!(l.mint_to(MINT, A, MINTER, u64::MAX - 1), Ok(()));
    assert_eq!(l.mint_to(MINT, B, MINTER, 2), Err(TokenError::Overflow));
    assert_eq!(l.mint_to(MINT, B, MINTER, 1), Ok(()));
    assert_eq!(l.supply(MINT), Some(u64::MAX));
    assert_eq!(l.balance(A), Some(u64::MAX - 1));
    assert_eq!(l.balance(B), Some(1));
}

#[test]
fn transfer_conserves_pair_sum() {
    let mut l = setup();
    l.mint_to(MINT, A, MINTER, 40).unwrap();
    l.mint_to(MINT, B, MINTER, 2).unwrap();
    assert_eq!(l.transfer(A, B, ALICE, 15), Ok(()));
    assert_eq!(l.balance(A), Some(25));
    assert_eq!(l.balance(B), Some(17));
    assert_eq!(l.balance(A).unwrap() + l.balance(B).unwrap(), 42);
    assert_eq!(l.supply(MINT), Some(42));
}

#[test]
fn transfer_wrong_authority_is_unauthorized() {
    let mut l = setup();
    l.mint_to(MINT, A, MINTER, 10).unwrap();
    assert_eq!(l.transfer(A, B, BOB, 5), Err(TokenError::Unauthorized));
    assert_eq!(l.balance(A), Some(10));
    assert_eq!(l.balance(B), Some(0));
}

#[test]
fn transfer_too_much_is_insufficient() {
    let mut l = setup();
    l.mint_to(MINT, A, MINTER, 10).unwrap();
    assert_eq!(l.transfer(A, B, ALICE, 11), Err(TokenError::InsufficientFunds));
    assert_eq!(l.balance(A), Some(10));
    assert_eq!(l.balance(B), Some(0));
}

#[test]
fn transfer_across_mints_is_mismatch() {
    let mut l = setup();
    l.mint_to(MINT, A, MINTER, 10).unwrap();
    assert_eq!(l.transfer(A, FOREIGN, ALICE, 5), Err(TokenError::AccountMismatch));
    assert_eq!(l.balance(A), Some(10));
    assert_eq!(l.balance(FOREIGN), Some(0));
}

#[test]
fn transfer_unknown_is_not_found() {
    let mut l = setup();
    assert_eq!(l.transfer(99, B, ALICE, 0), Err(TokenError::NotFound));
    assert_eq!(l.transfer(A, 99, ALICE, 0), Err(TokenError::NotFound));
}

#[test]
fn transfer_to_itself_keeps_balance() {
    let mut l = setup();
    l.mint_to(MINT, A, MINTER, 10).unwrap();
    assert_eq!(l.transfer(A, A, ALICE, 4), Ok(()));
    assert_eq!(l.balance(A), Some(10));
}

#[test]
fn repeated_mint_applies_twice() {
    let mut l = setup();
    assert_eq!(l.mint_to(MINT, A, MINTER, 10), Ok(()));
    assert_eq!(l.mint_to(MINT, A, MINTER, 10), Ok(()));
    assert_eq!(l.balance(A), Some(20));
    assert_eq!(l.supply(MINT), Some(20));
}

#[test]
fn repeated_transfer_applies_twice() {
    let mut l = setup();
    l.mint_to(MINT, A, MINTER, 10).unwrap();
    assert_eq!(l.transfer(A, B, ALICE, 5), Ok(()));
    assert_eq!(l.transfer(A, B, ALICE, 5), Ok(()));
    assert_eq!(l.balance(A), Some(0));
    assert_eq!(l.balance(B), Some(10));
}

#[test]
fn mint_then_transfer_scenario() {
    let mut l = setup();
    assert_eq!(l.balance(A), Some(0));
    assert_eq!(l.supply(MINT), Some(0));
    let mint_accounts = MintToken { mint: MINT, to: A, authority: MINTER, authority_signed: true };
    assert_eq!(mint_token(&mut l, &mint_accounts, 10), Ok(()));
    assert_eq!(l.balance(A), Some(10));
    assert_eq!(l.supply(MINT), Some(10));
    let transfer_accounts = TransferToken { from: A, to: B, authority: ALICE, authority_signed: true };
    assert_eq!(transfer_token(&mut l, &transfer_accounts, 5), Ok(()));
    assert_eq!(l.balance(A), Some(5));
    assert_eq!(l.balance(B), Some(5));
    assert_eq!(
        transfer_token(&mut l, &transfer_accounts, 100),
        Err(TokenError::InsufficientFunds)
    );
    assert_eq!(l.balance(A), Some(5));
    assert_eq!(l.balance(B), Some(5));
}

#[test]
fn competing_transfers_only_one_succeeds() {
    let mut l = setup();
    l.mint_to(MINT, A, MINTER, 5).unwrap();
    let first = TransferToken { from: A, to: B, authority: ALICE, authority_signed: true };
    let second = TransferToken { from: A, to: C, authority: ALICE, authority_signed: true };
    assert_eq!(transfer_token(&mut l, &first, 5), Ok(()));
    assert_eq!(transfer_token(&mut l, &second, 5), Err(TokenError::InsufficientFunds));
    assert_eq!(l.balance(A), Some(0));
    assert_eq!(l.balance(B), Some(5));
    assert_eq!(l.balance(C), Some(0));
}

#[test]
fn unsigned_instructions_are_unauthorized() {
    let mut l = setup();
    let m = MintToken { mint: MINT, to: A, authority: MINTER, authority_signed: false };
    assert_eq!(mint_token(&mut l, &m, 10), Err(TokenError::Unauthorized));
    assert_eq!(l.supply(MINT), Some(0));
    l.mint_to(MINT, A, MINTER, 10).unwrap();
    let t = TransferToken { from: A, to: B, authority: ALICE, authority_signed: false };
    assert_eq!(transfer_token(&mut l, &t, 5), Err(TokenError::Unauthorized));
    assert_eq!(l.balance(A), Some(10));
    assert_eq!(l.balance(B), Some(0));
}

#[test]
fn signed_instructions_pass_ledger_errors_through() {
    let mut l = setup();
    let m = MintToken { mint: MINT, to: FOREIGN, authority: MINTER, authority_signed: true };
    assert_eq!(mint_token(&mut l, &m, 10), Err(TokenError::AccountMismatch));
    let t = TransferToken { from: A, to: B, authority: BOB, authority_signed: true };
    assert_eq!(transfer_token(&mut l, &t, 0), Err(TokenError::Unauthorized));
}
