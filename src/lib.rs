//! A small fungible-token ledger: mints that issue units under the control of
//! a mint authority, and token accounts bound to one mint whose balances move
//! only by authorised minting and transfers.

pub mod ledger;
pub mod instructions;
pub mod laws;
