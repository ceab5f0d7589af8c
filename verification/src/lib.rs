//! An in-memory credential store: validated passwords that are kept encrypted
//! while they sit in the store, and a keyed collection of accounts.

pub mod account;
pub mod cipher;
pub mod hex_codec;
pub mod key_order;
pub mod password;
pub mod store;
