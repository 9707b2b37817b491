pub mod account;
pub mod btc;
pub mod headers;
pub mod bytes;
pub mod codec;
pub mod crypto;
pub mod validators;
pub mod work;
pub mod error;
pub mod hashset;
pub mod laws;
pub mod signatory;
pub mod state_machine;

