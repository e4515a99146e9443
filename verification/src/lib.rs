//! Stateless authentication core: salted one-way credential hashing,
//! signed time-bounded token issuance, and the request guard that turns a
//! bearer header back into verified identity claims.

pub mod errors;
pub mod codec;
pub mod claims;
pub mod hasher;
pub mod token;
pub mod account;
