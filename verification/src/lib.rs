//! Issuance and verification of signed bearer tokens, and role-gated
//! admission for protected endpoints.
//!
//! The library is framework-agnostic: it works on plain byte vectors and
//! strings, and an HTTP layer only has to hand it the request's
//! authorization header and the configured signing key.

pub mod role;
pub mod error;
pub mod codec;
pub mod guard;
pub mod account;
