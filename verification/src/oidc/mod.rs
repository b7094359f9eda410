//! Offline OpenID Connect: validation of `id_token`s and the claims store.
pub mod jwks;
pub mod keys;
pub mod store;
pub mod validate;
