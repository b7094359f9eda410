//! The server side of the `zpr-attr/1` protocol: attributes out of a file, asked for by
//! the identities of an actor.
pub mod router;
pub mod store;
