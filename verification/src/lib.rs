//! Core of a session-authenticated feed service: an identity directory that
//! checks credentials and resolves session tokens, and a newest-first,
//! paginated reader over timestamped records with strict decode integrity.

pub mod auth;
pub mod store;
