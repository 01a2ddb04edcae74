//! A codec for a line-oriented request/reply wire protocol, the logic of a
//! small client of a key-value store that speaks it, and the rules of the
//! HTTP front end that consults that store.
pub mod number;
pub mod buffer;
pub mod resp;
pub mod laws;
pub mod client;
pub mod database;
pub mod web;
pub mod auth;
