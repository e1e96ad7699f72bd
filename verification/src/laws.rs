//! What the library promises, stated over plain values.
//!
//! The modules that do the work say what they do in terms of their own
//! predicates. Here the same is said of the fields that go in and the values
//! that come out, so that what a predicate means can be read off without it.

pub mod calls;
pub mod classifying;
pub mod collecting;
pub mod drawing;
pub mod listing;
pub mod measuring;
pub mod naming;
pub mod notes;
pub mod records;
pub mod reporting;
pub mod scanning;
pub mod screens;
pub mod trees;
pub mod window;
