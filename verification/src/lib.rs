//! An embedded key/tag-set store: each nonzero 64-bit key owns a set of
//! interned string terms, held inline in a fixed-capacity open-addressing
//! set until it overflows into unbounded storage, queried horizontally
//! (terms of a key) and vertically (keys with a term), and persisted as a
//! compact binary snapshot.

pub mod codec;
pub mod doublemap;
pub mod laws;
pub mod query;
pub mod smallset;
pub mod storage;
