//! Classification engine for a local dependency package cache.
//!
//! The library derives, from raw on-disk identity data and lockfile text,
//! four category sets per origin (registry, git): installed, old, used and
//! orphan.  All logic here is pure: directory listings, file contents and
//! resolved git revisions are handed in as plain values by the caller.

pub mod cache;
pub mod classify;
pub mod identity;
pub mod manifest;
pub mod order;
pub mod text;
