use vstd::prelude::*;

pub mod announce;
pub mod cluster;
pub mod codec;
pub mod coding;
pub mod error;
pub mod group;
mod index_map;
pub mod listings;
pub mod media;
pub mod message;
pub mod relay;
pub mod session;
pub mod setup;
pub mod track;
pub mod varint;
pub mod web;

verus! {

} // verus!
