use vstd::prelude::*;

pub mod compact;
pub mod connect;
pub mod enums;
pub mod error;
pub mod graph;
pub mod grid;
pub mod kruskal;
pub mod mesh;
pub mod network;
pub mod orient;
pub mod prune;
pub mod request;
pub mod simplify;
pub mod spanning;
pub mod steiner;
pub mod survey;
pub mod text;
pub mod union_find;
pub mod yen;

verus! {

} // verus!
