use vstd::prelude::*;

pub mod cluster;
pub mod datomic;
pub mod echo;
pub mod error;
pub mod flood;
pub mod gcounter;
pub mod gset;
pub mod json;
pub mod message;
pub mod text;

verus! {

} // verus!
