//! Recovery of MurmurHash64A keys from known neighbours: the hash engine,
//! the trigram filter, the neighbour index and the search that ties them together.

pub mod hash;
pub mod filter;
pub mod lookup;
pub mod search;
