use vstd::prelude::*;

pub mod ancestry;
pub mod bytes;
pub mod cli;
pub mod client;
pub mod dispatch;
pub mod events;
pub mod holder;
pub mod keys;
pub mod lane;
pub mod launch;
pub mod listing;
pub mod lifecycle;
pub mod name;
pub mod wire;
pub mod session;
pub mod session_storage;
pub mod storage;
pub mod store;
pub mod terminal;
pub mod transport;
pub mod viewer;

verus! {

} // verus!
