//! Sliding-window leader election: a reputation-based leader election for partially
//! synchronous Byzantine fault tolerant protocols, and the measurements that go with it.

pub mod binary32;
pub mod candidates;
pub mod crypto;
pub mod leader_list;
pub mod metrics;
pub mod properties;
pub mod replica_map;
pub mod reputation;
pub mod rounding;
pub mod swle;
pub mod target_view;
pub mod voters;
pub mod votes;
