//! Work stealing for tasks across agents that share one address space.
pub mod cluster;
pub mod deque;
pub mod injector;
pub mod laws;
pub mod observer;
pub mod park;
pub mod parked;
pub mod safepoint;

pub use cluster::Cluster;
pub use observer::TaskObserver;
pub use park::{Park, SpinPark};
