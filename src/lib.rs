//! A layer-7 load balancer: backend registry, selection algorithms and the
//! per-request dispatch bookkeeping.
pub mod backend;
pub mod balancer;
pub mod forward;
pub mod laws;

pub use backend::Backend;
pub use balancer::{Algo, LbError, LoadBalancer};
pub use forward::ProxyRequest;
