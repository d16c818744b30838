//! Node-local IPIP routing for Cilium: the routing decisions, the host
//! command protocol and the node cache, with their contracts.
pub mod controller;
pub mod ipip;
pub mod test_support;
