//! Split tunneling: routing chosen processes' traffic outside the VPN tunnel.
//!
//! Excluded processes are members of a net_cls control group that tags their
//! packets; a policy rule sends tagged packets through a routing table of their
//! own, registered by name in the system's routing-table registry.
pub mod cgroup;
pub mod classifier;
pub mod cli;
pub mod dns;
pub mod routing;
pub mod split;
pub mod text;
