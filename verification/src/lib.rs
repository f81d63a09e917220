//! Route prefixes for a VPN tunnel, derived from the hostnames a client
//! contacts: domain extraction, the decisions of name resolution, /16
//! aggregation and the filter that keeps live connections out of the tunnel.

pub mod addr;
pub mod capture;
pub mod dns;
pub mod host;
pub mod resolve;
pub mod routes;
pub mod text;
pub mod unique;
