//! The decision logic of a layer-3 overlay VPN: a coordinator that hands
//! out identities, addresses and membership, and the endpoints that route
//! packets by it.

use vstd::prelude::*;

pub mod accepted;
pub mod access;
pub mod admin;
pub mod auth;
pub mod client_config;
pub mod commands;
pub mod config;
pub mod conforming;
pub mod control;
pub mod coordinator;
pub mod device;
pub mod directory;
pub mod engine;
pub mod error;
pub mod exits;
pub mod follower;
pub mod grants;
pub mod guard;
pub mod history;
pub mod idmap;
pub mod ipam;
pub mod join;
pub mod leases;
pub mod member;
pub mod namemap;
pub mod net;
pub mod netset;
pub mod netfiles;
pub mod nettext;
pub mod operator;
pub mod owners;
pub mod packets;
pub mod peers;
pub mod pins;
pub mod probe;
pub mod promises;
pub mod proto;
pub mod reach;
pub mod reconciler;
pub mod registry;
pub mod rejoin;
pub mod restore;
pub mod roster;
pub mod routes;
pub mod routeset;
pub mod secrets;
pub mod session_routes;
pub mod signer;
pub mod state;
pub mod status;
pub mod text;
pub mod tls;
pub mod traffic;
pub mod uplink;
pub mod validate;

verus! {

} // verus!
