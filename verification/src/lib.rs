//! The verified core of a peer-to-peer tunnel.

use vstd::prelude::*;

pub mod addr;
pub mod bytes;
pub mod calendar;
pub mod carrier;
pub mod client;
pub mod config;
pub mod connlog;
pub mod dispatch;
pub mod dns;
pub mod e2e;
pub mod e2e_noise;
pub mod e2e_tls;
pub mod fault;
pub mod identity;
pub mod journal;
pub mod neg;
pub mod outside;
pub mod punch;
pub mod reassembly;
pub mod record;
pub mod report;
pub mod resolve;
pub mod server;
pub mod share;
pub mod signal;
pub mod stream;
pub mod text;
pub mod upgrade;
pub mod vocab;

verus! {

} // verus!
