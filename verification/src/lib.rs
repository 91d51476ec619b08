//! A laboratory for payments without a chain: cells of value, owner signatures, and
//! certificates of five of seven validators.
use vstd::prelude::*;

pub mod answers;
pub mod auth;
pub mod auth_ed25519;
pub mod batch;
pub mod binding;
pub mod bls;
pub mod bundle;
pub mod bytes;
pub mod campaign;
pub mod checks;
pub mod config;
pub mod contention;
pub mod controller;
pub mod convergence;
pub mod crypto;
pub mod engine;
pub mod envelope;
pub mod finality;
pub mod metrics;
pub mod model;
pub mod node;
pub mod ordmap;
pub mod perf002;
pub mod perf003;
pub mod perf004;
pub mod perf005;
pub mod perf007;
pub mod perf008;
pub mod perf010;
pub mod perf014;
pub mod perf018;
pub mod perf019;
pub mod perf020;
pub mod phase_a;
pub mod safety;
pub mod sec001;
pub mod sec002;
pub mod sec003;
pub mod sec004;
pub mod sec004_laws;
pub mod sec005;
pub mod sec006;
pub mod spend;
pub mod startup;
pub mod state;
pub mod store;
pub mod store_laws;
pub mod store_runs;
pub mod streams;
pub mod text;
pub mod threshold;
pub mod wire;
pub mod wire_forms;
pub mod wire_laws;

verus! {

} // verus!
