//! A GPU-free stand-in for an inference engine core: it generates seeded tokens behind a real
//! frontend, hands simulated KV from prefill to decode, and records and replays traces.
//!
//! - [`engine`], with [`active`], [`batch`] and [`utility`], is the generation loop.
//! - [`dataplane`] and [`nixl`] decide how KV moves between engines.
//! - [`trace`], [`replay_steps`] and [`config_hash`] hold traces, their replay, and the
//!   fingerprint that ties a trace to a deployment.
//! - [`tap`] sets up and tears down a recording run.
//! - [`guarantees`] states what the functions above promise, call by call.
pub mod active;
pub mod batch;
pub mod config_hash;
pub mod dataplane;
pub mod engine;
pub mod guarantees;
pub mod nixl;
pub mod protocol;
pub mod replay_steps;
pub mod tap;
pub mod text;
pub mod token_source;
pub mod trace;
pub mod utility;
