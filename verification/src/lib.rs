//! meshcore: the decisions of MeshAI, verified.
use vstd::prelude::*;

pub mod cost;
pub mod text;
pub mod gguf;
pub mod planner;
pub mod layers;
pub mod framing;
pub mod state;
pub mod pairing;
pub mod models;
pub mod calc;
pub mod supervisor;
pub mod control;
pub mod stream;

verus! {

/// TCP port of the control plane.
pub const CONTROL_PORT: u16 = 7070;
/// Port every RPC worker listens on.
pub const RPC_PORT: u16 = 50052;
/// Port of the host's own llama-server.
pub const HOST_LLAMA_PORT: u16 = 8081;
/// Port of the OpenAI-compatible API and admin panel.
pub const API_PORT: u16 = 8080;

} // verus!
