//! Decision logic of the `ai-memory` tools: planning a per-directory
//! reorganisation of sessions, driving an embedding backfill, and answering
//! the read-only tool calls of the memory server.

pub mod embed;
pub mod ids;
pub mod json;
pub mod mcp;
pub mod path;
pub mod reorg;
pub mod server;
pub mod text;
