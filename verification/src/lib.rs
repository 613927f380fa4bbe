//! Loadforge: a load generator for HTTP, server-sent events and WebSockets.

pub mod client;
pub mod engine;
pub mod json;
pub mod metrics;
pub mod plan;
pub mod plan_laws;
pub mod result_laws;
pub mod scheduler;
pub mod sse;
pub mod template;
pub mod text;
pub mod ws;
pub mod ws_laws;
