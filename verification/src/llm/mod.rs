//! The OpenAI-compatible chat client: wire model and client logic.
pub mod chat;
pub mod model;
