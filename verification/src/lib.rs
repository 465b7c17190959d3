//! Course-assistant LLM client logic: subtitle compression and chunking,
//! prompt construction, OpenAI-compatible request preparation and response
//! interpretation, endpoint normalisation and multi-endpoint fallback.
pub mod ai;
pub mod error;
pub mod http;
pub mod json;
pub mod llm;
pub mod model;
pub mod order;
pub mod summary;
pub mod text;
pub mod time;
