//! The Anthropic side: requests and responses in its format, and those of the
//! OpenAI format that they correspond to.

pub mod cache;
pub mod content;
pub mod order;
pub mod request;
pub mod response;
pub mod sse;
