//! The verified core of a proxy that rotates requests over LLM providers.

pub mod anthropic;
pub mod codec;
pub mod compress;
pub mod config;
pub mod exchange;
pub mod forward;
pub mod headers;
pub mod json;
pub mod reply;
pub mod state;
pub mod stream;
pub mod text;
