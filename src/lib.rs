//! Runtime mechanics of an inference server for large language models:
//! a paged key/value cache block manager, a token sampler, the speculative
//! decoding acceptance rule, per-sequence state with stop conditions, batch
//! selection, and the pieces of prompt building that need no template engine.
//!
//! Numbers that the serving stack holds as floating point (logits,
//! probabilities, penalties, the temperature) are fixed point here: see
//! `sampler::SCALE`.

pub mod attention;
pub mod block_manager;
pub mod chat_template;
pub mod config;
pub mod responder;
pub mod sampler;
pub mod scheduler;
pub mod sequence;
pub mod speculative;
