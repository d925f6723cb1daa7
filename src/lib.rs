//! Edge telemetry agent core: the message and chunk model, the compact chunk
//! encoding, the CAN downsampling rule and the dispatch scheduler that decides
//! when chunks are sealed and how each one reaches the durable log.

pub mod clock;
pub mod codec;
pub mod config;
pub mod errors;
pub mod message;
pub mod sampler;
pub mod scheduler;
