//! Verified core of an employee-feedback insight service: an in-memory
//! repository of per-word sentiment records, the read queries over it, the
//! derived dashboard statistics, and the JSON wire format of the uniform
//! response envelope.

pub mod codec;
pub mod decode;
pub mod model;
pub mod repo;
pub mod roundtrip;
pub mod service;
pub mod text;
