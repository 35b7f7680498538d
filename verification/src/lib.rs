//! A tiny persistent key/value note store: a `Document` maps string keys to
//! ordered, duplicate-free sequences of string values, serialized as a single
//! JSON object on disk, driven by one `get`/`put`/`delete` command per run.

pub mod codec;
pub mod dispatch;
pub mod paths;
pub mod store;
