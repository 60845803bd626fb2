//! The verified core of a tracing profiler: events and their clock, the queue
//! that carries them off the traced threads, the ring that keeps the recent
//! past, and the formats a trace is written in.

pub mod cli;
pub mod clock;
pub mod codecache;
pub mod codewatch;
pub mod entries;
pub mod event;
pub mod evqueue;
pub mod format;
pub mod idmap;
pub mod intern;
pub mod json;
pub mod lane;
pub mod lists;
pub mod messages;
pub mod monitoring;
pub mod output;
pub mod packets;
pub mod pipeline;
pub mod pprof;
pub mod profiles;
pub mod proto;
pub mod recorder;
pub mod recording;
pub mod ring;
pub mod runs;
pub mod sink;
pub mod snapshot;
pub mod text;
pub mod threads;
pub mod tls;
pub mod tracer;
pub mod wire;
