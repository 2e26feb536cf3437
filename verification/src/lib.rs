//! Lag computation core of a Kafka consumer-lag observability service.
//!
//! The library keeps three in-memory registers and offers the decisions of
//! the tasks that feed them:
//!
//! - [`partition_offsets`]: the watermark history of each partition, and the
//!   offset lag and time lag that are estimated from it;
//! - [`consumer_groups`]: the latest listing of consumer groups, with a
//!   token that tells one content from the next;
//! - [`lag_register`]: the join of the two with the records of the
//!   consumer-offsets topic, and the reconciler that keeps it fresh;
//! - [`emitter`] and [`cluster_status`]: the loop of a snapshot emitter;
//! - [`http`]: the metrics text and the readiness status;
//! - [`cli`]: the meaning of the command line.
//!
//! All I/O lives with the caller: the library is handed plain values and
//! hands plain values back. The one thing it reads by itself is the system
//! clock, and every function that does so has a twin that takes the time as
//! an argument.

pub mod cli;
pub mod clock;
pub mod cluster_status;
pub mod consumer_groups;
pub mod emitter;
pub mod http;
pub mod kafka_types;
pub mod konsumer_offsets_data;
pub mod lag_register;
pub mod ordered_map;
pub mod partition_offsets;
pub mod text;
