//! TSBOX: arbitrary files inside MPEG transport streams, and elementary
//! streams out of them.
//!
//! A packed file is a transport stream with one private stream that carries
//! the file, its name and its checksum ([`custom_ts`]). Streams of other
//! origin can be taken apart into their elementary streams ([`demux`]). Files
//! and paths are plain values here: reading and writing them, in the order
//! that [`workflow`] and [`raw_workflow`] decide on, is the caller's part.

pub mod bytes;
pub mod text;
pub mod utf8;
pub mod digest;
pub mod crc;
pub mod error;

pub mod packet;
pub mod packet_laws;
pub mod ts_writer;
pub mod ts_reader;
pub mod custom_ts;
pub mod custom_ts_laws;
pub mod container_laws;
pub mod stream_laws;
pub mod writer_laws;

pub mod sync;
pub mod sync_laws;
pub mod psi;
pub mod psi_laws;
pub mod analysis;
pub mod analysis_laws;
pub mod pes;
pub mod pes_laws;
pub mod plan;
pub mod plan_laws;
pub mod demux;
pub mod demux_laws;
pub mod file_laws;

pub mod paths;
pub mod path_laws;
pub mod order;
pub mod inputs;
pub mod preflight;
pub mod preflight_laws;
pub mod workflow;
pub mod raw_workflow;
pub mod progress;
pub mod media;
pub mod messages;
