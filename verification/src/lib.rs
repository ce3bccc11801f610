//! A concurrent file-download engine: probe a remote resource for its size
//! and range support, split it into fixed-size byte ranges, fetch the ranges
//! concurrently, and reassemble them into one file at the correct offsets —
//! falling back to a single sequential streaming copy when the size is
//! unknown. This crate holds the engine's logic: partitioning, scheduling and
//! assembly bookkeeping, header parsing and rendering, and the in-memory
//! model of the output file, all with verified contracts; the transport,
//! the threads and the file handle live with the caller.

pub mod assemble;
pub mod chunks;
pub mod error;
pub mod job;
pub mod resource;
pub mod wire;

pub use assemble::ChunkResult;
pub use assemble::append_fragment;
pub use assemble::assemble_into;
pub use assemble::stream_fragments;
pub use assemble::write_chunk;
pub use chunks::ChunkRange;
pub use chunks::partition;
pub use error::TrainError;
pub use job::DownloadJob;
pub use job::DownloadPlan;
pub use job::JobEvent;
pub use job::finish_sync;
pub use job::plan_download;
pub use resource::Resource;
pub use resource::chunk_size_bytes;
pub use resource::filename_from_path;
pub use resource::parse_content_length;
pub use resource::resource_from_probe;
pub use wire::range_header;
