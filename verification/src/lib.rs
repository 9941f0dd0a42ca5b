//! A deterministic compressor whose archives are programs for a small virtual
//! machine.
//!
//! Compressed data is a sequence of instructions: literals, back references,
//! loops, macro calls and table scans. Decompression runs the program. The
//! contracts in this crate state what every program does, and that the program
//! written for a given input reproduces that input byte for byte.

pub mod archive;
pub mod archive_guarantees;
pub mod builder;
pub mod bytes;
pub mod consensus;
pub mod consensus_builder;
pub mod deflate;
pub mod format;
pub mod guarantees;
pub mod ids;
pub mod judge;
pub mod laws;
pub mod leb;
pub mod lz;
pub mod machine;
pub mod pipeline;
pub mod sched;
pub mod sorting;
pub mod synth;
pub mod text;
pub mod tokens;
pub mod vm;
pub mod vm_error;

pub use builder::ProgramBuilder;
pub use consensus::Consensus;
pub use deflate::zlib_compress;
pub use leb::{decode_leb128, encode_leb128};
pub use machine::{Opcode, Transform, MAX_CALL_DEPTH, MAX_OUTPUT_BYTES};
pub use vm::{Subs, VmState};
pub use vm_error::VmError;
