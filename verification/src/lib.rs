//! External sorting of line-oriented records.
//!
//! Every record is a line `<integer><delimiter><padding><text>`. Lines are
//! ordered by their text, byte by byte, and lines with the same text by their
//! integer; lines that tie in both stay as they stand in the input. The input
//! is cut into chunks that fit a fixed buffer, each chunk is sorted into a
//! run, and the runs are merged into the output.
//!
//! The library reads and writes no files. What cuts the input
//! ([`chunk::ChunkProducer`]) and what merges the runs
//! ([`engine::MergeEngine`]) are driven by their caller, who reads the bytes
//! and writes what comes out; [`pipeline::external_sort`] drives them over an
//! input that is held in memory.
//!
//! - [`lex`], [`number`]: the order of byte strings, and integers in bytes.
//! - [`record`]: what a line holds, and the order of lines.
//! - [`lines`], [`stream`]: the lines of a buffer, and reading them back.
//! - [`chunk`]: cutting the input into chunks.
//! - [`stable`]: what it is to sort and leave ties as they stand.
//! - [`sorter`]: sorting a chunk into a run.
//! - [`by_fst`], [`frontier`], [`engine`], [`merge`]: merging the runs.
//! - [`spill`], [`stage`]: numbers for the runs, and staging the output.

pub mod by_fst;
pub mod chunk;
pub mod engine;
pub mod frontier;
pub mod lex;
pub mod lines;
pub mod merge;
pub mod number;
pub mod pipeline;
pub mod record;
pub mod sorter;
pub mod spill;
pub mod stable;
pub mod stage;
pub mod stream;
