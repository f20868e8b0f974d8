//! Reads the results of runtime benchmarks and sums them up in tables.
//!
//! A benchmark file holds the measurements of one extrinsic of one pallet:
//! a header, then one line of numbers for each repeat at each step. A
//! [`FileContent`] is parsed into an [`ExtrinsicResult`]; results are pushed
//! into an [`ExtrinsicCollection`], which makes two tables of them. The
//! ratio table compares the extrinsics with the fastest of them. The step
//! table shows, for each extrinsic, how its timings grow from step to step.

pub mod collection;
pub mod extrinsic;
pub mod file_collector;
pub mod numeric;
pub mod order;
pub mod overview;
pub mod parser;
pub mod steps;
pub mod sums;
pub mod tables;
pub mod text;

pub use collection::{ExtrinsicCollection, ExtrinsicCollectionError};
pub use extrinsic::{ExtrinsicResult, StepRepeatEntry};
pub use file_collector::FileContent;
pub use parser::AnalyserError;
pub use tables::{PerExtrTable, StepIncrTable};
