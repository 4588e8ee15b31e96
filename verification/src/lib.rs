//! Metrics for instrumenting a program: counters, histograms and families of
//! them keyed by label sets, gathered in a registry and written out in the
//! OpenMetrics text exposition format.
//!
//! Every function states what it does in its contract, and Verus proves the
//! contract from the function's body. The library is sequential: a metric is
//! changed through `&mut`, and a document is made of metrics that nothing
//! changes meanwhile. Sharing metrics among threads, numbers in floating
//! point and streams are for the code around the library.
//!
//! - [`output`]: the sink that a document is written to, and how it fails.
//! - [`encoding`]: values that write themselves, the three stages of a sample
//!   line, and `encode`, which writes the document of a registry.
//! - [`counter`], [`histogram`], [`family`]: the metrics.
//! - [`metric`]: the metrics as one type, for a registry of several kinds.
//! - [`label`]: label sets.
//! - [`number`]: real numbers as the library holds them.
//! - [`registry`]: descriptors and the registry.
//! - [`grammar`]: what holds of every document, line by line.

pub mod counter;
pub mod encoding;
pub mod family;
pub mod grammar;
pub mod histogram;
pub mod label;
pub mod metric;
pub mod number;
pub mod output;
pub mod registry;
