//! Stribot core: extracting outdoor-temperature readings from the raw text
//! bodies of two public weather pages.
//!
//! The library is the parsing subsystem only. It locates a temperature value
//! inside free-form HTML/text by source-specific grammars, normalizes
//! locale-specific decimal formats, parses a tabular time series of
//! timestamped readings, and computes extrema with deterministic tie-break
//! rules. Network transport, argument handling and console output are thin
//! glue that lives outside the library and hands raw bodies in as `&str`.

pub mod datetime;
pub mod errors;
pub mod nsu;
pub mod scan;
pub mod temp;
pub mod tgk;
