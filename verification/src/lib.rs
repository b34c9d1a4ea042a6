//! Grain-inspection data summarizer: a typed tabular data model, parsers
//! for delimited-text and streamed-markup instrument exports, row-set
//! filtering and grouping, and per-sample descriptive statistics over
//! mixed integer/decimal/text columns.

#![verifier::loop_isolation(false)]

pub mod config_store;
pub mod csv_input;
pub mod data;
pub mod dec;
pub mod interface;
pub mod process;
pub mod render;
pub mod token;
pub mod xml_input;
