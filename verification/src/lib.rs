//! The logic of a contest dashboard: scoring a log, reading its sources, and following the stations
//! that are on the air.
pub mod adif;
pub mod bytes;
pub mod call_history;
pub mod demo;
pub mod evidence;
pub mod frequency;
pub mod json;
pub mod lofi;
pub mod log_source;
pub mod matrix;
pub mod model;
pub mod mult_finder;
pub mod naqp;
pub mod naqp_catalog;
pub mod numbers;
pub mod qrz;
pub mod rbn;
pub mod rbn_locality;
pub mod round;
pub mod runtime;
pub mod sort;
pub mod source_policy;
pub mod spots;
pub mod storage;
pub mod string_map;
pub mod sync;
pub mod text;
pub mod time;
