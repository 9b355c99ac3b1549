//! Decoder for ISO/IEC 8211 interchange records as profiled by the S-57
//! hydrographic standard for catalog files.
//!
//! The decoder first consumes one record, the Data Descriptive Record (DDR),
//! to build a schema, then yields the remaining Data Records one at a time,
//! decoded against that schema.

pub mod error;
pub mod num;
pub mod catalog;
pub mod controls;
pub mod ddf;
pub mod directory;
pub mod formats;
pub mod leader;
pub mod scalar;
pub mod split;
pub mod text;
