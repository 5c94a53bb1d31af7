//! Term-frequency tables for files and directories.
//!
//! An [`entry_data::EntryData`] counts the terms of one file; a
//! [`collector::Collector`] fills it during a scan and hands it over once; a
//! [`session_data::SessionData`] sums the finished tables up along the path of
//! each file, directory by directory, up to the nearest configured root; and a
//! [`formatter::FormatSession`] renders the tables of the roots as ranked
//! bar-chart histograms, stacked, in one table row, or packed into a grid that
//! fits the terminal.

pub mod bars;
pub mod collector;
pub mod entry_data;
pub mod formatter;
pub mod histogram;
pub mod index;
pub mod laws;
pub mod layout;
pub mod paths;
pub mod plain;
pub mod session_data;
pub mod sorted;
pub mod term;
