//! Minimum-cost keystroke routes: given a prioritised dictionary of words and
//! codes and a table of key-pair timing costs, find the cheapest way to type a
//! text under one of three junction schemes.
//!
//! Costs are fixed-point integers. The timing table holds fine units (one
//! millionth of a second-equivalent); every costed sequence and every route
//! holds hundredths, obtained from fine units by rounding half up.
//!
//! The cost model is in `timing` and `route_connector`; the dictionary
//! compiler in `entry`, `sorting`, `unique_code`, `dictionary` and
//! `dict_loader`; the window of best routes in `route_buffer`; the scan of a
//! text in `text_encoder`. `chain`, `progress` and `window` state what the
//! scan guarantees. `lines`, `rime`, `config_loader` and `report_saver` read and
//! name the plain-text files around a run, and `code_analyzer` counts over a
//! finished route.

pub mod chain;
pub mod chars;
pub mod code_analyzer;
pub mod config_loader;
pub mod dict_loader;
pub mod dictionary;
pub mod entry;
pub mod lines;
pub mod progress;
pub mod report_saver;
pub mod rime;
pub mod route_buffer;
pub mod route_connector;
pub mod seq_table;
pub mod sorting;
pub mod text_encoder;
pub mod timing;
pub mod unique_code;
pub mod window;
