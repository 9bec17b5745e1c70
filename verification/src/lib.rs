//! # xforme
//!
//! Streams a data file through an ordinary Excel template to produce a
//! richly-formatted `.xlsx` report, formatting and formulas intact.
//!
//! ```text
//! data file ──[data::parse]──▶ Sheet ─┐
//!                                      ├─[xlsx_template::fill_template]──▶ .xlsx report
//! template workbook ───────────────────┘
//! ```
//!
//! * [`data`] reads the tab-delimited record stream, and JSON or YAML
//!   documents into the same sheets.
//! * [`xlsx_template`] reads the template workbook's structure, plans every
//!   edit of the fill over plain values, and carries the edits out.
//! * [`expr`] splits template expressions into tokens.
//! * [`cli`] reads the renderer's command line.
//! * [`text`] holds the character-level helpers the parsers share.

pub mod text;
pub mod data;
pub mod xlsx_template;
pub mod expr;
pub mod cli;
