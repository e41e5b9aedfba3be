//! Renders tabular data as styled text and converts SGR terminal escape
//! sequences embedded in text into equivalent HTML markup.
//!
//! The two components are independent: [`TableWrapper`] owns a header and a
//! sequence of rows and serializes them to a multi-line text block under a
//! named border preset, wrapping cell content to fit a configured total
//! width; [`convert_ansi_to_html`] scans a text block for SGR escape
//! sequences and re-emits the text as HTML, translating recognized
//! style/color codes to tags and stripping malformed escape runs.

pub mod ansi;
pub mod laws;
pub mod layout;
pub mod style;
pub mod table;
pub mod text;

pub use ansi::convert_ansi_to_html;
pub use ansi::convert_ansi_to_html_with_options;
pub use table::TableWrapper;

