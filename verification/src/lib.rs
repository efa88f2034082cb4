//! Verified core of a PST-to-PDF converter: subject normalisation, thread
//! grouping, text rendering, address cleaning, word wrapping, HTML stripping,
//! attachment naming and the decisions around compressed attachments.

pub mod text;
pub mod sorting;
pub mod models;
pub mod thread_grouper;
pub mod pdf_writer;
pub mod timestamps;
pub mod pst_reader;
pub mod folders;
pub mod attachments;
pub mod compressed;
pub mod eml;
pub mod cli;
