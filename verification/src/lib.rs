//! A build-time templating engine for static markup.
//!
//! Pages supply named slot values, templates declare slot and inclusion
//! markers, and a library of named snippets can be spliced in by name. The
//! crate also provides the path partitioner that assigns every discovered
//! file to exactly one processing category.

pub mod dataset;
pub mod dom;
pub mod library;
pub mod names;
pub mod page;
pub mod paths;
pub mod partition;
pub mod render;
pub mod reserved;
pub mod site_config;
pub mod snippet;
pub mod strutil;
pub mod template;
