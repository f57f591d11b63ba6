//! Log lines to templates: canonicalization of raw lines (structured JSON,
//! `key=value` text, known access-log shapes, or masked free text with
//! numbered placeholders), counting per template in one batch or over a
//! stream of chunks with the same result, and the analyzers that read the
//! counts (new and rare templates, bursts and gaps, co-occurrence,
//! parameter distributions, sequence compaction, schema changes), run
//! together per template by `registry::analyze_pattern`.
//!
//! There is no online clustering tree: the drain-rs tree depends on grok and
//! through it on the Oniguruma C library, and this library keeps to
//! pure-Rust dependencies. A template is the canonical shape of its lines
//! (plus its severity), so equal shapes always share a template whatever
//! the order or chunking of the input. Shapes that differ only in
//! their field values can be merged afterwards with
//! `drain_adapter::clusters_merged_by_shape`.
//!
//! Every function states its result in its contract; the laws that relate
//! functions to one another are in `laws`.

pub mod text;
pub mod scan;
pub mod masking;
pub mod params;
pub mod extract;
pub mod select;
pub mod param_extractor;
pub mod fields;
pub mod order;
pub mod json;
pub mod patterns;
pub mod analyzers;
pub mod anomaly;
pub mod drain_adapter;
pub mod schema;
pub mod smart_masking;
pub mod parser;
pub mod ai;
pub mod laws;
pub mod temporal;
pub mod timestamp;
pub mod multiline;
pub mod correlation;
pub mod sequence;
pub mod source;
pub mod registry;
pub mod suggestions;
