//! Page-script runtime support: script discovery, source rewriting and
//! scanning, the SSR data fallback, and the decisions of the event loop.

pub mod text;
pub mod fallback;
pub mod json;
pub mod script_tag;
pub mod dom;
pub mod esm;
pub mod ts_scan;
pub mod jsgen;
pub mod urls;
pub mod policy;
pub mod cache;
pub mod vite;
pub mod pump;
pub mod plan;
pub mod module_strip;
pub mod graph;
