//! Cursor usage adapter: turns locally recorded Cursor Agent CLI and Cursor SDK
//! usage into report entries, with every rule stated as a contract and proved.

pub mod agent_report;
pub mod clock;
pub mod codec;
pub mod discovery;
pub mod entry;
pub mod event_laws;
pub mod field_laws;
pub mod json;
pub mod load_laws;
pub mod loader;
pub mod number;
pub mod object;
pub mod order;
pub mod parser;
pub mod path_list;
pub mod paths;
pub mod place_laws;
pub mod price_laws;
pub mod pricing;
pub mod record_laws;
pub mod report_laws;
pub mod sdk_index;
pub mod source_laws;
pub mod source_path;
pub mod store;
pub mod table;
pub mod text;
pub mod turn_laws;
pub mod usage;
pub mod usage_laws;
