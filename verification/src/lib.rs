//! Administrative-area code library: a code tree, name lookup and keyword
//! search over area records, the sources those records come from, and the
//! stores of an area index.
pub mod text;
pub mod code_path;
pub mod error;
pub mod area_code;
pub mod search_model;
pub mod search_index;
pub mod keyword;
pub mod data_source;
pub mod db_source;
pub mod store;
pub mod by_code;
pub mod laws;
pub mod index_laws;
pub mod disk_format;
pub mod answer_laws;
