//! A transactional, in-memory datastore that keeps its own catalogue.

pub mod allocation_laws;
pub mod bootstrap;
pub mod btree_index;
pub mod catalogue;
pub mod catalogue_laws;
pub mod data_key;
pub mod data_laws;
pub mod datastore;
pub mod definition_laws;
pub mod drop_laws;
pub mod error;
pub mod form_laws;
pub mod ids;
pub mod insert;
pub mod iter;
pub mod keeping_laws;
pub mod laws;
pub mod locking;
pub mod messages;
pub mod model;
pub mod operation_laws;
pub mod operations;
pub mod order_laws;
pub mod ordered;
pub mod parse;
pub mod parse_laws;
pub mod range;
pub mod record_laws;
pub mod row_laws;
pub mod schema;
pub mod sequence;
pub mod soundness;
pub mod sql;
pub mod state;
pub mod system_tables;
pub mod table;
pub mod text;
pub mod text_laws;
pub mod types;
pub mod value;
pub mod value_laws;
