//! The gradual type system.

pub mod label_type;
pub mod simple_type;
pub mod print_laws;
pub mod property_type;
pub mod clause_laws;
pub mod descriptor_type;
pub mod diagnosis;
pub mod schema_index;
pub mod validate;
pub mod variable_type;
pub mod whole_laws;
pub mod path_type;
pub mod type_environment;
pub mod path_summary;
pub mod judgment;
pub mod access_laws;
pub mod binding_laws;
pub mod checker;
pub mod query_judgment;
pub mod query_checker;
pub mod note_laws;
pub mod value_laws;
pub mod element_laws;
pub mod pattern_laws;
pub mod inference_laws;
pub mod query_laws;
pub mod format;
pub mod inference;
