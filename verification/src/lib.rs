//! Makes one style sheet of a CSS file and all the files that it imports, and keeps the conditions
//! under which each of them is imported.
pub mod acyclic;
pub mod bundle_laws;
pub mod bundle_state;
pub mod bundler;
pub mod conditions;
pub mod entry;
pub mod error;
pub mod in_force;
pub mod inline;
pub mod layers;
pub mod load;
pub mod load_laws;
pub mod location;
pub mod media;
pub mod order;
pub mod path;
pub mod print_laws;
pub mod printer;
pub mod provenance;
pub mod reach;
pub mod rewrite;
pub mod rules;
pub mod rules_copy;
pub mod rules_css;
pub mod settle;
pub mod source_index;
pub mod source_map;
pub mod supports;
pub mod supports_parser;
pub mod text;
pub mod token;
pub mod tree;
pub mod walk_laws;
pub mod written;
