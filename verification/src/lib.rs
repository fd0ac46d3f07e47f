//! Verified core of the Renium project tooling.

pub mod text;
pub mod json;
pub mod document;
pub mod table;
pub mod links;
pub mod link_edit;
pub mod link_remove;
pub mod link_pack;
pub mod link_apply;
pub mod link_mirror;
pub mod link_run;
pub mod link_status;
pub mod link_laws;
pub mod run_laws;
pub mod manifest_laws;
pub mod wally;
pub mod wally_sync;
pub mod wally_run;
pub mod wally_laws;
pub mod syncback;
pub mod syncback_laws;
pub mod digest;
pub mod stage_document;
pub mod references;
pub mod target;
pub mod mount;
pub mod mount_laws;
pub mod pack;
pub mod package_laws;
pub mod jsonc;
pub mod jsonc_format;
pub mod settings;
pub mod settle;
pub mod filter;
pub mod paths;
pub mod naming;
pub mod order;
pub mod place_diff;
pub mod place_align;
pub mod place_omit;
pub mod place;
pub mod place_laws;
pub mod place_scripts;
pub mod project;
pub mod validation;
pub mod validation_laws;
pub mod rules;
pub mod rule_laws;
pub mod mapping;
pub mod mapping_laws;
pub mod projection;
pub mod projection_laws;
pub mod numbers;
pub mod publish;
pub mod publish_laws;
pub mod experience;
pub mod layout;
pub mod storage;
pub mod store_moves;
pub mod storage_laws;
pub mod sourcemap;
pub mod sourcemap_laws;
pub mod structure;
pub mod projects;
pub mod fields;
pub mod field_laws;
pub mod staging;
pub mod staging_laws;
pub mod stage_files;
pub mod stage_merge;
pub mod stage_sources;
pub mod roots;
pub mod lookup_laws;
pub mod staged_paths;
pub mod explain;
pub mod config_scope;
pub mod rojo;
pub mod rojo_laws;
pub mod adapters;
pub mod link_enforce;
pub mod source_counts;
pub mod sources;
