//! Launch manifests and portable scheduling: the verified core.

pub mod text;
pub mod assoc;
pub mod order;
pub mod posix;
pub mod platform;
pub mod sched_types;
pub mod resolve;
pub mod cond;
pub mod duration;
pub mod chain_rank;
pub mod decls;
pub mod subst;
pub mod span;
pub mod field_table;
pub mod realize;
pub mod validate;
pub mod mappers;
pub mod rank_order;
pub mod manifest;
pub mod yaml_fields;
pub mod timing;
pub mod path_fields;
pub mod manifest_read;
pub mod chain_order;
pub mod path_decl;
pub mod yaml_load;
pub mod node_decl;
