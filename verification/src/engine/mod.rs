//! The copy-part engine: a pure planner, the headers blob and the record
//! builders they share.

pub mod header_blob;
pub mod plan;
pub mod plan_choices;
pub mod plan_laws;
pub mod plan_model;
pub mod zip_format;
