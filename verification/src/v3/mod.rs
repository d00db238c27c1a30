//! The fan-out variant: part jobs that run here or in sub-workers.

pub mod archive;
pub mod archive_laws;
pub mod events;
pub mod lambda_executor;
pub mod part_executor;
pub mod s3_ops;
pub mod zip_layout;
