//! Planning and serialisation of flat, STORED ZIP archives that are assembled
//! inside S3 by multipart upload.

pub mod byte_sink;
pub mod chain;
pub mod engine;
pub mod error;
pub mod listing;
pub mod text;
pub mod transfer;
pub mod v2;
pub mod v3;
pub mod zip_format;
pub mod zip_reading;

