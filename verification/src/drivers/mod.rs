//! Backend drivers' configuration.

pub mod s3;
