//! A file-tree S3 gateway: the request logic, formats and rules, verified.

pub mod text;
pub mod num;
pub mod ext;
pub mod query;
pub mod range;
pub mod chunked;
pub mod cookie;
pub mod quark;
pub mod listing;
pub mod times;
pub mod xml;
pub mod response;
pub mod encode;
pub mod upload;
pub mod routing;
pub mod mounts;
pub mod drivers;
pub mod ui;
