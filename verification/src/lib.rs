//! Verified core of a static file server: turning an untrusted request path
//! into a path confined to the serve root, building directory listings and
//! breadcrumb trails from what the filesystem reported, and packing a
//! directory tree into a zip archive.

pub mod archive;
pub mod breadcrumbs;
pub mod error;
pub mod listing;
pub mod order;
pub mod path;
pub mod request;
pub mod resolve;
