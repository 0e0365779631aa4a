//! A content-addressed object store: blobs, trees and commits kept as
//! compressed records named by the hash of their content.

pub mod codec;
pub mod commands;
pub mod common;
pub mod laws;
pub mod object_read;
pub mod object_write;
pub mod reader;
pub mod store;
pub mod text;
pub mod tree_laws;
pub mod tree_object_read;
pub mod tree_object_write;
