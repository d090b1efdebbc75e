//! A content-addressed object store in the style of a version-control object
//! database: blobs, trees and commits, their canonical encoding, hashing,
//! compression and hash-prefix resolution.

mod bytes;
pub mod codec;
pub mod commit;
pub mod display;
pub mod error;
pub mod hash;
pub mod kind;
pub mod object;
pub mod store;
mod text;
pub mod tree;

pub use codec::{zlib_decode, zlib_encode};
pub use error::ObjectError;
pub use hash::hex_digest;
