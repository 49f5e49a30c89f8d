//! Manipulates data in the `application/x-www-form-urlencoded` format:
//! the query string of a URL, or an HTTP body of that media type.
//!
//! The crate splits an input string at its first `?`, decodes the part after
//! it into `(key, value)` pairs, and keeps the pairs in an ordered
//! multi-valued store that can be read back in original, sorted, or internal
//! order, mutated, and re-serialized with the original prefix reattached.

pub mod codec;
pub mod order;
pub mod scanner;
pub mod segment;
pub mod store;

pub use crate::codec::stringify;
pub use crate::scanner::UrlEncodedDataPairScanner;
pub use crate::segment::extract_url_encoded_string;
pub use crate::segment::split_url_encoded_string;
pub use crate::store::UrlEncodedData;
