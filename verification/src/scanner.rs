//! The restartable pair scanner: the light-weight alternative to the store.
//!
//! A scanner only locates the data segment at construction; pairs are
//! decoded on demand, and every `iter` call re-parses from the start, so
//! the sequence can be walked any number of times.

use crate::codec::decode_pairs_str;
use crate::codec::decoded_pairs;
use crate::segment::spec_data_segment;
use crate::segment::spec_prefix;
use crate::segment::split_url_encoded_string;
use vstd::prelude::*;

verus! {

/// A parsed-once input whose pairs are decoded at each read.
#[derive(Clone)]
pub struct UrlEncodedDataPairScanner {
    prefix: String,
    /// The still-encoded data segment the scanner was built from.
    pub original_data_str: String,
}

impl UrlEncodedDataPairScanner {
    /// The prefix preceding the data segment.
    pub closed spec fn prefix_view(&self) -> Seq<char> {
        self.prefix@
    }

    /// The still-encoded data segment, as text.
    pub closed spec fn data_view(&self) -> Seq<char> {
        self.original_data_str@
    }

    /// Builds a scanner: the input is split at its first `?` and kept;
    /// nothing is decoded yet.
    pub fn parse_from_str(s: &str) -> (r: Self)
        ensures
            r.prefix_view() == spec_prefix(s@),
            r.data_view() == spec_data_segment(s@),
    {
        let (prefix, data) = split_url_encoded_string(s);
        UrlEncodedDataPairScanner { prefix: prefix.to_owned(), original_data_str: data.to_owned() }
    }

    /// The decoded pairs, in order of appearance in the data segment.
    /// Restartable: each call decodes the kept segment afresh.
    pub fn iter(&self) -> (r: Vec<(String, String)>)
        ensures
            r.deep_view() == decoded_pairs(self.data_view()),
    {
        decode_pairs_str(self.original_data_str.as_str())
    }
}

} // verus!
