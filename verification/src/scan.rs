//! What this crate relies on from the `memchr` crate's byte searches.

use vstd::prelude::*;

verus! {

/// `memchr::memchr` gives the index of the first byte of `haystack` equal to
/// `needle`, and `None` exactly when no byte of `haystack` equals `needle`.
pub assume_specification[ memchr::memchr ](needle: u8, haystack: &[u8]) -> (found: Option<usize>)
    ensures
        match found {
            Some(at) => {
                &&& at < haystack@.len()
                &&& haystack@[at as int] == needle
                &&& forall|j: int| 0 <= j < at ==> haystack@[j] != needle
            },
            None => forall|j: int| 0 <= j < haystack@.len() ==> haystack@[j] != needle,
        },
;

/// `memchr::memrchr` gives the index of the last byte of `haystack` equal to
/// `needle`, and `None` exactly when no byte of `haystack` equals `needle`.
pub assume_specification[ memchr::memrchr ](needle: u8, haystack: &[u8]) -> (found: Option<usize>)
    ensures
        match found {
            Some(at) => {
                &&& at < haystack@.len()
                &&& haystack@[at as int] == needle
                &&& forall|j: int| at < j < haystack@.len() ==> haystack@[j] != needle
            },
            None => forall|j: int| 0 <= j < haystack@.len() ==> haystack@[j] != needle,
        },
;

} // verus!
