//! One listed movie collection.

use vstd::prelude::*;

verus! {

/// A collection entry: its name, when it was uploaded, where to fetch it,
/// and its size both as shown and in bytes.
pub struct MovieCollection {
    pub name: String,
    pub uploaded_at: String,
    pub magnet_url: String,
    pub size_string: String,
    pub size_bytes: u64,
}

} // verus!
