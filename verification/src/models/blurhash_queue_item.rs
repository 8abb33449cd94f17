//! Queue items exchanged while attaching a blurhash to an image.

use vstd::prelude::*;

verus! {

/// An image waiting for its blurhash.
pub struct BlurhashQueueInputItem {
    pub name: String,
    pub url: String,
    pub thumbnail_url: String,
}

/// An image with its blurhash attached.
pub struct BlurhashQueueOutputItem {
    pub name: String,
    pub url: String,
    pub thumbnail_url: String,
    pub blurhash: String,
}

} // verus!
