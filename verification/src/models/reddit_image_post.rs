//! One image post scraped from a listing.

use vstd::prelude::*;

verus! {

/// An image post: its derived file name, the full-size URL, and the
/// thumbnail URL.
pub struct RedditImagePost {
    pub name: String,
    pub url: String,
    pub thumbnail_url: String,
}

} // verus!
