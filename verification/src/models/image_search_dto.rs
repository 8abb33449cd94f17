//! Parameters of an image search.

use vstd::prelude::*;

verus! {

/// Search parameters, all optional: a page limit, a key to start after, and
/// a substring the name must contain.
pub struct ImageSearchDto {
    pub limit: Option<String>,
    pub start_key: Option<String>,
    pub contains: Option<String>,
}

} // verus!
