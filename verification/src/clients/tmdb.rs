//! Movie-detail response shapes.

use vstd::prelude::*;

verus! {

/// The collection a movie belongs to.
pub struct BelongsToCollection {
    pub id: u32,
    pub name: String,
    pub poster_path: Option<String>,
    pub backdrop_path: Option<String>,
}

/// A production company credited on a movie.
pub struct ProductionCompany {
    pub id: u32,
    pub name: String,
    pub logo_path: Option<String>,
    pub origin_country: String,
}

/// A production country of a movie.
pub struct ProductionCountry {
    pub iso_3166_1: String,
    pub name: String,
}

/// A language spoken in a movie.
pub struct SpokenLanguage {
    pub english_name: Option<String>,
    pub iso_639_1: Option<String>,
    pub name: Option<String>,
}

/// One genre tag.
pub struct Genre {
    pub id: u32,
    pub name: String,
}

} // verus!
