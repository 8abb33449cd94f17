//! Response shapes of the remote services the surrounding applications call.

pub mod openai;
pub mod tmdb;
