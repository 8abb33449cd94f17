//! Plain data shapes used by the applications around the watch core.
//!
//! Consumers of the notification stream forward what they read to other
//! services; these are the value types those collaborators exchange, defined
//! here so that contracts and tests can speak of their contents. They carry
//! no behaviour of their own beyond construction.

pub mod access_token;
pub mod blurhash_queue_item;
pub mod dynamo_image;
pub mod http_response;
pub mod id_token;
pub mod image_search_dto;
pub mod movie_collection;
pub mod policy_document;
pub mod reddit_image_post;
