//! Serving logic of a Gemma 4 inference server.

pub mod audio;
pub mod auth;
pub mod base64;
pub mod cli;
pub mod double;
pub mod events;
pub mod generate;
pub mod handlers;
pub mod image;
pub mod load;
pub mod messages;
pub mod refusal;
pub mod runtime;
pub mod sampling;
pub mod schema;
pub mod server;
pub mod stops;
pub mod text;
pub mod tiling;
pub mod tokenizer;
pub mod worker;
