pub mod cli;
pub mod cmd;
pub mod codec;
pub mod document;
pub mod engine;
pub mod env;
pub mod error;
pub mod merge;
pub mod status;
pub(crate) mod provider;
pub mod recipients;
pub mod text;
pub mod yaml;
