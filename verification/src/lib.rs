//! The decisions of an HTTP load balancer and reverse proxy.
pub mod cache;
pub mod config;
pub mod headers;
pub mod keyed;
pub mod message;
pub mod parse;
pub mod proxy;
pub mod request;
pub mod response;
pub mod state;
pub mod text;
pub mod upstream;
