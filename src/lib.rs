//! A small HTTP/1.1 edge server core: virtual-host selection, a directive
//! pipeline, static file responses, redirects and a load-balancing reverse proxy.
pub mod chunked;
pub mod config;
pub mod directive;
pub mod error;
pub mod file_server;
pub mod labels;
pub mod pattern;
pub mod request;
pub mod response;
pub mod reverse_proxy;
pub mod servers;
pub mod text;
pub mod uri;
