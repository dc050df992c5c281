//! Verified core of a small blog server: Base64 and percent decoding, HTML
//! escaping and whitelist sanitising, slug and description derivation,
//! request classification, admission control, routing and authentication
//! decisions.

pub mod text;
pub mod base64;
pub mod html;
pub mod post;
pub mod gate;
pub mod http;
pub mod sha256;
pub mod config;
pub mod hub;
pub mod cpus;
pub mod page;
pub mod procfs;
