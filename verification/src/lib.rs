//! The routing and proxying core of a web front end for Reddit.
//!
//! [`server`] maps a method and a path to a handler and shapes the
//! responses, [`client`] shapes the requests to Reddit and reads its
//! answers, and [`cache`] keeps what was read for a while. The crate does no
//! input or output of its own: it decides, and its caller acts.

pub mod cache;
pub mod client;
pub mod cookies;
pub mod headers;
pub mod pages;
pub mod path;
pub mod server;
pub mod settings;
pub mod text;
