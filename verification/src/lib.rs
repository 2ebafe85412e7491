pub mod agent;
pub mod api;
pub mod controller;
pub mod auth;
pub mod backend;
pub mod dns;
pub mod dns_wire;
pub mod docker;
pub mod error;
pub mod hostname;
pub mod labels;
pub mod net;
pub mod proxy;
pub mod routeset;
pub mod store;
pub mod text;

pub use error::Error;
