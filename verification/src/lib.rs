//! Verified core of the whereami Wi-Fi geolocation daemon and its client.

pub mod text;
pub mod order;
pub mod source;
pub mod config;
pub mod quota;
pub mod wigle;
pub mod history;
pub mod address_cache;
pub mod server;
pub mod client;
pub mod cli;
pub mod nominatim;
pub mod clock;
pub mod scanner;
pub mod apple;
pub mod provider;
pub mod resolver;
pub mod debounce;

