pub mod config;
pub mod device;
pub mod gc;
pub mod handshake;
pub mod interface;
pub mod kernel;
pub mod metrics;
pub mod peers;
pub mod reported;
pub mod tracking;
