pub mod bird;
pub mod birdc;
pub mod cidr;
pub mod config;
pub mod coverage;
pub mod exporter;
pub mod found;
pub mod rendered;
pub mod resolver;
pub mod validity;
