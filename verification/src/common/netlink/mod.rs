pub mod awg;
pub mod rt;
pub mod listing;
