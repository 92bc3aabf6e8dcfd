pub mod addr;
pub mod cidr;
pub mod keys;
pub mod netlink;
pub mod obfuscation;
pub mod readback;
