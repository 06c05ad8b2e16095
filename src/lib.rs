pub mod address;
pub mod digits;
pub mod ipv6;
pub mod metrics;
pub mod ping_result;
pub mod poller;
pub mod store;
pub mod sweep;
pub mod text;
