pub mod cap;
pub mod cap_bounds;
pub mod cap_laws;
pub mod config_watch;
