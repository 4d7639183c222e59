pub mod apply;
pub mod batch;
pub mod lifecycle;
pub mod runner;
pub mod worker;
