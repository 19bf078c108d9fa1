pub mod meeting_laws;
pub mod merge;
pub mod operate;
pub mod operate_laws;
pub mod exit_laws;
pub mod wiring_laws;
pub mod overlap_laws;
pub mod sink;
pub mod state_laws;
pub mod worker;
