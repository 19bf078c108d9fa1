pub mod power;
pub mod set;
