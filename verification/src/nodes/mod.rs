pub mod packet;
pub mod pairing;
pub mod pairing_laws;
pub mod sweep_laws;
pub mod cluster_laws;
pub mod dual_port_iterator;
pub mod ports;
pub mod boundary;
pub mod turns;
pub mod dual;
pub mod single_port;
pub mod epps;
pub mod epps_laws;
pub mod spd;
pub mod passage_laws;
pub mod control;
pub mod run_laws;
