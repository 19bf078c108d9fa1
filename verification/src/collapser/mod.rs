pub mod circuit;
pub mod course;
pub mod ending;
pub mod island_laws;
pub mod monotonic_map;
pub mod monte_carlo;
pub mod operator_laws;
pub mod outcome_laws;
pub mod photon;
pub mod photon_laws;
pub mod plan;
pub mod settling;
pub mod walk;
pub mod wiring;
