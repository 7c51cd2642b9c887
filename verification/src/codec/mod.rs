//! Voice codec algorithms: fixed-point linear predictive coding and pitch
//! algorithm selection.

pub mod lpc;
pub mod pitch;
