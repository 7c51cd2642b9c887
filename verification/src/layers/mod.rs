//! Voice encoding layers: the fixed-point form of the parametric layer's
//! parameters and the wire sizes of both layers' frames.

pub mod parametric;
pub mod spectral;
