//! Sensor ordering and feature layout shared by the exported heatmap tensors.
pub mod encode;
pub mod sensor;
