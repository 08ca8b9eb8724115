//! Verified structural core of a multi-compartment neuron simulator:
//! morphology trees, wiring checks and the bookkeeping around them.

pub mod integrations;
pub mod morphology;
pub mod neuron;
pub mod pacing;
pub mod ring_buffer;
pub mod serialize;
