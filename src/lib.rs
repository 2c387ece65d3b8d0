//! Building blocks of a small real-time modular synthesizer, in fixed point
//! (`fixed::ONE` stands for 1.0):
//! - `envelope`: ADSR envelope state machine;
//! - `delay`: fractional delay line with a wet/dry mix;
//! - `sine`: lookup-table oscillator with frequency modulation;
//! - `bridge`: bounded control queues with clamping, coalescing and smoothing;
//! - `graph`: build-time validation and execution order of the signal graph.
pub mod bridge;
pub mod delay;
pub mod envelope;
pub mod fixed;
pub mod graph;
pub mod sine;
