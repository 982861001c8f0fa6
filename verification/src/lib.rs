//! Causal broadcast (CBCAST): vector clocks, the delivery rule and the
//! queue of messages that wait for their causal predecessors.
pub mod clock;
pub mod laws;
pub mod message;
pub mod order;
pub mod process;
pub mod render;
pub mod vector_clock;
pub mod vector_order;
