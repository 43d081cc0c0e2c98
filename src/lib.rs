//! A small feed-forward network whose activations drive a visualisation:
//! fixed-point arithmetic, the network's parameters and its evaluation.
pub mod brain;
pub mod draw;
pub mod fixed;
