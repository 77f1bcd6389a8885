//! An associative memory (Hopfield network) with Hebbian and Storkey
//! learning, asynchronous relaxation over randomised sweeps, and the worker
//! state machine that drives it from a stream of commands.
pub mod model;
pub mod net_core;
pub mod hop_net;
pub mod classic_network;
pub mod storkey_learning;
pub mod thread_utils;
pub mod laws;
pub mod utilities;
pub mod foreground;
