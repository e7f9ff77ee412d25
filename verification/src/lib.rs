//! A discrete-tick model of buses serving circular routes.
//!
//! Buses queue at stops, exchange passengers under a capacity limit while at
//! the head of a queue, and travel between consecutive stops of their route.
//! Every executable function carries a contract over the mathematical views
//! of the data it touches.

pub mod boarding;
pub mod bus;
pub mod counter;
pub mod engine;
pub mod error;
pub mod laws;
pub mod network;
pub mod route;
pub mod stop;
