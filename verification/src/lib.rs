//! A causal BTC/ETH microstructure engine: order books, features, linear models and paper
//! execution driven by one ordered stream of received events.
//!
//! Amounts are generic over [`number::Real`], so that every decision is a function of the
//! recorded events and of the arithmetic alone.
pub mod decimal;
pub mod fixed;
pub mod number;
pub mod error;
pub mod json;
pub mod types;
pub mod ladder;
pub mod book;
pub mod text;
pub mod config;
pub mod features;
pub mod model;
pub mod paper;
pub mod engine;
pub mod recorder;
pub mod venue;
pub mod feeds;
pub mod session;
pub mod io;
pub mod replay;
pub mod synthetic;
pub mod laws;
pub mod causality;
pub mod trimming;
pub mod health;
pub mod stop;
pub mod takes;
pub mod levels;
pub mod exits;
pub mod meaning;
