//! Event-driven simulation of the contact process (an SIS epidemic) on
//! integer lattices, with two interchangeable event schedulers.
//!
//! Simulated time is an unsigned number of ticks. Exponential waiting times
//! are supplied by an [`clock::ExpSource`], already expressed in ticks, and
//! drawn through a [`clock::Recorder`], whose record of every rate asked for
//! and value returned lets the contracts say which draw set which clock.
use vstd::prelude::*;

pub mod clock;
pub mod topology;
pub mod node;
pub mod simulation;
pub mod ordered;
