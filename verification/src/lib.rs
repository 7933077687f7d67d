//! Belief-tracking engine for a rank-based card game of imperfect information.
//!
//! Thirteen ranks with four copies each circulate between a face-down pool and
//! the players' hands.  Each seat keeps a `GameObserver`: an honest estimate of
//! the pool and of every other hand, derived purely from the events that seat
//! could legitimately observe.  A `BotGame` drives a match against the ground
//! truth and broadcasts one event per seat per turn.

pub mod probability;

pub mod observer;

pub mod game;

pub mod laws;

mod rng;
