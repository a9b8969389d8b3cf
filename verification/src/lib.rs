//! A single-commodity exchange simulation: an order book with priority
//! queues and a three-phase matching engine, accounts with a reservation
//! discipline, and a step-driven market coordinator that settles the
//! resulting transactions under a conservation law.

pub mod account;
pub mod agent;
pub mod agents;
pub mod amount;
pub mod book;
pub mod market;
pub mod orders;
pub mod simulation;
pub mod sums;
