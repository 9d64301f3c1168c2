//! Planning of package deliveries on a small railway network.
//!
//! A network has stations, routes between them that take a time to
//! travel, packages that wait at one station and have to go to another,
//! and trains that can hold so much weight. A plan tells every train which
//! packages to pick up and to drop off, in which order; its makespan is the
//! time of the train that travels longest. The library finds a plan with
//! the smallest makespan and turns it into instructions for the trains.
//!
//! - `args`: the network as it is given, with stations referred to by
//!   name, and the reading of its records.
//! - `model`: the network with its names looked up, and the search for
//!   the best plan.
//! - `model::route_path`: shortest route paths between stations.
//! - `model::state`: the states of the fleet that the search goes
//!   through, and what follows each of them.
//! - `model::reach`: what holds of every state that the search comes to.
//! - `model::order`: the order in which a network is given does not
//!   matter.
//! - `error`: the ways in which planning can fail.

pub mod args;
pub mod error;
pub mod model;
