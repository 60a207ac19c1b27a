//! A discrete-event simulation of one circular metro line: stations with
//! waiting queues, a train whose cars are bucketed by destination, and a
//! tick that lets riders alight, then board, then moves the train on.
pub mod text;
pub mod passenger;
pub mod passenger_queue;
pub mod simulator;
pub mod laws;
pub mod command;

pub use passenger::{Passenger, PassengerIds};
pub use passenger_queue::PassengerQueue;
pub use simulator::Simulator;
pub use command::{Request, parse_request};
