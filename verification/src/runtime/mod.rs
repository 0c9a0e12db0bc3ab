//! How the process behaves, as opposed to what it does to the trees: privilege ([`elevation`]) and
//! one sync per destination ([`lock`]).

pub mod elevation;
pub mod lock;
