pub mod agent;
pub mod beacon;
pub mod hub;
