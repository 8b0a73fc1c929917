pub mod command;
pub mod config;
pub mod load_balancer;
