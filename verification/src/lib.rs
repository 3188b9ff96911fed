//! Watch command output with a graph: the verified core of the `gwatch` terminal tool.

pub mod arithmetic;
pub mod big;
pub mod chart;
pub mod clock;
pub mod command;
pub mod config;
pub mod decimal;
pub mod drawing;
pub mod dsl;
pub mod error;
pub mod float;
pub mod load;
pub mod measure;
pub mod number;
pub mod order;
pub mod period;
pub mod placing;
pub mod plot_data;
pub mod rounding;
pub mod screen;
pub mod session;
pub mod statistics;
pub mod text;
pub mod watch;
