//! Reads the channel tables of a cable modem's status page and keeps the
//! latest reading of each channel as labelled gauge values.

pub mod channel;
pub mod mapper;
pub mod parser;
pub mod registry;
pub mod text;

pub use channel::{ChannelSnapshot, Direction, DownstreamChannel, Field, ParseError, UpstreamChannel};
pub use mapper::publish;
pub use parser::parse;
pub use registry::{MetricRegistry, Sample, Series};
