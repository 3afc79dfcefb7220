//! Reading of jfon event logs: lines of `label:seqno,action,timestamp` are
//! paired into spans, shifted so that the earliest start is zero, and ordered
//! by start.

pub mod accumulate;
pub mod error;
pub mod event;
pub mod events;
pub mod laws;
pub mod line;
pub mod reconstruct;
pub mod text;

pub use crate::error::{Error, FmtErrorKind};
pub use crate::event::{Event, Timespan, ViewBy};
pub use crate::events::Events;
