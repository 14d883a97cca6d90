//! Core of a turn-based simulation: a tick-indexed update queue that
//! repeatedly selects the next entity due for processing, invokes it, and
//! reschedules it if it asks for further processing, collecting every
//! externally observable outcome into an effect sink along the way.
//!
//! The scheduler lives in [`update`]; [`msg`] holds the structured-text
//! values an effect can carry, and [`player`] holds stub definitions for
//! the entity model.

pub mod msg;
pub mod player;
pub mod update;

pub use crate::msg::Message;
pub use crate::msg::Text;
pub use crate::update::Effect;
pub use crate::update::Updatable;
pub use crate::update::UpdateQueue;
