//! Native simulation core for Sandustry: chunk selection, the movement of
//! elements over the game's own world layout, and the event queue through
//! which everything beyond movement goes back to the game.
pub mod single;
pub mod view;
pub mod events;
pub mod physics;
pub mod chunk;
pub mod snapshot;
pub mod session;

pub use chunk::{
    inspect, should_process, should_process_in_column, window, Gate, Reason, Stats, Verdict,
    VerdictCache, Window,
};
pub use events::{Event, EventQueue, EventSink, NullSink, Why};
pub use physics::{update_region, Frame, Marks, Matter, MatterTable, Rng};
pub use view::{Elements, World};
