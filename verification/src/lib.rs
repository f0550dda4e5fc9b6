//! Multiplayer collaboration layer for the Lau platform: shared worlds with
//! per-player permissions, session logs of collaboration events, and a
//! matcher that pairs players by shared interests.

pub mod event;
pub mod keyed;
pub mod matcher;
pub mod permission;
pub mod session;
pub mod text;
pub mod world;

pub use event::CollabEvent;
pub use matcher::CollabMatcher;
pub use permission::Permission;
pub use session::{EventCounts, SessionLog};
pub use world::SharedWorld;
