//! Depth-ordered render batching: draw calls tagged with a texture handle and a
//! depth are grouped into runs that keep the global depth order while sharing
//! texture binds between neighbouring calls.
pub mod chain;
pub mod depth;
pub mod drawer;
pub mod laws;
pub mod resources;
pub mod run;
pub mod sprite;

pub use depth::Depth;
pub use drawer::{Drawer, RunStat, Submission};
pub use resources::{DrawError, ImageKey, ResourceTable};
pub use run::{DrawCall, DrawUnit, Placement};
pub use sprite::{SpriteFinder, SpriteRect};
