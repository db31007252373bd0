//! A deterministic, turn-based grid-world game engine.
//!
//! The engine advances entities through a cooldown-driven scheduler,
//! resolves their actions (move / attack / wait), and computes what each
//! entity can see through a multi-ray line-of-sight oracle.

pub mod character;
pub mod context;
pub mod errors;
pub mod floor;
pub mod foundation;
pub mod ipoint;
pub mod irange;
pub mod level;
pub mod object;
pub mod pixelmap;
pub mod player;
pub mod playerdata;
pub mod pointset;
pub mod rng;
pub mod view;
pub mod visibility;
pub mod wall;
pub mod world;

pub use context::Action;
pub use context::Effects;
pub use errors::EngineError;
pub use foundation::GameState;
pub use ipoint::IPoint;
pub use irange::IITer;
pub use irange::IRange;
pub use level::Entity;
pub use level::Level;
pub use object::Color;
pub use object::Icon;
pub use object::Object;
pub use object::Pixel;
pub use pixelmap::PixelMap;
pub use playerdata::PlayerData;
pub use pointset::PointSet;
pub use view::View;
pub use world::World;
