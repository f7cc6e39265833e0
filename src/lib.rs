//! Entity component storage: generation-checked entity handles over
//! recyclable slots, dense per-type component containers, and an entity store
//! that keeps every container in step with the entity lifecycle.

pub mod component;
pub mod ecs;
pub mod entity;
pub mod laws;
pub mod registry;
pub mod widget;

pub use component::ComponentData;
pub use ecs::Ecs;
pub use entity::Entity;
pub use registry::{AnyComponent, Loadout, Store};
pub use widget::{Blink, WidgetId};
