//! Commands that delete events, toggle their type and edit their effect.
pub mod batch_delete;
pub mod common;
pub mod delete;
pub mod effect;
pub mod effect_line;
pub mod toggle;

pub use batch_delete::BatchDeleteEventsCommand;
pub use delete::DeleteEventCommand;
pub use effect::{EffectOperation, EventEffectCommand};
pub use toggle::ToggleEventTypeCommand;
