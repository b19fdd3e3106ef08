//! Modifiers and shapes of hold, touch-hold and slide notes.
pub mod hold;
pub mod slide;
pub mod touch_hold;
