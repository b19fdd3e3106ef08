//! Judgement of slides against the touch panel.
pub mod adapter;
pub mod slide;
