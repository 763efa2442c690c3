//! The parts of the configuration that the library reads.

use vstd::prelude::*;

verus! {

/// The screen edge the bar sits on.
#[derive(Debug, Clone, Copy, PartialEq, Eq, Structural)]
pub enum Position {
    Top,
    Bottom,
}

/// The layer-shell layer of the bar.
#[derive(Debug, Clone, Copy, PartialEq, Eq, Structural)]
pub enum Layer {
    Background,
    Bottom,
    Top,
    Overlay,
}

#[derive(Debug, Clone, Copy, PartialEq, Eq, Structural)]
pub struct RiverConfig {
    pub max_tag: u8,
}

#[derive(Debug, Clone, Copy, PartialEq, Eq, Structural)]
pub struct WmConfig {
    pub river: RiverConfig,
}

/// Settings of one output.
#[derive(Debug, Clone, Copy, PartialEq, Eq, Structural)]
pub struct OutputOverrides {
    pub enable: Option<bool>,
}

impl OutputOverrides {
    /// Whether the bar is shown on the output; it is unless disabled.
    pub fn enabled(&self) -> (r: bool)
        ensures
            r == match self.enable {
                Some(e) => e,
                None => true,
            },
    {
        match self.enable {
            Some(e) => e,
            None => true,
        }
    }
}

/// What an event callback asks of the event loop.
#[derive(Debug, Clone, Copy, PartialEq, Eq, Structural)]
pub enum Action {
    Keep,
    Unregister,
}

} // verus!
