//! Pointer buttons, from Linux input event codes to the status protocol.

use vstd::prelude::*;

verus! {

pub const BTN_LEFT: u32 = 0x110;
pub const BTN_RIGHT: u32 = 0x111;
pub const BTN_MIDDLE: u32 = 0x112;
pub const BTN_FORWARD: u32 = 0x115;
pub const BTN_BACK: u32 = 0x116;

#[derive(Debug, Clone, Copy, PartialEq, Eq, Structural)]
pub enum PointerBtn {
    Left,
    Middle,
    Right,
    Forward,
    WheelUp,
    WheelDown,
    Back,
    Unknown,
}

impl Default for PointerBtn {
    fn default() -> (r: Self)
        ensures
            r == PointerBtn::Unknown,
    {
        PointerBtn::Unknown
    }
}

/// The button that an input event code names.
pub open spec fn button_of_code(code: u32) -> PointerBtn {
    if code == BTN_LEFT {
        PointerBtn::Left
    } else if code == BTN_MIDDLE {
        PointerBtn::Middle
    } else if code == BTN_RIGHT {
        PointerBtn::Right
    } else if code == BTN_FORWARD {
        PointerBtn::Forward
    } else if code == BTN_BACK {
        PointerBtn::Back
    } else {
        PointerBtn::Unknown
    }
}

impl From<u32> for PointerBtn {
    fn from(code: u32) -> (r: Self) {
        if code == BTN_LEFT {
            PointerBtn::Left
        } else if code == BTN_MIDDLE {
            PointerBtn::Middle
        } else if code == BTN_RIGHT {
            PointerBtn::Right
        } else if code == BTN_FORWARD {
            PointerBtn::Forward
        } else if code == BTN_BACK {
            PointerBtn::Back
        } else {
            PointerBtn::Unknown
        }
    }
}

impl vstd::std_specs::convert::FromSpecImpl<u32> for PointerBtn {
    open spec fn obeys_from_spec() -> bool {
        true
    }

    open spec fn from_spec(code: u32) -> PointerBtn {
        button_of_code(code)
    }
}

impl PointerBtn {
    /// The number that click events carry for this button.
    pub fn protocol_code(self) -> (r: u8)
        ensures
            r == match self {
                PointerBtn::Left => 1u8,
                PointerBtn::Middle => 2,
                PointerBtn::Right => 3,
                PointerBtn::WheelUp => 4,
                PointerBtn::WheelDown => 5,
                PointerBtn::Back => 8,
                PointerBtn::Forward => 9,
                PointerBtn::Unknown => 0,
            },
    {
        match self {
            PointerBtn::Left => 1,
            PointerBtn::Middle => 2,
            PointerBtn::Right => 3,
            PointerBtn::WheelUp => 4,
            PointerBtn::WheelDown => 5,
            PointerBtn::Forward => 9,
            PointerBtn::Back => 8,
            PointerBtn::Unknown => 0,
        }
    }
}

} // verus!
