//! Plain identifiers the display backends hand the core.

use vstd::prelude::*;

verus! {

/// Identifies one output across the backend boundary.
#[derive(Clone, Copy, Hash, PartialEq, Eq, Structural, Debug)]
pub struct OutputId {
    pub id: u64,
}

/// Which display backend the compositor should start on.
#[derive(Clone, Copy, PartialEq, Eq, Structural, Debug)]
pub enum PreferedBackend {
    X11,
    Winit,
    Udev,
    Auto,
}

/// The backend name that could not be recognized.
#[derive(Clone, PartialEq, Eq, Debug)]
pub struct PreferedBackendParseError(pub String);

impl core::str::FromStr for PreferedBackend {
    type Err = PreferedBackendParseError;

    fn from_str(s: &str) -> Result<Self, Self::Err> {
        if s == "x11" {
            Ok(Self::X11)
        } else if s == "winit" {
            Ok(Self::Winit)
        } else if s == "udev" {
            Ok(Self::Udev)
        } else if s == "auto" {
            Ok(Self::Auto)
        } else {
            Err(PreferedBackendParseError(s.to_string()))
        }
    }
}

} // verus!
