//! A brightness ramp engine for a single dimmer.
//!
//! An adjustment such as `50`, `+10`, `-5%` or `80%` is read into an
//! [`Input`], mapped onto a device's range with an optional response
//! [`Curve`], and turned into a bounded sequence of levels that ends exactly
//! at the level asked for. Choosing a device and the toggle rule for binary
//! devices are here too; reading and writing devices is left to the caller.
use vstd::prelude::*;

pub mod brightness;
pub mod curve;
pub mod device;
pub mod error;
pub mod input;
pub mod range;

pub use crate::brightness::{parse_level, Brightness};
pub use crate::device::{Class, Device, Id, ToggleState};
pub use crate::error::Error;
pub use crate::input::{Amount, Input, Sign, Step};
pub use crate::curve::Curve;
pub use crate::range::{Range, MAX_ITER_DEFAULT};
