use vstd::prelude::*;

use crate::brightness::Brightness;
use crate::device::Id;

verus! {

/// What can go wrong before any level is written.
#[derive(Debug, Clone)]
pub enum Error {
    /// The adjustment does not follow the grammar `[+|-] number [%]`.
    InvalidInput,
    /// A toggle was asked of a device with more than two levels.
    CannotToggle { id: Id, brightness: Brightness },
    /// No device was found at all.
    NoDevices,
    /// No device fits when none was named.
    SuitableDeviceNotFound,
    /// The named device is not among those found.
    SpecifiedDeviceNotFound,
    /// The device cannot be written to.
    Permission,
}

} // verus!
