//! A GPIO pin reached through a capability.

use vstd::prelude::*;

use crate::sel4::{CPtr, Error, GpioConfig, GpioOps, Word};

verus! {

/// The direction a pin is configured in.
#[derive(Debug, Clone, Copy, PartialEq, Eq, Structural)]
pub enum GpioDirection {
    Input,
    Output,
}

/// One pin of the fabric, with the capability that grants access to it.
#[derive(Debug)]
pub struct FpgaGpio {
    cap: CPtr,
    pin: Word,
    direction: GpioDirection,
    level: bool,
}

impl FpgaGpio {
    /// The capability this pin is reached through.
    pub closed spec fn capability(&self) -> CPtr {
        self.cap
    }

    /// A pin at level low.
    pub fn new(cap: CPtr, pin: Word, direction: GpioDirection) -> (gpio: FpgaGpio)
        ensures
            gpio.capability() == cap,
            gpio.pin_number() == pin,
            gpio.pin_direction() == direction,
            !gpio.pin_level(),
    {
        FpgaGpio { cap, pin, direction, level: false }
    }

    pub fn cap(&self) -> (cap: CPtr)
        ensures
            cap == self.capability(),
    {
        self.cap
    }

    pub fn pin(&self) -> (pin: Word)
        ensures
            pin == self.pin_number(),
    {
        self.pin
    }

    pub fn direction(&self) -> (direction: GpioDirection)
        ensures
            direction == self.pin_direction(),
    {
        self.direction
    }
}

impl GpioOps for FpgaGpio {
    closed spec fn pin_number(&self) -> Word {
        self.pin
    }

    closed spec fn pin_direction(&self) -> GpioDirection {
        self.direction
    }

    closed spec fn pin_level(&self) -> bool {
        self.level
    }

    fn configure(&mut self, config: GpioConfig) -> (r: Result<(), Error>)
        ensures
            final(self).capability() == old(self).capability(),
    {
        self.pin = config.pin;
        self.direction = config.direction;
        Ok(())
    }

    fn write(&mut self, value: bool) -> (r: Result<(), Error>)
        ensures
            final(self).capability() == old(self).capability(),
    {
        match self.direction {
            GpioDirection::Output => {
                self.level = value;
                Ok(())
            },
            GpioDirection::Input => Err(Error::PermissionDenied),
        }
    }

    fn read(&self) -> (r: Result<bool, Error>) {
        Ok(self.level)
    }
}

} // verus!
