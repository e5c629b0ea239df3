//! Capability-level types shared by the hardware-facing modules.

use vstd::prelude::*;

pub mod fpga;
pub mod fpga_config;

pub use fpga::{FpgaGpio, GpioDirection};
pub use fpga_config::{FpgaConfig, FpgaMemory, FpgaRegion, FpgaRegionMapping};

verus! {

/// A capability pointer: a slot index in a capability space.
pub type CPtr = usize;

/// One configuration word of the fabric. Its width is fixed at 32 bits so
/// that a word occupies four bytes of a region on every host.
pub type Word = u32;

/// The rights a capability carries.
#[derive(Debug, Clone, Copy, PartialEq, Eq, Structural)]
pub struct CapRights {
    pub read: bool,
    pub write: bool,
    pub grant: bool,
}

/// The pin a GPIO capability is bound to and the direction it is used in.
#[derive(Debug, Clone, Copy)]
pub struct GpioConfig {
    pub pin: Word,
    pub direction: GpioDirection,
}

/// Why a capability-gated hardware operation was refused.
#[derive(Debug, Clone, Copy, PartialEq, Eq, Structural)]
pub enum Error {
    InvalidCapability,
    PermissionDenied,
    ResourceExhausted,
}

/// Operations of a GPIO capability.
///
/// The three spec functions are the model of a pin: the pin number, the
/// direction it is configured in, and the level it last latched.
pub trait GpioOps {
    spec fn pin_number(&self) -> Word;

    spec fn pin_direction(&self) -> GpioDirection;

    spec fn pin_level(&self) -> bool;

    /// Binds the capability to `config.pin` in `config.direction`. The
    /// latched level is kept.
    fn configure(&mut self, config: GpioConfig) -> (r: Result<(), Error>)
        ensures
            r is Ok,
            final(self).pin_number() == config.pin,
            final(self).pin_direction() == config.direction,
            final(self).pin_level() == old(self).pin_level(),
    ;

    /// Latches `value` on an output pin. An input pin refuses the write and
    /// is left as it was.
    fn write(&mut self, value: bool) -> (r: Result<(), Error>)
        ensures
            final(self).pin_number() == old(self).pin_number(),
            final(self).pin_direction() == old(self).pin_direction(),
            old(self).pin_direction() == GpioDirection::Output ==> r is Ok && final(self).pin_level() == value,
            old(self).pin_direction() == GpioDirection::Input ==> r == Err::<(), Error>(
                Error::PermissionDenied,
            ) && final(self).pin_level() == old(self).pin_level(),
    ;

    /// Reads the latched level. Reading is permitted in either direction.
    fn read(&self) -> (r: Result<bool, Error>)
        ensures
            r == Ok::<bool, Error>(self.pin_level()),
    ;
}

} // verus!
