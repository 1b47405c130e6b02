//! Values written to and read from the console's memory-mapped registers.
use vstd::prelude::*;

verus! {

/// A DMA channel's control register value.
#[derive(Clone, Copy, Debug)]
pub struct DmaControl(pub u16);

impl DmaControl {
    /// No flag set.
    pub fn new() -> (r: Self)
        ensures
            r.0 == 0,
    {
        DmaControl(0)
    }

    /// Transfers 32 bits at a time.
    pub fn with_transfer_32bit(self) -> (r: Self)
        ensures
            r.0 == self.0 | 0x0400,
    {
        DmaControl(self.0 | 0x0400)
    }

    /// Enables the channel.
    pub fn with_enabled(self) -> (r: Self)
        ensures
            r.0 == self.0 | 0x8000,
    {
        DmaControl(self.0 | 0x8000)
    }

    /// The raw register value.
    pub fn to_u16(self) -> (r: u16)
        ensures
            r == self.0,
    {
        self.0
    }
}

/// The keypad register: a key's bit is clear while the key is held.
#[derive(Clone, Copy, Debug, PartialEq, Eq)]
pub struct KeyInput(pub u16);

/// The register's value with no key held.
pub const KEY_NONE: u16 = 0x03ff;
pub const KEY_A: u16 = 0x03fe;
pub const KEY_B: u16 = 0x03fd;
pub const KEY_SELECT: u16 = 0x03fb;
pub const KEY_START: u16 = 0x03f7;
pub const KEY_RIGHT: u16 = 0x03ef;
pub const KEY_LEFT: u16 = 0x03df;
pub const KEY_UP: u16 = 0x03bf;
pub const KEY_DOWN: u16 = 0x037f;
pub const KEY_R: u16 = 0x02ff;
pub const KEY_L: u16 = 0x01ff;

/// The keys held in a keypad value, one bit per key.
pub open spec fn held(k: KeyInput) -> u16 {
    KEY_NONE ^ k.0
}

impl KeyInput {
    /// Whether every key held in `other` is held in `self`.
    pub fn contains(self, other: KeyInput) -> (r: bool)
        ensures
            r == (held(self) & held(other) == held(other)),
    {
        (KEY_NONE ^ self.0) & (KEY_NONE ^ other.0) == (KEY_NONE ^ other.0)
    }
}

/// Which parts of the system a BIOS register-and-RAM reset clears.
#[derive(Clone, Copy, Debug, PartialEq, Eq)]
pub struct RegisterRamReset(pub u8);

impl RegisterRamReset {
    /// Nothing cleared.
    pub fn new() -> (r: Self)
        ensures
            r.0 == 0,
    {
        RegisterRamReset(0)
    }

    /// Clears palette memory.
    pub fn with_palette(self) -> (r: Self)
        ensures
            r.0 == self.0 | 0x04,
    {
        RegisterRamReset(self.0 | 0x04)
    }

    /// Clears video memory.
    pub fn with_vram(self) -> (r: Self)
        ensures
            r.0 == self.0 | 0x08,
    {
        RegisterRamReset(self.0 | 0x08)
    }

    /// Clears object attribute memory.
    pub fn with_oam(self) -> (r: Self)
        ensures
            r.0 == self.0 | 0x10,
    {
        RegisterRamReset(self.0 | 0x10)
    }

    /// Resets the serial registers.
    pub fn with_sio_registers(self) -> (r: Self)
        ensures
            r.0 == self.0 | 0x20,
    {
        RegisterRamReset(self.0 | 0x20)
    }

    /// Resets the sound registers.
    pub fn with_sound_registers(self) -> (r: Self)
        ensures
            r.0 == self.0 | 0x40,
    {
        RegisterRamReset(self.0 | 0x40)
    }

    /// Resets every other register.
    pub fn with_other_registers(self) -> (r: Self)
        ensures
            r.0 == self.0 | 0x80,
    {
        RegisterRamReset(self.0 | 0x80)
    }

    /// The raw value passed to the BIOS call.
    pub fn to_u8(self) -> (r: u8)
        ensures
            r == self.0,
    {
        self.0
    }
}

} // verus!
