//! Register map and raw-word decoding for the WT901 inertial measurement
//! unit.
//!
//! The device exposes its measurements as a block of consecutive 16-bit
//! registers, read in one bulk transfer starting at the accelerometer's
//! first register. This module knows the register addresses, the byte
//! offset of each register inside such a block, and how to read the
//! little-endian words out of the raw buffer. Converting the words into
//! physical quantities is floating-point work and stays with the driver.

use vstd::prelude::*;

verus! {

/// The measurement registers of the device.
#[derive(Clone, Copy, Debug)]
pub enum Registers {
    AccX,
    AccY,
    AccZ,
    GyroX,
    GyroY,
    GyroZ,
    MagX,
    MagY,
    MagZ,
    Roll,
    Pitch,
    Yaw,
}

/// The device address of each measurement register.
pub open spec fn reg_address(r: Registers) -> int {
    match r {
        Registers::AccX => 0x34,
        Registers::AccY => 0x35,
        Registers::AccZ => 0x36,
        Registers::GyroX => 0x37,
        Registers::GyroY => 0x38,
        Registers::GyroZ => 0x39,
        Registers::MagX => 0x3a,
        Registers::MagY => 0x3b,
        Registers::MagZ => 0x3c,
        Registers::Roll => 0x3d,
        Registers::Pitch => 0x3e,
        Registers::Yaw => 0x3f,
    }
}

impl Registers {
    /// The register's bus address.
    pub fn address(&self) -> (r: u8)
        ensures
            r as int == reg_address(*self),
    {
        match self {
            Registers::AccX => 0x34,
            Registers::AccY => 0x35,
            Registers::AccZ => 0x36,
            Registers::GyroX => 0x37,
            Registers::GyroY => 0x38,
            Registers::GyroZ => 0x39,
            Registers::MagX => 0x3a,
            Registers::MagY => 0x3b,
            Registers::MagZ => 0x3c,
            Registers::Roll => 0x3d,
            Registers::Pitch => 0x3e,
            Registers::Yaw => 0x3f,
        }
    }

    /// The byte offset of this register inside a bulk read that starts at
    /// the first accelerometer register: two bytes per register.
    pub fn offset(&self) -> (r: usize)
        ensures
            r as int == 2 * (reg_address(*self) - 0x34),
    {
        ((self.address() - 0x34) * 2) as usize
    }
}

/// The unsigned little-endian 16-bit word at `offset` in `buf`.
pub fn get_vec_u16(buf: &[u8], offset: usize) -> (r: u16)
    requires
        offset + 1 < buf@.len(),
    ensures
        r as int == buf@[offset as int] + 256 * buf@[offset + 1],
{
    let lo = buf[offset] as u16;
    let hi = buf[offset + 1] as u16;
    hi * 256 + lo
}

/// The signed little-endian 16-bit word at `offset` in `buf`, in two's
/// complement.
pub fn get_vec_i16(buf: &[u8], offset: usize) -> (r: i16)
    requires
        offset + 1 < buf@.len(),
    ensures
        ({
            let raw = buf@[offset as int] + 256 * buf@[offset + 1];
            r as int == if raw < 0x8000 {
                raw
            } else {
                raw - 0x10000
            }
        }),
{
    let val = get_vec_u16(buf, offset);
    if val < 32768 {
        val as i16
    } else {
        (val as i32 - 65536) as i16
    }
}

} // verus!
