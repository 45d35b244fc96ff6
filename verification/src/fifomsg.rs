//! Inter-core FIFO message frames.
//!
//! The two processor cores exchange 32-bit frames: the top 4 bits carry a
//! message identifier and the remaining 28 bits carry the payload. Each
//! message kind packs its own fields into those 28 bits. The getters and
//! setters below state exactly which bit group they read or write, as
//! plain division and remainder by powers of two.

use vstd::prelude::*;

verus! {

use vstd::arithmetic::div_mod::{lemma_fundamental_div_mod, lemma_breakdown};

/// A `u32` splits uniquely into the bits above a field, the field itself
/// (`w` values wide, starting at multiple-of-`pl` positions), and the bits
/// below it.
pub proof fn lemma_u32_decompose(x: u32, pl: int, w: int)
    requires
        pl > 0,
        w > 0,
    ensures
        x as int == (x as int / (pl * w)) * (pl * w) + ((x as int / pl) % w) * pl + (x as int % pl),
{
    assert(pl * w > 0) by (nonlinear_arith)
        requires
            pl > 0,
            w > 0,
    ;
    lemma_fundamental_div_mod(x as int, pl * w);
    lemma_breakdown(x as int, pl, w);
    let q = x as int / (pl * w);
    let f = (x as int / pl) % w;
    assert((pl * w) * q == q * (pl * w)) by (nonlinear_arith);
    assert(pl * f == f * pl) by (nonlinear_arith);
}

/// One 32-bit frame as it travels through the hardware FIFO: identifier in
/// bits 31..28, payload in bits 27..0.
#[derive(Clone, Copy, Debug, PartialEq, Eq, Structural)]
pub struct FifoMsgFrame(pub u32);

impl FifoMsgFrame {
    /// Identifier tag: bits 31..28.
    pub open spec fn spec_identifier(self) -> int {
        self.0 as int / 0x1000_0000
    }

    /// Payload: bits 27..0.
    pub open spec fn spec_payload(self) -> int {
        self.0 as int % 0x1000_0000
    }

    pub fn identifier(&self) -> (r: u8)
        ensures
            r as int == self.spec_identifier(),
    {
        let x = self.0;
        proof {
            assert(x >> 28u32 == x / 0x1000_0000u32) by (bit_vector);
            assert(x >> 28u32 < 16u32) by (bit_vector);
        }
        (x >> 28) as u8
    }

    pub fn payload(&self) -> (r: u32)
        ensures
            r as int == self.spec_payload(),
    {
        let x = self.0;
        proof {
            assert(x & 0x0FFF_FFFFu32 == x % 0x1000_0000u32) by (bit_vector);
        }
        x & 0x0FFF_FFFF
    }

    pub fn set_identifier(&mut self, v: u8)
        ensures
            final(self).spec_identifier() == v as int % 16,
            final(self).spec_payload() == old(self).spec_payload(),
    {
        let x = self.0;
        let vv = v as u32;
        let y = (x & 0x0FFF_FFFF) | ((vv & 0xF) << 28);
        proof {
            assert(y / 0x1000_0000u32 == vv % 16u32 && y % 0x1000_0000u32 == x % 0x1000_0000u32)
                by (bit_vector)
                requires
                    y == (x & 0x0FFF_FFFFu32) | ((vv & 0xFu32) << 28u32),
            ;
        }
        self.0 = y;
    }

    pub fn set_payload(&mut self, v: u32)
        ensures
            final(self).spec_identifier() == old(self).spec_identifier(),
            final(self).spec_payload() == v as int % 0x1000_0000,
    {
        let x = self.0;
        let y = (x & 0xF000_0000) | (v & 0x0FFF_FFFF);
        proof {
            assert(y / 0x1000_0000u32 == x / 0x1000_0000u32 && y % 0x1000_0000u32 == v
                % 0x1000_0000u32) by (bit_vector)
                requires
                    y == (x & 0xF000_0000u32) | (v & 0x0FFF_FFFFu32),
            ;
        }
        self.0 = y;
    }
}

/// Serial command payload: command in bits 27..24, channel in bits 23..18,
/// value in bits 17..0.
#[derive(Clone, Copy, Debug, PartialEq, Eq, Structural)]
pub struct SerialCMD(pub u32);

impl SerialCMD {
    pub open spec fn spec_cmd(self) -> int {
        (self.0 as int / 0x100_0000) % 16
    }

    pub open spec fn spec_channel(self) -> int {
        (self.0 as int / 0x4_0000) % 64
    }

    pub open spec fn spec_value(self) -> int {
        self.0 as int % 0x4_0000
    }

    pub fn cmd(&self) -> (r: u8)
        ensures
            r as int == self.spec_cmd(),
    {
        let x = self.0;
        proof {
            assert((x >> 24u32) & 0xFu32 == (x / 0x100_0000u32) % 16u32 && (x >> 24u32) & 0xFu32
                < 16u32) by (bit_vector);
        }
        ((x >> 24) & 0xF) as u8
    }

    pub fn channel(&self) -> (r: u8)
        ensures
            r as int == self.spec_channel(),
    {
        let x = self.0;
        proof {
            assert((x >> 18u32) & 0x3Fu32 == (x / 0x4_0000u32) % 64u32 && (x >> 18u32) & 0x3Fu32
                < 64u32) by (bit_vector);
        }
        ((x >> 18) & 0x3F) as u8
    }

    pub fn value(&self) -> (r: u32)
        ensures
            r as int == self.spec_value(),
    {
        let x = self.0;
        proof {
            assert(x & 0x3_FFFFu32 == x % 0x4_0000u32) by (bit_vector);
        }
        x & 0x3_FFFF
    }

    pub fn set_cmd(&mut self, v: u8)
        ensures
            final(self).0 as int / 0x1000_0000 == old(self).0 as int / 0x1000_0000,
            final(self).spec_cmd() == v as int % 16,
            final(self).0 as int % 0x100_0000 == old(self).0 as int % 0x100_0000,
    {
        let x = self.0;
        let vv = v as u32;
        let y = (x & 0xF0FF_FFFF) | ((vv & 0xF) << 24);
        proof {
            assert(y / 0x1000_0000u32 == x / 0x1000_0000u32 && (y / 0x100_0000u32) % 16u32 == vv
                % 16u32 && y % 0x100_0000u32 == x % 0x100_0000u32) by (bit_vector)
                requires
                    y == (x & 0xF0FF_FFFFu32) | ((vv & 0xFu32) << 24u32),
            ;
        }
        self.0 = y;
    }

    pub fn set_channel(&mut self, v: u8)
        ensures
            final(self).0 as int / 0x100_0000 == old(self).0 as int / 0x100_0000,
            final(self).spec_channel() == v as int % 64,
            final(self).0 as int % 0x4_0000 == old(self).0 as int % 0x4_0000,
    {
        let x = self.0;
        let vv = v as u32;
        let y = (x & 0xFF03_FFFF) | ((vv & 0x3F) << 18);
        proof {
            assert(y / 0x100_0000u32 == x / 0x100_0000u32 && (y / 0x4_0000u32) % 64u32 == vv % 64u32
                && y % 0x4_0000u32 == x % 0x4_0000u32) by (bit_vector)
                requires
                    y == (x & 0xFF03_FFFFu32) | ((vv & 0x3Fu32) << 18u32),
            ;
        }
        self.0 = y;
    }

    pub fn set_value(&mut self, v: u32)
        ensures
            final(self).0 as int / 0x4_0000 == old(self).0 as int / 0x4_0000,
            final(self).spec_value() == v as int % 0x4_0000,
    {
        let x = self.0;
        let y = (x & 0xFFFC_0000) | (v & 0x3_FFFF);
        proof {
            assert(y / 0x4_0000u32 == x / 0x4_0000u32 && y % 0x4_0000u32 == v % 0x4_0000u32)
                by (bit_vector)
                requires
                    y == (x & 0xFFFC_0000u32) | (v & 0x3_FFFFu32),
            ;
        }
        self.0 = y;
    }
}

/// PWM command payload: channel in bits 27..22, value in bits 23..0. The
/// two fields overlap in bits 23..22, exactly as the frame format defines
/// them: writing the value also overwrites the low two channel bits.
#[derive(Clone, Copy, Debug, PartialEq, Eq, Structural)]
pub struct PWMCMD(pub u32);

impl PWMCMD {
    pub open spec fn spec_channel(self) -> int {
        (self.0 as int / 0x40_0000) % 64
    }

    pub open spec fn spec_value(self) -> int {
        self.0 as int % 0x100_0000
    }

    pub fn channel(&self) -> (r: u8)
        ensures
            r as int == self.spec_channel(),
    {
        let x = self.0;
        proof {
            assert((x >> 22u32) & 0x3Fu32 == (x / 0x40_0000u32) % 64u32 && (x >> 22u32) & 0x3Fu32
                < 64u32) by (bit_vector);
        }
        ((x >> 22) & 0x3F) as u8
    }

    pub fn value(&self) -> (r: u32)
        ensures
            r as int == self.spec_value(),
    {
        let x = self.0;
        proof {
            assert(x & 0xFF_FFFFu32 == x % 0x100_0000u32) by (bit_vector);
        }
        x & 0xFF_FFFF
    }

    pub fn set_channel(&mut self, v: u8)
        ensures
            final(self).0 as int / 0x1000_0000 == old(self).0 as int / 0x1000_0000,
            final(self).spec_channel() == v as int % 64,
            final(self).0 as int % 0x40_0000 == old(self).0 as int % 0x40_0000,
    {
        let x = self.0;
        let vv = v as u32;
        let y = (x & 0xF03F_FFFF) | ((vv & 0x3F) << 22);
        proof {
            assert(y / 0x1000_0000u32 == x / 0x1000_0000u32 && (y / 0x40_0000u32) % 64u32 == vv
                % 64u32 && y % 0x40_0000u32 == x % 0x40_0000u32) by (bit_vector)
                requires
                    y == (x & 0xF03F_FFFFu32) | ((vv & 0x3Fu32) << 22u32),
            ;
        }
        self.0 = y;
    }

    pub fn set_value(&mut self, v: u32)
        ensures
            final(self).0 as int / 0x100_0000 == old(self).0 as int / 0x100_0000,
            final(self).spec_value() == v as int % 0x100_0000,
    {
        let x = self.0;
        let y = (x & 0xFF00_0000) | (v & 0xFF_FFFF);
        proof {
            assert(y / 0x100_0000u32 == x / 0x100_0000u32 && y % 0x100_0000u32 == v % 0x100_0000u32)
                by (bit_vector)
                requires
                    y == (x & 0xFF00_0000u32) | (v & 0xFF_FFFFu32),
            ;
        }
        self.0 = y;
    }
}

/// Version report payload: major in bits 27..20, minor in bits 19..12,
/// patch in bits 11..4.
#[derive(Clone, Copy, Debug, PartialEq, Eq, Structural)]
pub struct VersionCMD(pub u32);

impl VersionCMD {
    pub open spec fn spec_major(self) -> int {
        (self.0 as int / 0x10_0000) % 256
    }

    pub open spec fn spec_minor(self) -> int {
        (self.0 as int / 0x1000) % 256
    }

    pub open spec fn spec_patch(self) -> int {
        (self.0 as int / 16) % 256
    }

    pub fn major(&self) -> (r: u8)
        ensures
            r as int == self.spec_major(),
    {
        let x = self.0;
        proof {
            assert((x >> 20u32) & 0xFFu32 == (x / 0x10_0000u32) % 256u32 && (x >> 20u32) & 0xFFu32
                < 256u32) by (bit_vector);
        }
        ((x >> 20) & 0xFF) as u8
    }

    pub fn minor(&self) -> (r: u8)
        ensures
            r as int == self.spec_minor(),
    {
        let x = self.0;
        proof {
            assert((x >> 12u32) & 0xFFu32 == (x / 0x1000u32) % 256u32 && (x >> 12u32) & 0xFFu32
                < 256u32) by (bit_vector);
        }
        ((x >> 12) & 0xFF) as u8
    }

    pub fn patch(&self) -> (r: u8)
        ensures
            r as int == self.spec_patch(),
    {
        let x = self.0;
        proof {
            assert((x >> 4u32) & 0xFFu32 == (x / 16u32) % 256u32 && (x >> 4u32) & 0xFFu32 < 256u32)
                by (bit_vector);
        }
        ((x >> 4) & 0xFF) as u8
    }

    pub fn set_major(&mut self, v: u8)
        ensures
            final(self).0 as int / 0x1000_0000 == old(self).0 as int / 0x1000_0000,
            final(self).spec_major() == v as int,
            final(self).0 as int % 0x10_0000 == old(self).0 as int % 0x10_0000,
    {
        let x = self.0;
        let vv = v as u32;
        let y = (x & 0xF00F_FFFF) | ((vv & 0xFF) << 20);
        proof {
            assert(y / 0x1000_0000u32 == x / 0x1000_0000u32 && (y / 0x10_0000u32) % 256u32 == vv
                % 256u32 && y % 0x10_0000u32 == x % 0x10_0000u32 && vv % 256u32 == vv)
                by (bit_vector)
                requires
                    y == (x & 0xF00F_FFFFu32) | ((vv & 0xFFu32) << 20u32),
                    vv < 256u32,
            ;
        }
        self.0 = y;
    }

    pub fn set_minor(&mut self, v: u8)
        ensures
            final(self).0 as int / 0x10_0000 == old(self).0 as int / 0x10_0000,
            final(self).spec_minor() == v as int,
            final(self).0 as int % 0x1000 == old(self).0 as int % 0x1000,
    {
        let x = self.0;
        let vv = v as u32;
        let y = (x & 0xFFF0_0FFF) | ((vv & 0xFF) << 12);
        proof {
            assert(y / 0x10_0000u32 == x / 0x10_0000u32 && (y / 0x1000u32) % 256u32 == vv % 256u32
                && y % 0x1000u32 == x % 0x1000u32 && vv % 256u32 == vv) by (bit_vector)
                requires
                    y == (x & 0xFFF0_0FFFu32) | ((vv & 0xFFu32) << 12u32),
                    vv < 256u32,
            ;
        }
        self.0 = y;
    }

    pub fn set_patch(&mut self, v: u8)
        ensures
            final(self).0 as int / 0x1000 == old(self).0 as int / 0x1000,
            final(self).spec_patch() == v as int,
            final(self).0 as int % 16 == old(self).0 as int % 16,
    {
        let x = self.0;
        let vv = v as u32;
        let y = (x & 0xFFFF_F00F) | ((vv & 0xFF) << 4);
        proof {
            assert(y / 0x1000u32 == x / 0x1000u32 && (y / 16u32) % 256u32 == vv % 256u32 && y
                % 16u32 == x % 16u32 && vv % 256u32 == vv) by (bit_vector)
                requires
                    y == (x & 0xFFFF_F00Fu32) | ((vv & 0xFFu32) << 4u32),
                    vv < 256u32,
            ;
        }
        self.0 = y;
    }
}

/// LED command payload: the command code fills bits 27..0.
#[derive(Clone, Copy, Debug, PartialEq, Eq, Structural)]
pub struct LedCMD(pub u32);

impl LedCMD {
    pub open spec fn spec_cmd(self) -> int {
        self.0 as int % 0x1000_0000
    }

    pub fn cmd(&self) -> (r: u32)
        ensures
            r as int == self.spec_cmd(),
    {
        let x = self.0;
        proof {
            assert(x & 0x0FFF_FFFFu32 == x % 0x1000_0000u32) by (bit_vector);
        }
        x & 0x0FFF_FFFF
    }

    pub fn set_cmd(&mut self, v: u32)
        ensures
            final(self).0 as int / 0x1000_0000 == old(self).0 as int / 0x1000_0000,
            final(self).spec_cmd() == v as int % 0x1000_0000,
    {
        let x = self.0;
        let y = (x & 0xF000_0000) | (v & 0x0FFF_FFFF);
        proof {
            assert(y / 0x1000_0000u32 == x / 0x1000_0000u32 && y % 0x1000_0000u32 == v
                % 0x1000_0000u32) by (bit_vector)
                requires
                    y == (x & 0xF000_0000u32) | (v & 0x0FFF_FFFFu32),
            ;
        }
        self.0 = y;
    }
}

/// Tag carried in a frame's top four bits, naming the message kind.
#[derive(Clone, Copy, Debug, PartialEq, Eq, Structural)]
pub enum FifoMsgIdentifier {
    SerialCMD,
    VersionCMD,
    PWMCMD,
    LedCMD,
}

/// The numeric code of an identifier tag, as it appears on the wire.
pub open spec fn ident_code(id: FifoMsgIdentifier) -> int {
    match id {
        FifoMsgIdentifier::SerialCMD => 0,
        FifoMsgIdentifier::VersionCMD => 1,
        FifoMsgIdentifier::PWMCMD => 2,
        FifoMsgIdentifier::LedCMD => 3,
    }
}

impl FifoMsgIdentifier {
    /// Wire code of this identifier.
    pub fn to_u8(self) -> (r: u8)
        ensures
            r as int == ident_code(self),
    {
        match self {
            FifoMsgIdentifier::SerialCMD => 0,
            FifoMsgIdentifier::VersionCMD => 1,
            FifoMsgIdentifier::PWMCMD => 2,
            FifoMsgIdentifier::LedCMD => 3,
        }
    }

    /// The identifier with wire code `value`, or an error for any of the
    /// codes that name no message kind.
    pub fn try_from(value: u8) -> (r: Result<FifoMsgIdentifier, ()>)
        ensures
            match r {
                Ok(id) => ident_code(id) == value as int,
                Err(_) => value >= 4,
            },
    {
        match value {
            0 => Ok(FifoMsgIdentifier::SerialCMD),
            1 => Ok(FifoMsgIdentifier::VersionCMD),
            2 => Ok(FifoMsgIdentifier::PWMCMD),
            3 => Ok(FifoMsgIdentifier::LedCMD),
            _ => Err(()),
        }
    }
}

/// A decoded frame: the payload interpreted according to the identifier,
/// or the raw payload when the identifier names no known kind.
#[derive(Clone, Copy, Debug, PartialEq, Eq, Structural)]
pub enum FifoMessageKind {
    SerialCMD(SerialCMD),
    PWMCMD(PWMCMD),
    VersionCMD(VersionCMD),
    LedCMD(LedCMD),
    Unknown(u32),
}

/// The kind of serial text command a received line asks for.
#[derive(Clone, Copy, Debug, PartialEq, Eq, Structural)]
pub enum SerialCommandType {
    Pwm,
    Cfg,
    Version,
    Led,
}

/// The numeric code of a serial command type.
pub open spec fn serial_cmd_code(c: SerialCommandType) -> int {
    match c {
        SerialCommandType::Pwm => 0,
        SerialCommandType::Cfg => 1,
        SerialCommandType::Version => 2,
        SerialCommandType::Led => 3,
    }
}

impl SerialCommandType {
    /// Numeric code of this command type.
    pub fn to_u8(self) -> (r: u8)
        ensures
            r as int == serial_cmd_code(self),
    {
        match self {
            SerialCommandType::Pwm => 0,
            SerialCommandType::Cfg => 1,
            SerialCommandType::Version => 2,
            SerialCommandType::Led => 3,
        }
    }

    /// The command type with numeric code `value`, or an error for codes
    /// that name none.
    pub fn try_from(value: u8) -> (r: Result<SerialCommandType, ()>)
        ensures
            match r {
                Ok(c) => serial_cmd_code(c) == value as int,
                Err(_) => value >= 4,
            },
    {
        match value {
            0 => Ok(SerialCommandType::Pwm),
            1 => Ok(SerialCommandType::Cfg),
            2 => Ok(SerialCommandType::Version),
            3 => Ok(SerialCommandType::Led),
            _ => Err(()),
        }
    }
}

/// A message type that can travel through the inter-core FIFO: it knows
/// its identifier tag and packs itself into a 28-bit payload.
pub trait FifoMessageDef: Sized {
    /// The identifier tag of this message type.
    spec fn spec_ident() -> FifoMsgIdentifier;

    /// The payload word this message packs into.
    spec fn spec_as_u32(&self) -> u32;

    /// The identifier tag of this message type.
    fn ident() -> (r: FifoMsgIdentifier)
        ensures
            r == Self::spec_ident(),
    ;

    /// The raw payload word.
    fn as_u32(&self) -> (r: u32)
        ensures
            r == self.spec_as_u32(),
    ;

    /// The message whose payload word is `payload`.
    fn decode(payload: u32) -> (r: Self)
        ensures
            r.spec_as_u32() == payload,
    ;

    /// Packs the message into a frame: the type's identifier in the top
    /// four bits, the payload word (truncated to 28 bits) below.
    fn encode(&self) -> (r: FifoMsgFrame)
        ensures
            r.spec_identifier() == ident_code(Self::spec_ident()),
            r.spec_payload() == self.spec_as_u32() as int % 0x1000_0000,
    {
        let mut frame = FifoMsgFrame(0);
        frame.set_identifier(Self::ident().to_u8());
        frame.set_payload(self.as_u32());
        frame
    }
}

impl FifoMessageDef for SerialCMD {
    open spec fn spec_ident() -> FifoMsgIdentifier {
        FifoMsgIdentifier::SerialCMD
    }

    open spec fn spec_as_u32(&self) -> u32 {
        self.0
    }

    fn ident() -> FifoMsgIdentifier {
        FifoMsgIdentifier::SerialCMD
    }

    fn as_u32(&self) -> u32 {
        self.0
    }

    fn decode(payload: u32) -> Self {
        SerialCMD(payload)
    }
}

impl FifoMessageDef for PWMCMD {
    open spec fn spec_ident() -> FifoMsgIdentifier {
        FifoMsgIdentifier::PWMCMD
    }

    open spec fn spec_as_u32(&self) -> u32 {
        self.0
    }

    fn ident() -> FifoMsgIdentifier {
        FifoMsgIdentifier::PWMCMD
    }

    fn as_u32(&self) -> u32 {
        self.0
    }

    fn decode(payload: u32) -> Self {
        PWMCMD(payload)
    }
}

impl FifoMessageDef for VersionCMD {
    open spec fn spec_ident() -> FifoMsgIdentifier {
        FifoMsgIdentifier::VersionCMD
    }

    open spec fn spec_as_u32(&self) -> u32 {
        self.0
    }

    fn ident() -> FifoMsgIdentifier {
        FifoMsgIdentifier::VersionCMD
    }

    fn as_u32(&self) -> u32 {
        self.0
    }

    fn decode(payload: u32) -> Self {
        VersionCMD(payload)
    }
}

impl FifoMessageDef for LedCMD {
    open spec fn spec_ident() -> FifoMsgIdentifier {
        FifoMsgIdentifier::LedCMD
    }

    open spec fn spec_as_u32(&self) -> u32 {
        self.0
    }

    fn ident() -> FifoMsgIdentifier {
        FifoMsgIdentifier::LedCMD
    }

    fn as_u32(&self) -> u32 {
        self.0
    }

    fn decode(payload: u32) -> Self {
        LedCMD(payload)
    }
}

/// What decoding a frame yields: the payload wrapped in the message kind
/// that the identifier tag names, or `Unknown` with the raw payload.
pub open spec fn spec_decode_fifo_msg(f: FifoMsgFrame) -> FifoMessageKind {
    let p = (f.spec_payload() as u32);
    if f.spec_identifier() == 0 {
        FifoMessageKind::SerialCMD(SerialCMD(p))
    } else if f.spec_identifier() == 1 {
        FifoMessageKind::VersionCMD(VersionCMD(p))
    } else if f.spec_identifier() == 2 {
        FifoMessageKind::PWMCMD(PWMCMD(p))
    } else if f.spec_identifier() == 3 {
        FifoMessageKind::LedCMD(LedCMD(p))
    } else {
        FifoMessageKind::Unknown(p)
    }
}

/// Interprets `payload` according to the already-recognized identifier.
pub fn decode_by_id(id: FifoMsgIdentifier, payload: u32) -> (r: FifoMessageKind)
    ensures
        match r {
            FifoMessageKind::SerialCMD(c) => id == FifoMsgIdentifier::SerialCMD && c.0 == payload,
            FifoMessageKind::PWMCMD(c) => id == FifoMsgIdentifier::PWMCMD && c.0 == payload,
            FifoMessageKind::VersionCMD(c) => id == FifoMsgIdentifier::VersionCMD && c.0 == payload,
            FifoMessageKind::LedCMD(c) => id == FifoMsgIdentifier::LedCMD && c.0 == payload,
            FifoMessageKind::Unknown(_) => false,
        },
{
    match id {
        FifoMsgIdentifier::SerialCMD => FifoMessageKind::SerialCMD(SerialCMD::decode(payload)),
        FifoMsgIdentifier::PWMCMD => FifoMessageKind::PWMCMD(PWMCMD::decode(payload)),
        FifoMsgIdentifier::VersionCMD => FifoMessageKind::VersionCMD(VersionCMD::decode(payload)),
        FifoMsgIdentifier::LedCMD => FifoMessageKind::LedCMD(LedCMD::decode(payload)),
    }
}

/// Decodes one received frame into the message it carries.
pub fn decode_fifo_msg(frame: FifoMsgFrame) -> (r: FifoMessageKind)
    ensures
        r == spec_decode_fifo_msg(frame),
{
    let payload = frame.payload();
    match FifoMsgIdentifier::try_from(frame.identifier()) {
        Ok(id) => decode_by_id(id, payload),
        Err(_) => FifoMessageKind::Unknown(payload),
    }
}

/// `b` is an ASCII decimal digit.
pub open spec fn is_digit(b: u8) -> bool {
    48 <= b <= 57
}

/// Every byte of `s` is an ASCII decimal digit.
pub open spec fn all_digits(s: Seq<u8>) -> bool {
    forall|i: int| 0 <= i < s.len() ==> is_digit(#[trigger] s[i])
}

/// The number written in decimal by the digit bytes of `s` (leading zeros
/// allowed; meaningful when `all_digits(s)` holds).
pub open spec fn digits_val(s: Seq<u8>) -> int
    decreases s.len(),
{
    if s.len() == 0 {
        0
    } else {
        10 * digits_val(s.drop_last()) + (s.last() - 48)
    }
}

proof fn lemma_digits_val_nonneg(s: Seq<u8>)
    requires
        all_digits(s),
    ensures
        digits_val(s) >= 0,
    decreases s.len(),
{
    if s.len() > 0 {
        assert(all_digits(s.drop_last()));
        lemma_digits_val_nonneg(s.drop_last());
    }
}

/// `s` spells a number no larger than `max` in decimal.
pub open spec fn parses_uint(s: Seq<u8>, max: int) -> bool {
    s.len() > 0 && all_digits(s) && digits_val(s) <= max
}

/// Position of the first `sep` at or after `from`, or the length of `s`
/// when there is none.
pub open spec fn index_of_from(s: Seq<u8>, sep: u8, from: int) -> int
    decreases s.len() - from,
{
    if from < 0 || from >= s.len() {
        s.len() as int
    } else if s[from] == sep {
        from
    } else {
        index_of_from(s, sep, from + 1)
    }
}

proof fn lemma_index_of_from(s: Seq<u8>, sep: u8, from: int)
    requires
        0 <= from <= s.len(),
    ensures
        from <= index_of_from(s, sep, from) <= s.len(),
        index_of_from(s, sep, from) < s.len() ==> s[index_of_from(s, sep, from)] == sep,
        forall|k: int| from <= k < index_of_from(s, sep, from) ==> s[k] != sep,
    decreases s.len() - from,
{
    if from < s.len() && s[from] != sep {
        lemma_index_of_from(s, sep, from + 1);
    }
}

/// Position of the first `sep` at or after `from`, or the length of `s`.
fn find_from(s: &Vec<u8>, sep: u8, from: usize) -> (r: usize)
    requires
        from <= s@.len(),
    ensures
        r as int == index_of_from(s@, sep, from as int),
        from <= r <= s@.len(),
{
    proof {
        lemma_index_of_from(s@, sep, from as int);
    }
    let n = s.len();
    let mut i = from;
    while i < n
        invariant
            from <= i <= n,
            n == s@.len(),
            index_of_from(s@, sep, from as int) == index_of_from(s@, sep, i as int),
        decreases n - i,
    {
        if s[i] == sep {
            return i;
        }
        i = i + 1;
    }
    n
}

/// Parses the decimal number in `s[from..to]`, rejecting empty or
/// non-digit input and any value above `max`.
fn parse_uint(s: &Vec<u8>, from: usize, to: usize, max: u32) -> (r: Option<u32>)
    requires
        from <= to <= s@.len(),
    ensures
        match r {
            Some(v) => parses_uint(s@.subrange(from as int, to as int), max as int) && v as int
                == digits_val(s@.subrange(from as int, to as int)) && v <= max,
            None => !parses_uint(s@.subrange(from as int, to as int), max as int),
        },
{
    if from == to {
        return None;
    }
    let ghost whole = s@.subrange(from as int, to as int);
    let mut acc: u32 = 0;
    let mut i = from;
    while i < to
        invariant
            from <= i <= to <= s@.len(),
            whole == s@.subrange(from as int, to as int),
            all_digits(s@.subrange(from as int, i as int)),
            acc as int == digits_val(s@.subrange(from as int, i as int)),
            acc <= max,
        decreases to - i,
    {
        let b = s[i];
        let ghost pre = s@.subrange(from as int, i as int);
        let ghost cur = s@.subrange(from as int, i as int + 1);
        proof {
            assert(cur.drop_last() =~= pre);
            assert(cur.last() == s@[i as int]);
        }
        if b < 48 || b > 57 {
            proof {
                assert(whole[i - from] == s@[i as int]);
                assert(!all_digits(whole));
            }
            return None;
        }
        let d = (b - 48) as u32;
        let next = acc as u64 * 10 + d as u64;
        if next > max as u64 {
            proof {
                assert(digits_val(cur) > max);
                assert(whole =~= s@.subrange(from as int, to as int));
                assert(all_digits(cur)) by {
                    assert(forall|k: int|
                        0 <= k < cur.len() - 1 ==> cur[k] == pre[k] && is_digit(#[trigger] cur[k]));
                }
                assert forall|k: int| 0 <= k < whole.len() implies is_digit(#[trigger] whole[k]) || !all_digits(
                    whole,
                ) by {}
                if all_digits(whole) {
                    // The value only grows with more digits, so the whole
                    // number exceeds max as well.
                    lemma_digits_subrange_mono(s@, from as int, i as int + 1, to as int);
                    assert(digits_val(whole) > max);
                }
            }
            return None;
        }
        acc = next as u32;
        i = i + 1;
    }
    Some(acc)
}

/// Digit-string values grow (weakly) with the string, measured on
/// subranges of a common sequence.
proof fn lemma_digits_subrange_mono(s: Seq<u8>, from: int, i: int, j: int)
    requires
        0 <= from <= i <= j <= s.len(),
        all_digits(s.subrange(from, j)),
    ensures
        digits_val(s.subrange(from, i)) <= digits_val(s.subrange(from, j)),
    decreases j - i,
{
    if i < j {
        lemma_digits_subrange_mono(s, from, i, j - 1);
        let t = s.subrange(from, j);
        assert(t.drop_last() =~= s.subrange(from, j - 1));
        assert(all_digits(t.drop_last()));
        lemma_digits_val_nonneg(t.drop_last());
    }
}

/// The frame a PWM command packs into: identifier 2, channel and value
/// overlaid as `PWMCMD` lays them out (writing the value overwrites the
/// low two channel bits, so only the channel's high four bits survive).
pub open spec fn mk_pwm_frame(ch: int, v: int) -> FifoMsgFrame {
    FifoMsgFrame((2 * 0x1000_0000 + ((ch % 64) / 4) * 0x100_0000 + v % 0x100_0000) as u32)
}

/// The frame a version report packs into: identifier 1, then major, minor
/// and patch in descending bit groups.
pub open spec fn mk_version_frame(major: int, minor: int, patch: int) -> FifoMsgFrame {
    FifoMsgFrame((0x1000_0000 + major * 0x10_0000 + minor * 0x1000 + patch * 16) as u32)
}

/// The frame an LED command packs into: identifier 3 over the raw code.
pub open spec fn mk_led_frame(code: int) -> FifoMsgFrame {
    FifoMsgFrame((3 * 0x1000_0000 + code % 0x1000_0000) as u32)
}

/// Builds the PWM frame for one channel/value pair.
fn make_pwm_frame(channel: u8, value: u32) -> (r: FifoMsgFrame)
    ensures
        r == mk_pwm_frame(channel as int, value as int),
{
    let mut pwmcmd = PWMCMD(0);
    pwmcmd.set_channel(channel);
    proof {
        lemma_u32_decompose(pwmcmd.0, 0x40_0000, 64);
        assert(pwmcmd.0 as int == (channel as int % 64) * 0x40_0000);
    }
    pwmcmd.set_value(value);
    proof {
        lemma_u32_decompose(pwmcmd.0, 0x100_0000, 256);
        let c = channel as int % 64;
        assert((c * 0x40_0000) / 0x100_0000 == c / 4 && (c * 0x40_0000) % 0x100_0000 == (c % 4)
            * 0x40_0000) by (nonlinear_arith)
            requires
                0 <= c < 64,
        ;
        assert(pwmcmd.0 as int / 0x1_0000_0000 == 0);
        assert(pwmcmd.0 as int == (c / 4) * 0x100_0000 + value as int % 0x100_0000);
    }
    let mut frame = FifoMsgFrame(0);
    frame.set_identifier(FifoMsgIdentifier::PWMCMD.to_u8());
    frame.set_payload(pwmcmd.0);
    proof {
        lemma_u32_decompose(frame.0, 0x1000_0000, 16);
        assert(frame.0 as int / 0x1_0000_0000 == 0);
    }
    frame
}

/// Builds the version report frame.
fn make_version_frame(major: u8, minor: u8, patch: u8) -> (r: FifoMsgFrame)
    ensures
        r == mk_version_frame(major as int, minor as int, patch as int),
{
    let mut version_cmd = VersionCMD(0);
    version_cmd.set_major(major);
    proof {
        lemma_u32_decompose(version_cmd.0, 0x10_0000, 256);
        assert(version_cmd.0 as int / 0x1000_0000 * 0x1000_0000 + version_cmd.0 as int
            % 0x1000_0000 == version_cmd.0 as int) by {
            lemma_fundamental_div_mod(version_cmd.0 as int, 0x1000_0000);
        }
        assert(version_cmd.0 as int == (major as int) * 0x10_0000);
    }
    version_cmd.set_minor(minor);
    proof {
        lemma_u32_decompose(version_cmd.0, 0x1000, 256);
        assert(((major as int) * 0x10_0000) / 0x10_0000 == major as int && ((major as int)
            * 0x10_0000) % 0x10_0000 == 0) by (nonlinear_arith)
            requires
                0 <= (major as int) && (major as int) < 256,
        ;
        assert(version_cmd.0 as int / 0x10_0000 == major as int);
        assert(version_cmd.0 as int == (major as int) * 0x10_0000 + (minor as int) * 0x1000);
    }
    version_cmd.set_patch(patch);
    proof {
        lemma_u32_decompose(version_cmd.0, 16, 256);
        let m2 = (major as int) * 0x10_0000 + (minor as int) * 0x1000;
        assert(m2 / 0x1000 == (major as int) * 0x100 + minor as int && m2 % 0x1000 == 0)
            by (nonlinear_arith)
            requires
                m2 == (major as int) * 0x10_0000 + (minor as int) * 0x1000,
                0 <= (major as int) && (major as int) < 256,
                0 <= (minor as int) && (minor as int) < 256,
        ;
        assert(version_cmd.0 as int == (major as int) * 0x10_0000 + (minor as int) * 0x1000 + (
        patch as int) * 16);
    }
    let mut frame = FifoMsgFrame(0);
    frame.set_identifier(FifoMsgIdentifier::VersionCMD.to_u8());
    frame.set_payload(version_cmd.0);
    proof {
        lemma_u32_decompose(frame.0, 0x1000_0000, 16);
        assert(frame.0 as int / 0x1_0000_0000 == 0);
    }
    frame
}

/// Builds the LED frame for one command code.
fn make_led_frame(code: u32) -> (r: FifoMsgFrame)
    ensures
        r == mk_led_frame(code as int),
{
    let mut led = LedCMD(0);
    led.set_cmd(code);
    proof {
        lemma_fundamental_div_mod(led.0 as int, 0x1000_0000);
        assert(led.0 as int == code as int % 0x1000_0000);
    }
    let mut frame = FifoMsgFrame(0);
    frame.set_identifier(FifoMsgIdentifier::LedCMD.to_u8());
    frame.set_payload(led.0);
    proof {
        lemma_u32_decompose(frame.0, 0x1000_0000, 16);
        assert(frame.0 as int / 0x1_0000_0000 == 0);
    }
    frame
}

/// One `channel:value` piece of a PWM command, delimited by `[from, to)`:
/// exactly one colon, a channel up to 255 before it, a value up to
/// `u32::MAX` after it.
pub open spec fn parse_pwm_pair(s: Seq<u8>, from: int, to: int) -> Option<FifoMsgFrame> {
    let colon = index_of_from(s, (':' as u8), from);
    if colon >= to {
        None
    } else if index_of_from(s, (':' as u8), colon + 1) < to {
        None
    } else {
        let cs = s.subrange(from, colon);
        let vs = s.subrange(colon + 1, to);
        if parses_uint(cs, 255) && parses_uint(vs, u32::MAX as int) {
            Some(mk_pwm_frame(digits_val(cs), digits_val(vs)))
        } else {
            None
        }
    }
}

/// The comma-separated list of PWM pairs starting at `from`: one frame per
/// pair, or nothing if any piece is malformed.
pub open spec fn parse_pwm_from(s: Seq<u8>, from: int) -> Option<Seq<FifoMsgFrame>>
    decreases s.len() - from,
        via parse_pwm_from_decreases
{
    let comma = index_of_from(s, (',' as u8), from);
    match parse_pwm_pair(s, from, comma) {
        None => None,
        Some(f) => if comma >= s.len() {
            Some(seq![f])
        } else {
            match parse_pwm_from(s, comma + 1) {
                None => None,
                Some(rest) => Some(seq![f] + rest),
            }
        },
    }
}

#[via_fn]
proof fn parse_pwm_from_decreases(s: Seq<u8>, from: int) {
    if 0 <= from <= s.len() {
        lemma_index_of_from(s, (',' as u8), from);
    }
}

/// `s` begins with `p`.
pub open spec fn starts_with(s: Seq<u8>, p: Seq<u8>) -> bool {
    p.len() <= s.len() && s.subrange(0, p.len() as int) == p
}

/// The LED command code a body selects: `ON` switches on, `TOGGLE`
/// toggles, anything else (including `OFF`) leaves the code at zero.
pub open spec fn led_code(body: Seq<u8>) -> int {
    if body == seq![('O' as u8), ('N' as u8)] {
        1
    } else if body == seq![('T' as u8), ('O' as u8), ('G' as u8), ('G' as u8), ('L' as u8), ('E' as u8)] {
        2
    } else {
        0
    }
}

/// The command type a received line names, by its prefix: `PWM`, `CFG`,
/// `VER` or `LED`, tried in that order.
pub open spec fn spec_command_type(s: Seq<u8>) -> Result<SerialCommandType, ()> {
    if starts_with(s, seq![('P' as u8), ('W' as u8), ('M' as u8)]) {
        Ok(SerialCommandType::Pwm)
    } else if starts_with(s, seq![('C' as u8), ('F' as u8), ('G' as u8)]) {
        Ok(SerialCommandType::Cfg)
    } else if starts_with(s, seq![('V' as u8), ('E' as u8), ('R' as u8)]) {
        Ok(SerialCommandType::Version)
    } else if starts_with(s, seq![('L' as u8), ('E' as u8), ('D' as u8)]) {
        Ok(SerialCommandType::Led)
    } else {
        Err(())
    }
}

impl SerialCommandType {
    /// The command type a received line names, or an error when no known
    /// prefix matches.
    pub fn try_from_bytes(s: &Vec<u8>) -> (r: Result<SerialCommandType, ()>)
        ensures
            r == spec_command_type(s@),
            r is Ok ==> s@.len() >= 3,
    {
        if s.len() < 3 {
            return Err(());
        }
        let (a, b, c) = (s[0], s[1], s[2]);
        proof {
            assert(s@.subrange(0, 3) =~= seq![s@[0], s@[1], s@[2]]);
        }
        if a == 80 && b == 87 && c == 77 {
            proof {
                assert(s@.subrange(0, 3) =~= seq![('P' as u8), ('W' as u8), ('M' as u8)]);
            }
            Ok(SerialCommandType::Pwm)
        } else if a == 67 && b == 70 && c == 71 {
            proof {
                assert(s@.subrange(0, 3) =~= seq![('C' as u8), ('F' as u8), ('G' as u8)]);
            }
            Ok(SerialCommandType::Cfg)
        } else if a == 86 && b == 69 && c == 82 {
            proof {
                assert(s@.subrange(0, 3) =~= seq![('V' as u8), ('E' as u8), ('R' as u8)]);
            }
            Ok(SerialCommandType::Version)
        } else if a == 76 && b == 69 && c == 68 {
            proof {
                assert(s@.subrange(0, 3) =~= seq![('L' as u8), ('E' as u8), ('D' as u8)]);
            }
            Ok(SerialCommandType::Led)
        } else {
            Err(())
        }
    }
}

/// What a received text command encodes to:
/// - `PWM` followed by comma-separated `channel:value` pairs yields one
///   PWM frame per pair;
/// - `CFG` is recognized but carries nothing;
/// - `VER` yields one version frame carrying the firmware version;
/// - `LED:` followed by a code word yields one LED frame;
/// - anything else is rejected.
pub open spec fn spec_encode_cmd(s: Seq<u8>, major: u8, minor: u8, patch: u8) -> Option<
    Seq<FifoMsgFrame>,
> {
    match spec_command_type(s) {
        Ok(SerialCommandType::Pwm) => parse_pwm_from(s, 3),
        Ok(SerialCommandType::Cfg) => None,
        Ok(SerialCommandType::Version) => Some(
            seq![mk_version_frame(major as int, minor as int, patch as int)],
        ),
        Ok(SerialCommandType::Led) => if s.len() >= 4 && s[3] == (':' as u8) {
            Some(seq![mk_led_frame(led_code(s.skip(4)))])
        } else {
            None
        },
        Err(_) => None,
    }
}

/// Parses one `channel:value` piece in `s[from..to]`.
fn parse_pwm_pair_exec(s: &Vec<u8>, from: usize, to: usize) -> (r: Option<FifoMsgFrame>)
    requires
        from <= to <= s@.len(),
    ensures
        match r {
            Some(f) => parse_pwm_pair(s@, from as int, to as int) == Some(f),
            None => parse_pwm_pair(s@, from as int, to as int) is None,
        },
{
    let colon = find_from(s, (':' as u8), from);
    if colon >= to {
        return None;
    }
    let second = find_from(s, (':' as u8), colon + 1);
    if second < to {
        return None;
    }
    let channel = match parse_uint(s, from, colon, 255) {
        Some(v) => v,
        None => {
            return None;
        },
    };
    let value = match parse_uint(s, colon + 1, to, u32::MAX) {
        Some(v) => v,
        None => {
            return None;
        },
    };
    Some(make_pwm_frame(channel as u8, value))
}

/// Routes one received command line into FIFO frames.
///
/// The firmware's own version triple is passed in by the caller, which
/// knows it from its build; it fills the frame a `VER` command asks for.
pub fn encode_cmd(s: &Vec<u8>, major: u8, minor: u8, patch: u8) -> (r: Option<Vec<FifoMsgFrame>>)
    ensures
        match r {
            Some(frames) => spec_encode_cmd(s@, major, minor, patch) == Some(frames@),
            None => spec_encode_cmd(s@, major, minor, patch) is None,
        },
{
    let n = s.len();
    let cmd_type = match SerialCommandType::try_from_bytes(s) {
        Ok(c) => c,
        Err(_) => {
            return None;
        },
    };
    match cmd_type {
        SerialCommandType::Pwm => {
            let mut frames: Vec<FifoMsgFrame> = Vec::new();
            let mut pos: usize = 3;
            loop
                invariant
                    3 <= pos <= s@.len(),
                    n == s@.len(),
                    spec_encode_cmd(s@, major, minor, patch) == parse_pwm_from(s@, 3),
                    match parse_pwm_from(s@, pos as int) {
                        Some(rest) => parse_pwm_from(s@, 3) == Some(frames@ + rest),
                        None => parse_pwm_from(s@, 3) is None,
                    },
                decreases s@.len() - pos,
            {
                let comma = find_from(s, (',' as u8), pos);
                let f = match parse_pwm_pair_exec(s, pos, comma) {
                    Some(f) => f,
                    None => {
                        return None;
                    },
                };
                frames.push(f);
                if comma == n {
                    proof {
                        assert(parse_pwm_from(s@, pos as int) == Some(seq![f]));
                        assert(frames@ =~= frames@.drop_last() + seq![f]);
                    }
                    return Some(frames);
                }
                proof {
                    let rest0 = parse_pwm_from(s@, pos as int);
                    let restn = parse_pwm_from(s@, comma as int + 1);
                    match restn {
                        Some(rest) => {
                            assert(rest0 == Some(seq![f] + rest));
                            assert(frames@.drop_last() + (seq![f] + rest) =~= frames@ + rest);
                        },
                        None => {
                            assert(rest0 is None);
                        },
                    }
                }
                pos = comma + 1;
            }
        },
        SerialCommandType::Cfg => None,
        SerialCommandType::Version => {
            let mut frames: Vec<FifoMsgFrame> = Vec::new();
            frames.push(make_version_frame(major, minor, patch));
            proof {
                assert(frames@ =~= seq![mk_version_frame(major as int, minor as int, patch as int)]);
            }
            Some(frames)
        },
        SerialCommandType::Led => {
            if n >= 4 && s[3] == (':' as u8) {
                let code: u32 = if n == 6 && s[4] == ('O' as u8) && s[5] == ('N' as u8) {
                    proof {
                        assert(s@.skip(4) =~= seq![('O' as u8), ('N' as u8)]);
                    }
                    1
                } else if n == 10 && s[4] == ('T' as u8) && s[5] == ('O' as u8) && s[6] == ('G' as u8) && s[7] == ('G' as u8) && s[8]
                    == ('L' as u8) && s[9] == ('E' as u8) {
                    proof {
                        assert(s@.skip(4) =~= seq![('T' as u8), ('O' as u8), ('G' as u8), ('G' as u8), ('L' as u8), ('E' as u8)]);
                    }
                    2
                } else {
                    proof {
                        assert(s@.skip(4) != seq![('O' as u8), ('N' as u8)] && s@.skip(4) != seq![
                            ('T' as u8),
                            ('O' as u8),
                            ('G' as u8),
                            ('G' as u8),
                            ('L' as u8),
                            ('E' as u8),
                        ]) by {
                            if s@.skip(4) == seq![('O' as u8), ('N' as u8)] {
                                assert(s@.skip(4).len() == 2 && s@.skip(4)[0] == ('O' as u8) && s@.skip(4)[1]
                                    == ('N' as u8));
                            }
                            if s@.skip(4) == seq![('T' as u8), ('O' as u8), ('G' as u8), ('G' as u8), ('L' as u8), ('E' as u8)] {
                                assert(s@.skip(4).len() == 6 && s@.skip(4)[0] == ('T' as u8) && s@.skip(4)[1]
                                    == ('O' as u8) && s@.skip(4)[2] == ('G' as u8) && s@.skip(4)[3] == ('G' as u8)
                                    && s@.skip(4)[4] == ('L' as u8) && s@.skip(4)[5] == ('E' as u8));
                            }
                        }
                    }
                    0
                };
                let mut frames: Vec<FifoMsgFrame> = Vec::new();
                frames.push(make_led_frame(code));
                proof {
                    assert(frames@ =~= seq![mk_led_frame(led_code(s@.skip(4)))]);
                }
                Some(frames)
            } else {
                None
            }
        },
    }
}

} // verus!
