//! VideoCore mailbox messages: the property-tag buffers the firmware
//! understands, and the pure encodings around them.
//!
//! Sending a message is memory-mapped I/O and lives outside this
//! crate; here are the buffers themselves, built field by field, and
//! the checks a response must pass.
use vstd::prelude::*;

verus! {

/// The code the firmware writes into a successfully handled buffer.
pub const RESP_SUCCESS: u32 = 0x80000000;

/// The code the firmware writes into a failed buffer.
pub const RESP_FAIL: u32 = 0x80000001;

/// The property-tag channel number.
pub const CHANNEL_PROPERTY: u32 = 8;

/// A property-tag message: size, request/response code, tag, payload,
/// terminating null tag.
pub struct Message<T> {
    pub buf_size: u32,
    pub code: u32,
    pub tag: u32,
    pub data: T,
    pub null: u32,
}

/// The firmware handled the message successfully.
pub fn message_ok(code: u32) -> (r: bool)
    ensures
        r == (code == RESP_SUCCESS),
{
    code == RESP_SUCCESS
}

/// The value written to the mailbox write register: the 16-byte
/// aligned buffer address with the channel in the low four bits.
pub fn mailbox_register_value(buf_addr: u32) -> (r: u32)
    requires
        buf_addr % 16 == 0,
    ensures
        r == buf_addr + CHANNEL_PROPERTY,
{
    proof {
        assert(buf_addr % 16 == 0 ==> (buf_addr | 8) == buf_addr + 8) by (bit_vector);
    }
    buf_addr | 8
}

/// Payload of the get-ARM-memory query.
#[derive(Clone, Copy, PartialEq, Eq, Structural, Debug)]
pub struct GetArmMemory {
    pub buf_size: u32,
    pub response_size: u32,
    pub base: u32,
    pub size: u32,
}

impl GetArmMemory {
    /// A fresh get-ARM-memory request buffer.
    pub fn new() -> (r: Message<GetArmMemory>)
        ensures
            r.buf_size == 32,
            r.code == 0,
            r.tag == 0x00010005,
            r.data.buf_size == 8,
            r.data.response_size == 0,
            r.data.base == 0,
            r.data.size == 0,
            r.null == 0,
    {
        Message {
            buf_size: 32,
            code: 0,
            tag: 0x00010005,
            data: GetArmMemory { buf_size: 8, response_size: 0, base: 0, size: 0 },
            null: 0,
        }
    }

    /// Base of the ARM memory split.
    pub fn get_base(&self) -> (r: u32)
        ensures
            r == self.base,
    {
        self.base
    }

    /// Size of the ARM memory split.
    pub fn get_size(&self) -> (r: u32)
        ensures
            r == self.size,
    {
        self.size
    }
}

/// Payload of the get-GPU-memory query.
#[derive(Clone, Copy, PartialEq, Eq, Structural, Debug)]
pub struct GetGpuMemory {
    pub buf_size: u32,
    pub response_size: u32,
    pub base: u32,
    pub size: u32,
}

impl GetGpuMemory {
    /// A fresh get-GPU-memory request buffer.
    pub fn new() -> (r: Message<GetGpuMemory>)
        ensures
            r.buf_size == 32,
            r.code == 0,
            r.tag == 0x00010006,
            r.data.buf_size == 8,
            r.data.response_size == 0,
            r.data.base == 0,
            r.data.size == 0,
            r.null == 0,
    {
        Message {
            buf_size: 32,
            code: 0,
            tag: 0x00010006,
            data: GetGpuMemory { buf_size: 8, response_size: 0, base: 0, size: 0 },
            null: 0,
        }
    }

    /// Base of the firmware's memory carve-out.
    pub fn get_base(&self) -> (r: u32)
        ensures
            r == self.base,
    {
        self.base
    }

    /// Size of the firmware's memory carve-out.
    pub fn get_size(&self) -> (r: u32)
        ensures
            r == self.size,
    {
        self.size
    }
}

/// Payload of the get-clock-rate query.
#[derive(Clone, Copy, PartialEq, Eq, Structural, Debug)]
pub struct GetClockRate {
    pub buf_size: u32,
    pub response_size: u32,
    pub clock_id: u32,
    pub rate: u32,
}

impl GetClockRate {
    /// A fresh get-clock-rate request for `clock_id`.
    pub fn new(clock_id: u32) -> (r: Message<GetClockRate>)
        ensures
            r.buf_size == 32,
            r.code == 0,
            r.tag == 0x00030002,
            r.data.buf_size == 8,
            r.data.response_size == 0,
            r.data.clock_id == clock_id,
            r.data.rate == 0,
            r.null == 0,
    {
        Message {
            buf_size: 32,
            code: 0,
            tag: 0x00030002,
            data: GetClockRate { buf_size: 8, response_size: 0, clock_id, rate: 0 },
            null: 0,
        }
    }

    /// The queried clock.
    pub fn get_clock_id(&self) -> (r: u32)
        ensures
            r == self.clock_id,
    {
        self.clock_id
    }

    /// The reported rate.
    pub fn get_rate(&self) -> (r: u32)
        ensures
            r == self.rate,
    {
        self.rate
    }
}

/// Payload of the get-measured-clock-rate query.
#[derive(Clone, Copy, PartialEq, Eq, Structural, Debug)]
pub struct GetClockRateMeasured {
    pub buf_size: u32,
    pub response_size: u32,
    pub clock_id: u32,
    pub rate: u32,
}

impl GetClockRateMeasured {
    /// A fresh get-measured-clock-rate request for `clock_id`.
    pub fn new(clock_id: u32) -> (r: Message<GetClockRateMeasured>)
        ensures
            r.buf_size == 32,
            r.code == 0,
            r.tag == 0x00030002,
            r.data.buf_size == 8,
            r.data.response_size == 0,
            r.data.clock_id == clock_id,
            r.data.rate == 0,
            r.null == 0,
    {
        Message {
            buf_size: 32,
            code: 0,
            tag: 0x00030002,
            data: GetClockRateMeasured { buf_size: 8, response_size: 0, clock_id, rate: 0 },
            null: 0,
        }
    }

    /// The queried clock.
    pub fn get_clock_id(&self) -> (r: u32)
        ensures
            r == self.clock_id,
    {
        self.clock_id
    }

    /// The reported rate.
    pub fn get_rate(&self) -> (r: u32)
        ensures
            r == self.rate,
    {
        self.rate
    }
}

/// Payload of the set-clock-rate request.
#[derive(Clone, Copy, PartialEq, Eq, Structural, Debug)]
pub struct SetClockRate {
    pub buf_size: u32,
    pub response_size: u32,
    pub clock_id: u32,
    pub rate: u32,
    pub skip_turbo: u32,
}

impl SetClockRate {
    /// A fresh set-clock-rate request for `clock_id` at `rate` Hz.
    pub fn new(clock_id: u32, rate: u32) -> (r: Message<SetClockRate>)
        ensures
            r.buf_size == 48,
            r.code == 0,
            r.tag == 0x00038002,
            r.data.buf_size == 12,
            r.data.response_size == 0,
            r.data.clock_id == clock_id,
            r.data.rate == rate,
            r.data.skip_turbo == 0,
            r.null == 0,
    {
        Message {
            buf_size: 48,
            code: 0,
            tag: 0x00038002,
            data: SetClockRate {
                buf_size: 12,
                response_size: 0,
                clock_id,
                rate,
                skip_turbo: 0,
            },
            null: 0,
        }
    }

    /// The granted rate.
    pub fn get_rate(&self) -> (r: u32)
        ensures
            r == self.rate,
    {
        self.rate
    }
}

/// The mailbox itself holds no state; sending is memory-mapped I/O
/// done outside this crate.
pub struct Mailbox {}

impl Mailbox {
    /// A handle to the property mailbox.
    pub fn new() -> (r: Mailbox)
        ensures
            true,
    {
        Mailbox {  }
    }
}

} // verus!
