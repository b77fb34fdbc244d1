//! Board identification and the board-specific address constants.
//!
//! The board is read from the CPU's identification register by the
//! unverified front end; everything downstream of the part number is
//! pure and lives here.
use vstd::prelude::*;

verus! {

/// Address constants of the Raspberry Pi 3.
pub struct ConstantsRaspi3 {}

impl ConstantsRaspi3 {
    pub const MMIO_PHYS_BASE: u64 = 0x3F000000;

    pub const PERIPHERALS_PHYS_BASE: u64 = 0x3F000000;

    pub const PERIPHERALS_PHYS_END: u64 = 0x40000000;

    pub const MMIO_OFFSET: u64 = 0;

    pub const EMMC_OFFSET_FROM_MMIO_BASE: u64 = 0x300000;
}

/// Address constants of the Raspberry Pi 4.
pub struct ConstantsRaspi4 {}

impl ConstantsRaspi4 {
    pub const PERIPHERALS_PHYS_BASE: u64 = 0xFC000000;

    pub const PERIPHERALS_PHYS_END: u64 = 0x100000000;

    pub const MMIO_PHYS_BASE: u64 = 0xFE000000;

    pub const MMIO_OFFSET: u64 = 0x2000000;

    pub const EMMC_OFFSET_FROM_MMIO_BASE: u64 = 0x340000;
}

/// The supported boards.
#[derive(Clone, Copy, PartialEq, Eq, Structural, Debug)]
pub enum Board {
    RPI3,
    RPI4,
    UNSUPPORTED,
}

/// Classifies a board by the part-number field (bits 15:4) of the
/// CPU identification register's value.
pub fn get_board(midr: u64) -> (r: Board)
    ensures
        r == (if (midr >> 4) & 0xFFF == 0xD03 {
            Board::RPI3
        } else if (midr >> 4) & 0xFFF == 0xD08 {
            Board::RPI4
        } else {
            Board::UNSUPPORTED
        }),
{
    let partno = (midr >> 4) & 0xFFF;
    if partno == 0xD03 {
        Board::RPI3
    } else if partno == 0xD08 {
        Board::RPI4
    } else {
        Board::UNSUPPORTED
    }
}

/// The board's memory-mapped register base.
pub fn get_default_mmio_base(board: Board) -> (r: u64)
    requires
        board != Board::UNSUPPORTED,
    ensures
        board == Board::RPI3 ==> r == ConstantsRaspi3::MMIO_PHYS_BASE,
        board == Board::RPI4 ==> r == ConstantsRaspi4::MMIO_PHYS_BASE,
{
    match board {
        Board::RPI3 => ConstantsRaspi3::MMIO_PHYS_BASE,
        Board::RPI4 => ConstantsRaspi4::MMIO_PHYS_BASE,
        Board::UNSUPPORTED => 0,
    }
}

/// The board's physical peripheral window, half-open.
pub fn get_board_peripheral_range(board: Board) -> (r: (u64, u64))
    requires
        board != Board::UNSUPPORTED,
    ensures
        board == Board::RPI3 ==> r.0 == ConstantsRaspi3::PERIPHERALS_PHYS_BASE && r.1
            == ConstantsRaspi3::PERIPHERALS_PHYS_END,
        board == Board::RPI4 ==> r.0 == ConstantsRaspi4::PERIPHERALS_PHYS_BASE && r.1
            == ConstantsRaspi4::PERIPHERALS_PHYS_END,
        r.0 < r.1,
{
    match board {
        Board::RPI3 => (
            ConstantsRaspi3::PERIPHERALS_PHYS_BASE,
            ConstantsRaspi3::PERIPHERALS_PHYS_END,
        ),
        Board::RPI4 => (
            ConstantsRaspi4::PERIPHERALS_PHYS_BASE,
            ConstantsRaspi4::PERIPHERALS_PHYS_END,
        ),
        Board::UNSUPPORTED => (0, 1),
    }
}

/// Offset of the register base inside the peripheral window.
pub fn get_mmio_offset_from_peripheral_base(board: Board) -> (r: u64)
    requires
        board != Board::UNSUPPORTED,
    ensures
        board == Board::RPI3 ==> r == ConstantsRaspi3::MMIO_OFFSET,
        board == Board::RPI4 ==> r == ConstantsRaspi4::MMIO_OFFSET,
{
    match board {
        Board::RPI3 => ConstantsRaspi3::MMIO_OFFSET,
        Board::RPI4 => ConstantsRaspi4::MMIO_OFFSET,
        Board::UNSUPPORTED => 0,
    }
}

/// Offset of the storage controller inside the register window.
pub fn get_emmc_offset_from_mmio_base(board: Board) -> (r: u64)
    requires
        board != Board::UNSUPPORTED,
    ensures
        board == Board::RPI3 ==> r == ConstantsRaspi3::EMMC_OFFSET_FROM_MMIO_BASE,
        board == Board::RPI4 ==> r == ConstantsRaspi4::EMMC_OFFSET_FROM_MMIO_BASE,
{
    match board {
        Board::RPI3 => ConstantsRaspi3::EMMC_OFFSET_FROM_MMIO_BASE,
        Board::RPI4 => ConstantsRaspi4::EMMC_OFFSET_FROM_MMIO_BASE,
        Board::UNSUPPORTED => 0,
    }
}

/// The UART baud divisors for a clock rate: the integer part and the
/// remainder the divisor registers take.
pub fn baud_divisors(clock_rate: u32) -> (r: (u32, u32))
    requires
        clock_rate >= 16,
    ensures
        ({
            let d = (16 * (clock_rate / 16)) as u32;
            &&& r.0 == clock_rate / d
            &&& r.1 == clock_rate % d
        }),
{
    let baud = clock_rate / 16;
    proof {
        assert(clock_rate / 16 >= 1);
        assert(16 * (clock_rate as int / 16) <= clock_rate) by (nonlinear_arith)
            requires
                clock_rate >= 16,
        ;
    }
    let d = 16 * baud;
    let whole = clock_rate / d;
    let frac = clock_rate % d;
    (whole, frac)
}

/// The register map derived from a memory-mapped register base.
#[derive(Clone, Copy, PartialEq, Eq, Structural, Debug)]
pub struct Mmio {
    pub mmio_base: u64,
    pub gpio_base: u64,
    pub uart0_base: u64,
    pub uart_fr: u64,
    pub uart0_ibrd: u64,
    pub uart0_fbrd: u64,
    pub uart0_lcr_h: u64,
    pub uart0_cr: u64,
    pub mbox_base: u64,
    pub mbox_wr: u64,
    pub mbox_status: u64,
}

impl Mmio {
    /// The register map rooted at the Raspberry Pi 4 default base.
    pub fn new() -> (r: Mmio)
        ensures
            r.mmio_base == ConstantsRaspi4::MMIO_PHYS_BASE,
            r.uart0_base == r.mmio_base + 0x201000,
            r.mbox_base == r.mmio_base + 0xB880,
    {
        let mut mmio = Mmio {
            mmio_base: 0,
            gpio_base: 0,
            uart0_base: 0,
            uart_fr: 0,
            uart0_ibrd: 0,
            uart0_fbrd: 0,
            uart0_lcr_h: 0,
            uart0_cr: 0,
            mbox_base: 0,
            mbox_wr: 0,
            mbox_status: 0,
        };
        mmio.set_base(ConstantsRaspi4::MMIO_PHYS_BASE);
        mmio
    }

    /// Re-roots every register address at `addr`.
    pub fn set_base(&mut self, addr: u64)
        requires
            addr <= 0xFFFF_FFFF_0000_0000,
        ensures
            final(self).mmio_base == addr,
            final(self).gpio_base == addr + 0x200000,
            final(self).uart0_base == addr + 0x201000,
            final(self).uart_fr == addr + 0x201018,
            final(self).uart0_ibrd == addr + 0x201024,
            final(self).uart0_fbrd == addr + 0x201028,
            final(self).uart0_lcr_h == addr + 0x20102c,
            final(self).uart0_cr == addr + 0x201030,
            final(self).mbox_base == addr + 0xB880,
            final(self).mbox_status == addr + 0xB898,
            final(self).mbox_wr == addr + 0xB8A0,
    {
        self.mmio_base = addr;
        self.gpio_base = self.mmio_base + 0x200000;
        self.uart0_base = self.gpio_base + 0x1000;
        self.uart_fr = self.uart0_base + 0x18;
        self.uart0_ibrd = self.uart0_base + 0x24;
        self.uart0_fbrd = self.uart0_base + 0x28;
        self.uart0_lcr_h = self.uart0_base + 0x2c;
        self.uart0_cr = self.uart0_base + 0x30;
        self.mbox_base = self.mmio_base + 0xB880;
        self.mbox_status = self.mbox_base + 0x18;
        self.mbox_wr = self.mbox_base + 0x20;
    }
}

} // verus!
