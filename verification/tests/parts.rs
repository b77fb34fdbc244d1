use lantern_boot::board::{
    get_board, get_board_peripheral_range, get_default_mmio_base, get_emmc_offset_from_mmio_base,
    get_mmio_offset_from_peripheral_base, Board, Mmio,
};
use lantern_boot::elf::{Elf64EHdr, ElfFile, Error};
use lantern_boot::fs::Fat32FileSystem;
use lantern_boot::get_page_addr;
use lantern_boot::mailbox::{
    mailbox_register_value, message_ok, GetArmMemory, GetClockRate, GetClockRateMeasured,
    GetGpuMemory, Mailbox, SetClockRate, RESP_SUCCESS,
};
use lantern_boot::mem_size::MemSize;

fn minimal_elf() -> Vec<u8> {
    let mut b = vec![0u8; 64];
    b[0] = 0x7F;
    b[1] = 0x45;
    b[2] = 0x4C;
    b[3] = 0x46;
    b[16] = 2; // executable
    b[18] = 183; // AArch64
    b[24] = 0x00;
    b[25] = 0x80; // entry 0x8000
    b
}

#[test]
fn elf_header_parses_exactly() {
    let f = ElfFile::new(minimal_elf()).unwrap();
    assert_eq!(f.hdr.file_type.0, 2);
    assert_eq!(f.hdr.machine.0, 183);
    assert!(f.is_aarch64());
    assert_eq!(f.hdr.entry, 0x8000);
}

#[test]
fn elf_rejects_bad_inputs() {
    assert_eq!(ElfFile::new(vec![0u8; 10]).err(), Some(Error::SizeTooSmall));
    let mut nomagic = minimal_elf();
    nomagic[1] = 0x00;
    assert_eq!(ElfFile::new(nomagic).err(), Some(Error::InvalidMagic));
    let mut notexec = minimal_elf();
    notexec[16] = 1;
    assert_eq!(ElfFile::new(notexec).err(), Some(Error::UnsupportedFile));
}

#[test]
fn elf_program_headers_decode() {
    let mut b = minimal_elf();
    // One program header at offset 64, entsize 56.
    b[32] = 64; // ph_off
    b[54] = 56; // ph_entsize
    b[56] = 1; // ph_num
    b.resize(64 + 56, 0);
    b[64] = 1; // PT_LOAD
    b[64 + 16] = 0x00;
    b[64 + 17] = 0x01; // virt_addr 0x100
    b[64 + 32] = 0x10; // filesz 0x10
    b[64 + 40] = 0x20; // memsz 0x20
    let f = ElfFile::new(b).unwrap();
    let ph = f.program_header(0).unwrap();
    assert_eq!(ph.program_type, 1);
    assert_eq!(ph.virt_addr, 0x100);
    assert_eq!(ph.filesz, 0x10);
    assert_eq!(ph.memsz, 0x20);
    assert!(f.program_header(1).is_none());
}

#[test]
fn elf_section_headers_iterate() {
    let mut b = minimal_elf();
    b[40] = 64; // sh_off
    b[58] = 64; // sh_entsize
    b[60] = 1; // sh_num
    b.resize(64 + 64, 0);
    b[64 + 32] = 0x44; // size
    let f = ElfFile::new(b).unwrap();
    let mut it = f.section_headers().unwrap();
    let h = it.next().unwrap();
    assert_eq!(h.size, 0x44);
    assert!(it.next().is_none());
}

#[test]
fn elf_without_section_table_says_so() {
    let f = ElfFile::new(minimal_elf()).unwrap();
    assert!(f.section_headers().is_none());
}

#[test]
fn uart_baud_divisors() {
    let (whole, frac) = lantern_boot::board::baud_divisors(3000000);
    assert_eq!(whole, 1);
    assert_eq!(frac, 0);
    let (whole, frac) = lantern_boot::board::baud_divisors(3000010);
    assert_eq!(whole, 1);
    assert_eq!(frac, 10);
}

#[test]
fn board_constants_select_by_part_number() {
    assert!(matches!(get_board(0xD03 << 4), Board::RPI3));
    assert!(matches!(get_board(0xD08 << 4), Board::RPI4));
    assert!(matches!(get_board(0xC07 << 4), Board::UNSUPPORTED));

    assert_eq!(get_default_mmio_base(Board::RPI3), 0x3F000000);
    assert_eq!(get_default_mmio_base(Board::RPI4), 0xFE000000);
    assert_eq!(get_board_peripheral_range(Board::RPI3), (0x3F000000, 0x40000000));
    assert_eq!(get_board_peripheral_range(Board::RPI4), (0xFC000000, 0x100000000));
    assert_eq!(get_mmio_offset_from_peripheral_base(Board::RPI3), 0);
    assert_eq!(get_mmio_offset_from_peripheral_base(Board::RPI4), 0x2000000);
    assert_eq!(get_emmc_offset_from_mmio_base(Board::RPI3), 0x300000);
    assert_eq!(get_emmc_offset_from_mmio_base(Board::RPI4), 0x340000);
}

#[test]
fn mmio_register_map_offsets() {
    let mmio = Mmio::new();
    assert_eq!(mmio.mmio_base, 0xFE000000);
    assert_eq!(mmio.uart0_base, 0xFE201000);
    assert_eq!(mmio.uart_fr, 0xFE201018);
    assert_eq!(mmio.mbox_wr, 0xFE00B8A0);
    assert_eq!(mmio.mbox_status, 0xFE00B898);
    let mut moved = mmio;
    moved.set_base(0x3F000000);
    assert_eq!(moved.uart0_base, 0x3F201000);
}

#[test]
fn mailbox_messages_have_the_documented_layout() {
    let _mb = Mailbox::new();
    let m = GetGpuMemory::new();
    assert_eq!(m.buf_size, 32);
    assert_eq!(m.code, 0);
    assert_eq!(m.tag, 0x00010006);
    assert_eq!(m.null, 0);
    assert_eq!(m.data.get_base(), 0);
    assert_eq!(m.data.get_size(), 0);

    let m = GetArmMemory::new();
    assert_eq!(m.tag, 0x00010005);
    assert_eq!(m.data.get_base(), 0);
    assert_eq!(m.data.get_size(), 0);

    let m = GetClockRate::new(2);
    assert_eq!(m.tag, 0x00030002);
    assert_eq!(m.data.get_clock_id(), 2);
    assert_eq!(m.data.get_rate(), 0);

    let m = GetClockRateMeasured::new(4);
    assert_eq!(m.data.get_clock_id(), 4);
    assert_eq!(m.data.get_rate(), 0);

    let m = SetClockRate::new(2, 3000000);
    assert_eq!(m.buf_size, 48);
    assert_eq!(m.tag, 0x00038002);
    assert_eq!(m.data.get_rate(), 3000000);

    assert!(message_ok(RESP_SUCCESS));
    assert!(!message_ok(0x80000001));
    assert_eq!(mailbox_register_value(0x1230), 0x1238);
}

#[test]
fn fat_position_arithmetic() {
    let mut f = Fat32FileSystem::new();
    assert_eq!(f.position(), 0);
    assert_eq!(f.seek_to(1536 + 17), 1553);
    assert_eq!(f.sector, 3);
    assert_eq!(f.offset, 17);
    assert_eq!(f.position(), 1553);
}

#[test]
fn page_rounding() {
    assert_eq!(get_page_addr(0x12345), 0x12000);
    assert_eq!(get_page_addr(0x12000), 0x12000);
    assert_eq!(get_page_addr(0xFFF), 0);
    let s = MemSize { bytes: 4096 };
    assert_eq!(s.to_bytes(), 4096);
}
