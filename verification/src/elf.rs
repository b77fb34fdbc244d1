//! Parsing of 64-bit little-endian ELF images: the file header,
//! section headers and program headers the loader needs, each read
//! field by field from the raw bytes with an exact contract.
use vstd::prelude::*;

verus! {

/// The 16-bit little-endian integer at `off`.
pub open spec fn u16_le_at(s: Seq<u8>, off: int) -> u16 {
    (s[off] + s[off + 1] * 0x100) as u16
}

/// The 32-bit little-endian integer at `off`.
pub open spec fn u32_le_at(s: Seq<u8>, off: int) -> u32 {
    (s[off] + s[off + 1] * 0x100 + s[off + 2] * 0x10000 + s[off + 3] * 0x1000000) as u32
}

/// The 64-bit little-endian integer at `off`.
pub open spec fn u64_le_at(s: Seq<u8>, off: int) -> u64 {
    (u32_le_at(s, off) + u32_le_at(s, off + 4) * 0x1_0000_0000) as u64
}

/// Reads the 16-bit little-endian integer at `off`.
pub fn read_u16_le(bytes: &Vec<u8>, off: usize) -> (r: u16)
    requires
        off + 2 <= bytes@.len(),
    ensures
        r == u16_le_at(bytes@, off as int),
{
    let n = bytes.len();
    (bytes[off] as u16) + (bytes[off + 1] as u16) * 0x100
}

/// Reads the 32-bit little-endian integer at `off`.
pub fn read_u32_le(bytes: &Vec<u8>, off: usize) -> (r: u32)
    requires
        off + 4 <= bytes@.len(),
    ensures
        r == u32_le_at(bytes@, off as int),
{
    let n = bytes.len();
    (bytes[off] as u32) + (bytes[off + 1] as u32) * 0x100 + (bytes[off + 2] as u32) * 0x10000 + (
    bytes[off + 3] as u32) * 0x1000000
}

/// Reads the 64-bit little-endian integer at `off`.
pub fn read_u64_le(bytes: &Vec<u8>, off: usize) -> (r: u64)
    requires
        off + 8 <= bytes@.len(),
    ensures
        r == u64_le_at(bytes@, off as int),
{
    let n = bytes.len();
    let lo = read_u32_le(bytes, off);
    let hi = read_u32_le(bytes, off + 4);
    (lo as u64) + (hi as u64) * 0x1_0000_0000
}

/// An ELF object file type.
#[derive(Clone, Copy, PartialEq, Eq, Structural, Debug)]
pub struct ElfType(pub u16);

impl ElfType {
    /// The executable file type.
    pub fn exec() -> (r: ElfType)
        ensures
            r.0 == 2,
    {
        ElfType(2)
    }
}

/// An ELF machine architecture.
#[derive(Clone, Copy, PartialEq, Eq, Structural, Debug)]
pub struct MachineType(pub u16);

impl MachineType {
    /// The AArch64 architecture.
    pub fn aarch64() -> (r: MachineType)
        ensures
            r.0 == 183,
    {
        MachineType(183)
    }
}

/// The ELF file header.
#[derive(Clone, Copy, PartialEq, Eq, Structural, Debug)]
pub struct Elf64EHdr {
    pub file_type: ElfType,
    pub machine: MachineType,
    pub version: u32,
    pub entry: u64,
    pub ph_off: u64,
    pub sh_off: u64,
    pub flags: u32,
    pub eh_size: u16,
    pub ph_entsize: u16,
    pub ph_num: u16,
    pub sh_entsize: u16,
    pub sh_num: u16,
    pub sh_strndx: u16,
}

/// A section header.
#[derive(Clone, Copy, PartialEq, Eq, Structural, Debug)]
pub struct Elf64SHdr {
    pub name: u32,
    pub section_type: u32,
    pub flags: u64,
    pub addr: u64,
    pub offset: u64,
    pub size: u64,
    pub link: u32,
    pub info: u32,
    pub addr_align: u64,
    pub entsize: u64,
}

/// A program header.
#[derive(Clone, Copy, PartialEq, Eq, Structural, Debug)]
pub struct Elf64PHdr {
    pub program_type: u32,
    pub flags: u32,
    pub offset: u64,
    pub virt_addr: u64,
    pub phys_addr: u64,
    pub filesz: u64,
    pub memsz: u64,
    pub align: u64,
}

/// Parse errors for ELF images.
#[derive(Clone, Copy, PartialEq, Eq, Structural, Debug)]
pub enum Error {
    SizeTooSmall,
    InvalidMagic,
    UnsupportedFile,
    ParseError,
}

/// The bytes start with the ELF magic.
pub open spec fn magic_ok(s: Seq<u8>) -> bool {
    &&& s.len() >= 4
    &&& s[0] == 0x7F
    &&& s[1] == 0x45
    &&& s[2] == 0x4C
    &&& s[3] == 0x46
}

/// The file header as read from the raw bytes.
pub open spec fn ehdr_spec(s: Seq<u8>) -> Elf64EHdr {
    Elf64EHdr {
        file_type: ElfType(u16_le_at(s, 16)),
        machine: MachineType(u16_le_at(s, 18)),
        version: u32_le_at(s, 20),
        entry: u64_le_at(s, 24),
        ph_off: u64_le_at(s, 32),
        sh_off: u64_le_at(s, 40),
        flags: u32_le_at(s, 48),
        eh_size: u16_le_at(s, 52),
        ph_entsize: u16_le_at(s, 54),
        ph_num: u16_le_at(s, 56),
        sh_entsize: u16_le_at(s, 58),
        sh_num: u16_le_at(s, 60),
        sh_strndx: u16_le_at(s, 62),
    }
}

/// The section header at byte offset `off`.
pub open spec fn shdr_spec(s: Seq<u8>, off: int) -> Elf64SHdr {
    Elf64SHdr {
        name: u32_le_at(s, off),
        section_type: u32_le_at(s, off + 4),
        flags: u64_le_at(s, off + 8),
        addr: u64_le_at(s, off + 16),
        offset: u64_le_at(s, off + 24),
        size: u64_le_at(s, off + 32),
        link: u32_le_at(s, off + 40),
        info: u32_le_at(s, off + 44),
        addr_align: u64_le_at(s, off + 48),
        entsize: u64_le_at(s, off + 56),
    }
}

/// The program header at byte offset `off`.
pub open spec fn phdr_spec(s: Seq<u8>, off: int) -> Elf64PHdr {
    Elf64PHdr {
        program_type: u32_le_at(s, off),
        flags: u32_le_at(s, off + 4),
        offset: u64_le_at(s, off + 8),
        virt_addr: u64_le_at(s, off + 16),
        phys_addr: u64_le_at(s, off + 24),
        filesz: u64_le_at(s, off + 32),
        memsz: u64_le_at(s, off + 40),
        align: u64_le_at(s, off + 48),
    }
}

/// A parsed ELF image: the raw bytes and the decoded file header.
pub struct ElfFile {
    pub bytes: Vec<u8>,
    pub hdr: Elf64EHdr,
}

impl ElfFile {
    /// The parsed header matches the bytes and the accepted checks.
    pub open spec fn inv(&self) -> bool {
        &&& self.bytes@.len() >= 64
        &&& magic_ok(self.bytes@)
        &&& self.hdr == ehdr_spec(self.bytes@)
        &&& self.hdr.file_type.0 == 2
    }

    /// Parses an ELF image, accepting exactly well-sized executables
    /// with the ELF magic.
    pub fn new(bytes: Vec<u8>) -> (r: Result<ElfFile, Error>)
        ensures
            bytes@.len() < 64 ==> r == Err::<ElfFile, Error>(Error::SizeTooSmall),
            bytes@.len() >= 64 && !magic_ok(bytes@) ==> r == Err::<ElfFile, Error>(
                Error::InvalidMagic,
            ),
            bytes@.len() >= 64 && magic_ok(bytes@) && u16_le_at(bytes@, 16) != 2 ==> r
                == Err::<ElfFile, Error>(Error::UnsupportedFile),
            r is Ok ==> ({
                let f = r->Ok_0;
                &&& f.bytes@ == bytes@
                &&& f.inv()
            }),
            r is Ok <==> (bytes@.len() >= 64 && magic_ok(bytes@) && u16_le_at(bytes@, 16) == 2),
    {
        if bytes.len() < 64 {
            return Err(Error::SizeTooSmall);
        }
        if !(bytes[0] == 0x7F && bytes[1] == 0x45 && bytes[2] == 0x4C && bytes[3] == 0x46) {
            return Err(Error::InvalidMagic);
        }
        let file_type = read_u16_le(&bytes, 16);
        if file_type != 2 {
            return Err(Error::UnsupportedFile);
        }
        let hdr = Elf64EHdr {
            file_type: ElfType(file_type),
            machine: MachineType(read_u16_le(&bytes, 18)),
            version: read_u32_le(&bytes, 20),
            entry: read_u64_le(&bytes, 24),
            ph_off: read_u64_le(&bytes, 32),
            sh_off: read_u64_le(&bytes, 40),
            flags: read_u32_le(&bytes, 48),
            eh_size: read_u16_le(&bytes, 52),
            ph_entsize: read_u16_le(&bytes, 54),
            ph_num: read_u16_le(&bytes, 56),
            sh_entsize: read_u16_le(&bytes, 58),
            sh_num: read_u16_le(&bytes, 60),
            sh_strndx: read_u16_le(&bytes, 62),
        };
        Ok(ElfFile { bytes, hdr })
    }

    /// The image targets AArch64.
    pub fn is_aarch64(&self) -> (r: bool)
        ensures
            r == (self.hdr.machine.0 == 183),
    {
        self.hdr.machine.0 == 183
    }

    /// The section header at index `idx`, when the table entry lies
    /// within the image.
    pub fn section_header(&self, idx: u16) -> (r: Option<Elf64SHdr>)
        ensures
            match r {
                Some(h) => idx < self.hdr.sh_num && self.hdr.sh_off + idx * self.hdr.sh_entsize
                    + 64 <= self.bytes@.len() && h == shdr_spec(
                    self.bytes@,
                    self.hdr.sh_off + idx * self.hdr.sh_entsize,
                ),
                None => !(idx < self.hdr.sh_num && self.hdr.sh_off + idx * self.hdr.sh_entsize
                    + 64 <= self.bytes@.len()),
            },
    {
        if idx >= self.hdr.sh_num {
            return None;
        }
        let len = self.bytes.len() as u64;
        if self.hdr.sh_off > len {
            return None;
        }
        proof {
            assert((idx as u64) * (self.hdr.sh_entsize as u64) < 0x1_0000_0000)
                by (nonlinear_arith)
                requires
                    idx <= 0xFFFF,
                    self.hdr.sh_entsize <= 0xFFFF,
            ;
        }
        let stride = (idx as u64) * (self.hdr.sh_entsize as u64);
        if stride + 64 > len - self.hdr.sh_off {
            return None;
        }
        let off = (self.hdr.sh_off + stride) as usize;
        Some(
            Elf64SHdr {
                name: read_u32_le(&self.bytes, off),
                section_type: read_u32_le(&self.bytes, off + 4),
                flags: read_u64_le(&self.bytes, off + 8),
                addr: read_u64_le(&self.bytes, off + 16),
                offset: read_u64_le(&self.bytes, off + 24),
                size: read_u64_le(&self.bytes, off + 32),
                link: read_u32_le(&self.bytes, off + 40),
                info: read_u32_le(&self.bytes, off + 44),
                addr_align: read_u64_le(&self.bytes, off + 48),
                entsize: read_u64_le(&self.bytes, off + 56),
            },
        )
    }

    /// An iterator over the section headers, or nothing when the
    /// image declares no section-header table.
    pub fn section_headers(&self) -> (r: Option<SectionHeaderIter<'_>>)
        ensures
            r is Some <==> self.hdr.sh_off != 0,
            r is Some ==> r->Some_0.file == self && r->Some_0.idx == 0,
    {
        if self.hdr.sh_off == 0 {
            return None;
        }
        Some(SectionHeaderIter { file: self, idx: 0 })
    }

    /// The program header at index `idx`, when the table entry lies
    /// within the image.
    pub fn program_header(&self, idx: u16) -> (r: Option<Elf64PHdr>)
        ensures
            match r {
                Some(h) => idx < self.hdr.ph_num && self.hdr.ph_off + idx * self.hdr.ph_entsize
                    + 56 <= self.bytes@.len() && h == phdr_spec(
                    self.bytes@,
                    self.hdr.ph_off + idx * self.hdr.ph_entsize,
                ),
                None => !(idx < self.hdr.ph_num && self.hdr.ph_off + idx * self.hdr.ph_entsize
                    + 56 <= self.bytes@.len()),
            },
    {
        if idx >= self.hdr.ph_num {
            return None;
        }
        let len = self.bytes.len() as u64;
        if self.hdr.ph_off > len {
            return None;
        }
        proof {
            assert((idx as u64) * (self.hdr.ph_entsize as u64) < 0x1_0000_0000)
                by (nonlinear_arith)
                requires
                    idx <= 0xFFFF,
                    self.hdr.ph_entsize <= 0xFFFF,
            ;
        }
        let stride = (idx as u64) * (self.hdr.ph_entsize as u64);
        if stride + 56 > len - self.hdr.ph_off {
            return None;
        }
        let off = (self.hdr.ph_off + stride) as usize;
        Some(
            Elf64PHdr {
                program_type: read_u32_le(&self.bytes, off),
                flags: read_u32_le(&self.bytes, off + 4),
                offset: read_u64_le(&self.bytes, off + 8),
                virt_addr: read_u64_le(&self.bytes, off + 16),
                phys_addr: read_u64_le(&self.bytes, off + 24),
                filesz: read_u64_le(&self.bytes, off + 32),
                memsz: read_u64_le(&self.bytes, off + 40),
                align: read_u64_le(&self.bytes, off + 48),
            },
        )
    }
}

/// A cursor over an image's section headers.
pub struct SectionHeaderIter<'a> {
    pub file: &'a ElfFile,
    pub idx: u16,
}

impl<'a> SectionHeaderIter<'a> {
    /// The next section header, advancing the cursor.
    pub fn next(&mut self) -> (r: Option<Elf64SHdr>)
        ensures
            final(self).file == old(self).file,
            match r {
                Some(h) => old(self).idx < old(self).file.hdr.sh_num && final(self).idx == old(
                    self,
                ).idx + 1 && h == shdr_spec(
                    old(self).file.bytes@,
                    old(self).file.hdr.sh_off + old(self).idx * old(self).file.hdr.sh_entsize,
                ),
                None => final(self).idx == old(self).idx,
            },
    {
        let r = self.file.section_header(self.idx);
        match r {
            Some(h) => {
                self.idx = self.idx + 1;
                Some(h)
            },
            None => None,
        }
    }
}

} // verus!
