use probe_rs::BuildError;
use probe_rs::Config;
use probe_rs::Error;
use probe_rs::FlashAlgorithm;
use probe_rs::ImageFormat;
use probe_rs::MemoryInterface;
use probe_rs::MemoryMap;
use probe_rs::MemoryRegion;
use probe_rs::RegionKind;
use probe_rs::SimConfig;
use probe_rs::SimProbe;

fn put_u32(b: &mut [u8], off: usize, v: u32) {
    b[off] = (v & 0xFF) as u8;
    b[off + 1] = ((v >> 8) & 0xFF) as u8;
    b[off + 2] = ((v >> 16) & 0xFF) as u8;
    b[off + 3] = ((v >> 24) & 0xFF) as u8;
}

fn put_u16(b: &mut [u8], off: usize, v: u16) {
    b[off] = (v & 0xFF) as u8;
    b[off + 1] = ((v >> 8) & 0xFF) as u8;
}

/// A minimal 32-bit little-endian ELF with one or two load segments.
fn make_elf(second_segment: bool) -> Vec<u8> {
    let mut img = vec![0u8; 116 + 256];
    img[0] = 0x7F;
    img[1] = b'E';
    img[2] = b'L';
    img[3] = b'F';
    img[4] = 1;
    img[5] = 1;
    put_u32(&mut img, 28, 52); // program header table offset
    put_u16(&mut img, 42, 32); // program header entry size
    put_u16(&mut img, 44, if second_segment { 2 } else { 1 });
    // first segment: 256 bytes into the flash region
    put_u32(&mut img, 52, 1); // PT_LOAD
    put_u32(&mut img, 56, 116); // file offset
    put_u32(&mut img, 64, 0x0800_0000); // physical address
    put_u32(&mut img, 68, 256); // file size
    if second_segment {
        // second segment: outside every flash region
        put_u32(&mut img, 84, 1);
        put_u32(&mut img, 88, 116);
        put_u32(&mut img, 96, 0x2000_0000);
        put_u32(&mut img, 100, 16);
    }
    for i in 0..256usize {
        img[116 + i] = (i % 253) as u8;
    }
    img
}

fn elf_map() -> MemoryMap {
    MemoryMap::new(vec![
        MemoryRegion { start: 0x0800_0000, size: 0x0002_0000, kind: RegionKind::Flash },
        MemoryRegion { start: 0x2000_0000, size: 0x0001_0000, kind: RegionKind::Ram },
    ])
    .unwrap()
}

fn elf_algorithm() -> FlashAlgorithm {
    FlashAlgorithm {
        code: vec![0u8; 32],
        load_address: 0x2000_0000,
        init: None,
        uninit: None,
        erase_sector: 0,
        program_page: 4,
        erase_all: None,
        page_size: 1024,
        sector_size: 4096,
        stack_top: 0x2000_8000,
        buffer_address: 0x2000_1000,
        double_buffer: false,
    }
}

fn elf_sim() -> SimProbe {
    SimProbe::new(SimConfig {
        flash_base: 0x0800_0000,
        flash_size: 0x0002_0000,
        ram_base: 0x2000_0000,
        ram_size: 0x0001_0000,
        load_address: 0x2000_0000,
        program_offset: 4,
        erase_offset: 0,
        sector_size: 4096,
        polls_per_call: 1,
        hang: false,
        statuses: vec![],
        corrupt: None,
    })
}

#[test]
fn elf_magic_is_detected() {
    let img = make_elf(false);
    assert_eq!(probe_rs::detect_format(&img), Some(ImageFormat::Elf));
    assert_eq!(probe_rs::detect_format(b"not an elf"), None);
}

#[test]
fn segment_in_flash_is_accepted_and_programmed() {
    let img = make_elf(false);
    let segs = probe_rs::extract_load_segments(&img).unwrap();
    assert_eq!(segs.len(), 1);
    assert_eq!(segs[0].0, 0x0800_0000);
    assert_eq!(segs[0].1.len(), 256);
    assert_eq!(segs[0].1[5], 5);

    let mut sim = elf_sim();
    let cfg = Config { verify: true, timeout_polls: 10 };
    let plan = probe_rs::download_image(&mut sim, &img, &elf_algorithm(), &elf_map(), &cfg)
        .unwrap();
    assert_eq!(plan.len(), 1);
    let got = sim.read_block(0x0800_0000, 256).unwrap();
    assert_eq!(&got[..], &img[116..116 + 256]);
}

#[test]
fn segment_outside_flash_is_rejected_as_out_of_range() {
    let img = make_elf(true);
    let mut sim = elf_sim();
    let cfg = Config { verify: true, timeout_polls: 10 };
    let e = probe_rs::download_image(&mut sim, &img, &elf_algorithm(), &elf_map(), &cfg)
        .unwrap_err();
    assert_eq!(e, Error::Build(BuildError::OutOfRange(0x2000_0000, 16)));
}
