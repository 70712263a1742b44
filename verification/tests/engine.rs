use probe_rs::AlgorithmParseError;
use probe_rs::BuildError;
use probe_rs::Config;
use probe_rs::FlashAlgorithm;
use probe_rs::FlashBuilder;
use probe_rs::FlashError;
use probe_rs::FlashLoader;
use probe_rs::FlashRoutine;
use probe_rs::FlashSector;
use probe_rs::LoaderPhase;
use probe_rs::MemoryInterface;
use probe_rs::MemoryMap;
use probe_rs::MemoryRegion;
use probe_rs::RegionKind;
use probe_rs::Registry;
use probe_rs::SimConfig;
use probe_rs::SimProbe;
use probe_rs::TargetSelectionError;

fn test_map() -> MemoryMap {
    MemoryMap::new(vec![
        MemoryRegion { start: 0x0000_0000, size: 0x0002_0000, kind: RegionKind::Flash },
        MemoryRegion { start: 0x2000_0000, size: 0x0001_0000, kind: RegionKind::Ram },
    ])
    .unwrap()
}

fn test_algorithm() -> FlashAlgorithm {
    FlashAlgorithm {
        code: vec![0u8; 32],
        load_address: 0x2000_0000,
        init: None,
        uninit: Some(8),
        erase_sector: 0,
        program_page: 4,
        erase_all: None,
        page_size: 1024,
        sector_size: 4096,
        stack_top: 0x2000_8000,
        buffer_address: 0x2000_1000,
        double_buffer: false,
    }
}

fn sim_config() -> SimConfig {
    SimConfig {
        flash_base: 0x0000_0000,
        flash_size: 0x0002_0000,
        ram_base: 0x2000_0000,
        ram_size: 0x0001_0000,
        load_address: 0x2000_0000,
        program_offset: 4,
        erase_offset: 0,
        sector_size: 4096,
        polls_per_call: 1,
        hang: false,
        statuses: vec![],
        corrupt: None,
    }
}

fn plan_pages(plan: &[FlashSector]) -> Vec<(u32, Vec<u8>)> {
    let mut out = vec![];
    for s in plan {
        for p in &s.pages {
            out.push((p.address, p.data.clone()));
        }
    }
    out
}

#[test]
fn two_requests_make_two_sectors_with_fill() {
    let mut b = FlashBuilder::new();
    b.add_data(0x0000, vec![7u8; 1500]);
    b.add_data(0x1000, vec![9u8; 4096]);
    let plan = b.build(&test_algorithm(), &test_map()).unwrap();
    assert_eq!(plan.len(), 2);
    assert_eq!(plan[0].address, 0x0000);
    assert_eq!(plan[1].address, 0x1000);
    // sector 0 touches pages 0 and 1 only
    assert_eq!(plan[0].pages.len(), 2);
    assert_eq!(plan[0].pages[0].address, 0);
    assert_eq!(plan[0].pages[1].address, 1024);
    // beyond offset 1500 the payload is the erase fill
    assert_eq!(plan[0].pages[1].data[1499 - 1024], 7);
    assert_eq!(plan[0].pages[1].data[1500 - 1024], 0xFF);
    assert_eq!(plan[0].pages[1].data[1023], 0xFF);
    // sector 1 is fully written
    assert_eq!(plan[1].pages.len(), 4);
    for p in &plan[1].pages {
        assert!(p.data.iter().all(|&x| x == 9));
    }
}

#[test]
fn build_is_order_independent() {
    let mut b1 = FlashBuilder::new();
    b1.add_data(0x0000, vec![7u8; 1500]);
    b1.add_data(0x1000, vec![9u8; 4096]);
    b1.add_data(0x3000, vec![3u8; 100]);
    let mut b2 = FlashBuilder::new();
    b2.add_data(0x3000, vec![3u8; 100]);
    b2.add_data(0x1000, vec![9u8; 4096]);
    b2.add_data(0x0000, vec![7u8; 1500]);
    let p1 = b1.build(&test_algorithm(), &test_map()).unwrap();
    let p2 = b2.build(&test_algorithm(), &test_map()).unwrap();
    assert_eq!(p1.len(), p2.len());
    assert_eq!(plan_pages(&p1), plan_pages(&p2));
    for (s1, s2) in p1.iter().zip(p2.iter()) {
        assert_eq!(s1.address, s2.address);
        assert_eq!(s1.needs_erase, s2.needs_erase);
    }
}

#[test]
fn identical_overlap_succeeds_conflicting_overlap_fails() {
    let mut ok = FlashBuilder::new();
    ok.add_data(0, vec![1, 2, 3, 4]);
    ok.add_data(2, vec![3, 4, 5]);
    assert!(ok.build(&test_algorithm(), &test_map()).is_ok());

    let mut bad = FlashBuilder::new();
    bad.add_data(0, vec![1, 2, 3, 4]);
    bad.add_data(2, vec![9, 4]);
    let e = bad.build(&test_algorithm(), &test_map()).unwrap_err();
    assert_eq!(e, BuildError::ConflictingData(2));
}

#[test]
fn out_of_range_run_is_reported() {
    let mut b = FlashBuilder::new();
    b.add_data(0x4000_0000, vec![5u8; 16]);
    let e = b.build(&test_algorithm(), &test_map()).unwrap_err();
    assert_eq!(e, BuildError::OutOfRange(0x4000_0000, 16));
}

#[test]
fn empty_builder_builds_empty_plan() {
    let b = FlashBuilder::new();
    let plan = b.build(&test_algorithm(), &test_map()).unwrap();
    assert!(plan.is_empty());
}

#[test]
fn round_trip_program_and_read_back() {
    let mut sim = SimProbe::new(sim_config());
    let alg = test_algorithm();
    let map = test_map();
    let cfg = Config { verify: true, timeout_polls: 10 };
    let mut b = FlashBuilder::new();
    let data: Vec<u8> = (0..1024u32).map(|x| (x % 251) as u8).collect();
    b.add_data(0x2000, data.clone());
    let plan = b.build(&alg, &map).unwrap();
    let mut loader = FlashLoader::new();
    loader.run(&mut sim, &alg, &plan, &cfg).unwrap();
    assert_eq!(loader.phase, LoaderPhase::Done);
    let got = sim.read_block(0x2000, 1024).unwrap();
    assert_eq!(got, data);
}

#[test]
fn forced_mismatch_is_detected_with_exact_address() {
    let mut cfgp = sim_config();
    cfgp.corrupt = Some(0x2010);
    let mut sim = SimProbe::new(cfgp);
    let alg = test_algorithm();
    let map = test_map();
    let cfg = Config { verify: true, timeout_polls: 10 };
    let mut b = FlashBuilder::new();
    b.add_data(0x2000, vec![7u8; 1024]);
    let plan = b.build(&alg, &map).unwrap();
    let mut loader = FlashLoader::new();
    let e = loader.run(&mut sim, &alg, &plan, &cfg).unwrap_err();
    assert_eq!(e, FlashError::VerifyFailed(0x2010));
    assert_eq!(loader.phase, LoaderPhase::Failed);
}

#[test]
fn wedged_target_times_out() {
    let mut cfgp = sim_config();
    cfgp.hang = true;
    let mut sim = SimProbe::new(cfgp);
    let alg = test_algorithm();
    let map = test_map();
    let cfg = Config { verify: true, timeout_polls: 5 };
    let mut b = FlashBuilder::new();
    b.add_data(0, vec![1u8; 16]);
    let plan = b.build(&alg, &map).unwrap();
    let mut loader = FlashLoader::new();
    let e = loader.run(&mut sim, &alg, &plan, &cfg).unwrap_err();
    assert!(matches!(e, FlashError::Timeout(_)));
    assert_eq!(loader.phase, LoaderPhase::Failed);
}

#[test]
fn algorithm_status_aborts_remaining_pages() {
    // ten pages over three sectors; the call that programs the third
    // page reports status 1
    let mut cfgp = sim_config();
    cfgp.statuses = vec![0, 0, 0, 1];
    let mut sim = SimProbe::new(cfgp);
    let alg = test_algorithm();
    let map = test_map();
    let cfg = Config { verify: true, timeout_polls: 10 };
    let mut b = FlashBuilder::new();
    b.add_data(0, vec![7u8; 10 * 1024]);
    let plan = b.build(&alg, &map).unwrap();
    let total_pages: usize = plan.iter().map(|s| s.pages.len()).sum();
    assert_eq!(total_pages, 10);
    let mut loader = FlashLoader::new();
    let e = loader.run(&mut sim, &alg, &plan, &cfg).unwrap_err();
    // the third page starts at 0x800
    assert_eq!(e, FlashError::AlgorithmError(1, 0x800));
    assert_eq!(loader.phase, LoaderPhase::Failed);
    // calls: erase sector 0, three page programs, then best-effort uninit
    let calls = sim.calls_made();
    assert_eq!(calls.len(), 5);
    assert_eq!(*calls.last().unwrap(), 0x2000_0000 + 8);
}

#[test]
fn registry_select_is_case_insensitive() {
    let td = probe_rs::parse_text(descriptor_text(true).as_slice()).unwrap();
    let mut reg = Registry::new();
    reg.add(td);
    assert!(reg.select(b"TESTCHIP").is_ok());
    assert!(reg.select(b"testchip").is_ok());
    let e = reg.select(b"other").unwrap_err();
    assert_eq!(e, TargetSelectionError::UnknownTarget(b"other".to_vec()));
}

fn descriptor_text(with_erase: bool) -> Vec<u8> {
    let mut t = String::new();
    t.push_str("# test chip\n");
    t.push_str("name=testchip\n");
    t.push_str("region=flash:0x0:0x20000\n");
    t.push_str("region=ram:0x20000000:0x10000\n");
    t.push_str("algorithm=main\n");
    t.push_str("load_address=0x20000000\n");
    t.push_str("program_page=4\n");
    if with_erase {
        t.push_str("erase_sector=0\n");
    }
    t.push_str("uninit=8\n");
    t.push_str("page_size=1024\n");
    t.push_str("sector_size=4096\n");
    t.push_str("stack_top=0x20008000\n");
    t.push_str("buffer=0x20001000\n");
    t.push_str("code=00112233445566778899aabbccddeeff\n");
    t.into_bytes()
}

#[test]
fn descriptor_parses_and_is_validated() {
    let td = probe_rs::parse_text(descriptor_text(true).as_slice()).unwrap();
    assert_eq!(td.name, b"testchip".to_vec());
    assert_eq!(td.flash_algorithms.len(), 1);
    let alg = &td.flash_algorithms[0].algorithm;
    assert_eq!(alg.program_page, 4);
    assert_eq!(alg.erase_sector, 0);
    assert_eq!(alg.page_size, 1024);
    assert_eq!(alg.sector_size, 4096);
    assert_eq!(alg.code.len(), 16);
    assert_eq!(alg.code[1], 0x11);
}

#[test]
fn missing_erase_sector_is_rejected_identically() {
    let text = descriptor_text(false);
    let e1 = probe_rs::parse_text(text.as_slice()).unwrap_err();
    let e2 = probe_rs::parse_text(text.as_slice()).unwrap_err();
    assert_eq!(e1, AlgorithmParseError::MissingFunction(FlashRoutine::EraseSector));
    assert_eq!(e1, e2);
}

#[test]
fn missing_program_page_is_rejected_identically() {
    let mut raw = probe_rs::RawAlgorithm::new();
    raw.erase_sector = Some(0);
    let map = test_map();
    let e1 = probe_rs::assemble_algorithm(raw, &map).unwrap_err();
    assert_eq!(e1, AlgorithmParseError::MissingFunction(FlashRoutine::ProgramPage));
}

#[test]
fn default_config_enables_verify() {
    let c = Config::default();
    assert!(c.verify);
    assert_eq!(c.timeout_polls, 1000);
    assert_eq!(Config::new().unwrap(), c);
}

#[test]
fn scanner_keeps_blocks_raw_and_assembly_validates_them() {
    let d = probe_rs::scan_text(descriptor_text(true).as_slice()).unwrap();
    assert_eq!(d.name, b"testchip".to_vec());
    assert_eq!(d.regions.len(), 2);
    assert_eq!(d.blocks.len(), 1);
    assert_eq!(d.blocks[0].name, b"main".to_vec());
    assert_eq!(d.blocks[0].raw.erase_sector, Some(0));
    let td = probe_rs::assemble_descriptor(d).unwrap();
    assert_eq!(td.flash_algorithms.len(), 1);
}

#[test]
fn first_failing_block_decides_the_error() {
    let mut text = descriptor_text(true);
    text.extend_from_slice(
        b"algorithm=beta\nload_address=0x20000000\nprogram_page=4\npage_size=1024\n",
    );
    text.extend_from_slice(b"sector_size=4096\nstack_top=0x20008000\nbuffer=0x20001000\n");
    text.extend_from_slice(b"code=00000000\n");
    let e = probe_rs::parse_text(text.as_slice()).unwrap_err();
    assert_eq!(e, AlgorithmParseError::MissingFunction(FlashRoutine::EraseSector));
}
