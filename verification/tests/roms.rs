use debug_blargg::roms::{rom_source, BuiltIn, RomSource};

#[test]
fn built_in_roms_have_names() {
    let roms = [
        ("cpu_instrs", BuiltIn::CpuInstrs),
        ("halt_bug", BuiltIn::HaltBug),
        ("instr_timing", BuiltIn::InstrTiming),
        ("mem_timing", BuiltIn::MemTiming),
        ("mem_timing_2", BuiltIn::MemTiming2),
        ("interrupt_time", BuiltIn::InterruptTime),
        ("dmg_sound", BuiltIn::DmgSound),
        ("oam_bug", BuiltIn::OamBug),
        ("cgb_sound", BuiltIn::CgbSound),
    ];
    for (name, rom) in roms {
        assert!(matches!(rom_source(name), RomSource::BuiltIn(r) if r == rom), "{}", name);
    }
}

#[test]
fn other_names_are_files() {
    for name in ["", "halt", "halt_bug.gb", "HALT_BUG", "mem_timing_", "/roms/tetris.gb"] {
        assert!(matches!(rom_source(name), RomSource::File(path) if path == name), "{}", name);
    }
}
