//! Where the ROM of a test comes from.

use crate::text::same_text;
use vstd::prelude::*;

verus! {

/// The test ROMs that are built in.
#[derive(Clone, Copy, Debug, PartialEq, Eq, Structural)]
pub enum BuiltIn {
    CpuInstrs,
    HaltBug,
    InstrTiming,
    MemTiming,
    MemTiming2,
    InterruptTime,
    DmgSound,
    OamBug,
    CgbSound,
}

/// Where to find a ROM.
#[derive(Debug)]
pub enum RomSource {
    BuiltIn(BuiltIn),
    /// The path of a file.
    File(String),
}

impl BuiltIn {
    /// The name that selects the ROM on the command line.
    pub open spec fn name(self) -> Seq<char> {
        match self {
            BuiltIn::CpuInstrs => "cpu_instrs"@,
            BuiltIn::HaltBug => "halt_bug"@,
            BuiltIn::InstrTiming => "instr_timing"@,
            BuiltIn::MemTiming => "mem_timing"@,
            BuiltIn::MemTiming2 => "mem_timing_2"@,
            BuiltIn::InterruptTime => "interrupt_time"@,
            BuiltIn::DmgSound => "dmg_sound"@,
            BuiltIn::OamBug => "oam_bug"@,
            BuiltIn::CgbSound => "cgb_sound"@,
        }
    }
}

/// The built-in ROM that a name selects.
pub open spec fn built_in_named(name: Seq<char>) -> Option<BuiltIn> {
    if name == "cpu_instrs"@ {
        Some(BuiltIn::CpuInstrs)
    } else if name == "halt_bug"@ {
        Some(BuiltIn::HaltBug)
    } else if name == "instr_timing"@ {
        Some(BuiltIn::InstrTiming)
    } else if name == "mem_timing"@ {
        Some(BuiltIn::MemTiming)
    } else if name == "mem_timing_2"@ {
        Some(BuiltIn::MemTiming2)
    } else if name == "interrupt_time"@ {
        Some(BuiltIn::InterruptTime)
    } else if name == "dmg_sound"@ {
        Some(BuiltIn::DmgSound)
    } else if name == "oam_bug"@ {
        Some(BuiltIn::OamBug)
    } else if name == "cgb_sound"@ {
        Some(BuiltIn::CgbSound)
    } else {
        None
    }
}

/// Each built-in ROM is selected by its own name.
pub proof fn lemma_every_built_in_is_selected(rom: BuiltIn)
    ensures
        built_in_named(rom.name()) == Some(rom),
{
    reveal_strlit("cpu_instrs");
    reveal_strlit("halt_bug");
    reveal_strlit("instr_timing");
    reveal_strlit("mem_timing");
    reveal_strlit("mem_timing_2");
    reveal_strlit("interrupt_time");
    reveal_strlit("dmg_sound");
    reveal_strlit("oam_bug");
    reveal_strlit("cgb_sound");
    let other = built_in_named(rom.name())->0;
    assert(other.name() == rom.name());
    assert(other.name()[0] == rom.name()[0]);
    assert(other.name().len() == rom.name().len());
}

/// No two built-in ROMs answer to the same name.
pub proof fn lemma_names_are_distinct(a: BuiltIn, b: BuiltIn)
    requires
        a.name() == b.name(),
    ensures
        a == b,
{
    lemma_every_built_in_is_selected(a);
    lemma_every_built_in_is_selected(b);
}

/// A name that selects a built-in ROM is that ROM's own: every other name is
/// left to the file system.
pub proof fn lemma_only_names_select(name: Seq<char>)
    ensures
        built_in_named(name) is None <==> (forall|rom: BuiltIn| #[trigger] rom.name() != name),
        built_in_named(name) matches Some(rom) ==> rom.name() == name,
{
    if built_in_named(name) is None {
        assert forall|rom: BuiltIn| #[trigger] rom.name() != name by {
            lemma_every_built_in_is_selected(rom);
        }
    } else {
        assert((built_in_named(name)->0).name() == name);
    }
}

/// A ROM source without regard to how a path is stored.
pub ghost enum RomSourceView {
    BuiltIn(BuiltIn),
    File(Seq<char>),
}

impl View for RomSource {
    type V = RomSourceView;

    open spec fn view(&self) -> RomSourceView {
        match *self {
            RomSource::BuiltIn(rom) => RomSourceView::BuiltIn(rom),
            RomSource::File(path) => RomSourceView::File(path@),
        }
    }
}

/// Where the ROM that a name stands for is to be found.
pub open spec fn source_of(name: Seq<char>) -> RomSourceView {
    match built_in_named(name) {
        Some(rom) => RomSourceView::BuiltIn(rom),
        None => RomSourceView::File(name),
    }
}

/// Nothing of a name is lost: where the ROM is found tells the name, as that of
/// the built-in ROM or as the path, so that two names never lead to the same
/// place.
pub proof fn lemma_sources_tell_names(a: Seq<char>, b: Seq<char>)
    ensures
        source_of(a) matches RomSourceView::BuiltIn(rom) ==> rom.name() == a,
        source_of(a) matches RomSourceView::File(path) ==> path == a,
        source_of(a) is File <==> (forall|rom: BuiltIn| #[trigger] rom.name() != a),
        source_of(a) == source_of(b) ==> a == b,
{
    lemma_only_names_select(a);
    lemma_only_names_select(b);
}

/// Finds the ROM that `name` stands for: the built-in one of that name, or else
/// the file at that path.
pub fn rom_source(name: &str) -> (source: RomSource)
    ensures
        match built_in_named(name@) {
            Some(rom) => source == RomSource::BuiltIn(rom),
            None => source matches RomSource::File(path) && path@ == name@,
        },
        source@ == source_of(name@),
{
    if same_text(name, "cpu_instrs") {
        RomSource::BuiltIn(BuiltIn::CpuInstrs)
    } else if same_text(name, "halt_bug") {
        RomSource::BuiltIn(BuiltIn::HaltBug)
    } else if same_text(name, "instr_timing") {
        RomSource::BuiltIn(BuiltIn::InstrTiming)
    } else if same_text(name, "mem_timing") {
        RomSource::BuiltIn(BuiltIn::MemTiming)
    } else if same_text(name, "mem_timing_2") {
        RomSource::BuiltIn(BuiltIn::MemTiming2)
    } else if same_text(name, "interrupt_time") {
        RomSource::BuiltIn(BuiltIn::InterruptTime)
    } else if same_text(name, "dmg_sound") {
        RomSource::BuiltIn(BuiltIn::DmgSound)
    } else if same_text(name, "oam_bug") {
        RomSource::BuiltIn(BuiltIn::OamBug)
    } else if same_text(name, "cgb_sound") {
        RomSource::BuiltIn(BuiltIn::CgbSound)
    } else {
        RomSource::File(name.to_owned())
    }
}

} // verus!
