use debug_blargg::events::Event;
use debug_blargg::options::Config;
use debug_blargg::tracer::{Readings, Tick, Tracer};

fn config(tima_trace: bool, halt_trace: bool, max_instructions: u64) -> Config {
    Config { tima_trace, halt_trace, max_instructions }
}

fn tick<'a>(pc: u16, start: u64, instruction: &'a str) -> Tick<'a> {
    Tick { pc, start, instruction, interrupt_flags: 0xE1 }
}

fn readings(tima_after: u8, serial: &[u8]) -> Readings<'_> {
    Readings {
        tima_before: 8,
        tima_after,
        tac: 5,
        raw_div: 0x1234,
        sp: 0xFFFE,
        next_pc: 0x0200,
        serial,
    }
}

fn lines(events: &[Event]) -> Vec<String> {
    events.iter().map(|e| e.to_line()).collect()
}

/// Everything that is reported of one instruction, and whether the run is over.
fn step(tracer: &mut Tracer, tick: Tick, readings: Readings) -> (Vec<String>, bool) {
    assert!(tracer.accepts(&tick));
    let mut told = lines(&tracer.trace_tick(&tick));
    let step = tracer.trace_cycles(&tick, &readings);
    told.extend(lines(&step.events));
    (told, step.done)
}

#[test]
fn each_address_is_reported_once() {
    let mut t = Tracer::new(config(false, false, 100));
    assert!(t.wants_instruction(0x100));
    let (told, done) = step(&mut t, tick(0x100, 0, "NOP"), readings(0, b""));
    assert_eq!(told, ["[       0] PC=0x0100  NOP  SP=0xFFFE"]);
    assert!(!done);
    assert!(!t.wants_instruction(0x100));
    assert!(t.wants_instruction(0x101));
    let (told, _) = step(&mut t, tick(0x101, 1, "JR(-1)"), readings(0, b""));
    assert_eq!(told, ["[       1] PC=0x0101  JR(-1)  SP=0xFFFE"]);
    let (told, _) = step(&mut t, tick(0x100, 2, ""), readings(0, b""));
    assert!(told.is_empty());
}

#[test]
fn a_run_ends_at_its_limit() {
    for max in [0u64, 1, 2, 5] {
        let mut t = Tracer::new(config(false, false, max));
        let mut count = 0u64;
        loop {
            let (told, done) = step(&mut t, tick(0x100, count, "NOP"), readings(0, b""));
            count += 1;
            let end = format!("--- stopped after {} instructions. PC=0x0200 SP=0xFFFE ---", max);
            assert_eq!(told.contains(&end), done);
            if done {
                break;
            }
        }
        assert_eq!(count, max.max(1));
    }
}

#[test]
fn serial_output_is_reported_once() {
    let mut t = Tracer::new(config(true, false, 100));
    let (told, _) = step(&mut t, tick(1, 0, "NOP"), readings(0, b""));
    assert!(told.is_empty());
    let (told, _) = step(&mut t, tick(1, 1, "NOP"), readings(0, b"ab"));
    assert_eq!(told, ["<<SERIAL @1: ab>>"]);
    let (told, _) = step(&mut t, tick(1, 2, "NOP"), readings(0, b"ab"));
    assert!(told.is_empty());
    let (told, _) = step(&mut t, tick(1, 3, "NOP"), readings(0, b"abcde"));
    assert_eq!(told, ["<<SERIAL @3: cde>>"]);
    let (told, _) = step(&mut t, tick(1, 4, "NOP"), readings(0, b"x"));
    assert!(told.is_empty());
    let (told, _) = step(&mut t, tick(1, 5, "NOP"), readings(0, b"vwxyz!"));
    assert_eq!(told, ["<<SERIAL @5: !>>"]);
}

#[test]
fn tima_reads_count_only_right_after_a_write() {
    let write = "LD_8_TO_FF_IMMEDIATE(5)";
    let read = "LD_8_FROM_FF_IMMEDIATE(5)";
    let mut t = Tracer::new(config(true, false, 8));
    assert!(!t.wants_raw_div(read));
    assert!(t.wants_raw_div(write));
    let (told, _) = step(&mut t, tick(1, 0, read), readings(1, b""));
    assert!(told.is_empty());
    let (told, _) = step(&mut t, tick(2, 0, write), readings(2, b""));
    assert_eq!(
        told,
        ["[       1] TIMA_WRITE  PC=0x0002  before=8 after=2  div_raw=4660 div_low=52  div%16=4  tac=5"]
    );
    assert!(t.wants_raw_div(read));
    let (told, _) = step(&mut t, tick(3, 0, read), readings(0, b""));
    assert_eq!(told, ["[       2] TIMA_READ   PC=0x0003  value=0  div_raw=4660  (write #1)"]);
    let (told, _) = step(&mut t, tick(3, 0, read), readings(4, b""));
    assert!(told.is_empty());
    step(&mut t, tick(2, 0, write), readings(2, b""));
    let (told, _) = step(&mut t, tick(4, 0, "NOP"), readings(2, b""));
    assert!(told.is_empty());
    step(&mut t, tick(2, 0, "LD_8_TO_MEMORY_IMMEDIATE(55301)"), readings(2, b""));
    let (told, done) =
        step(&mut t, tick(5, 0, "LD_8_FROM_MEMORY_IMMEDIATE(65285)"), readings(9, b""));
    assert!(done);
    assert_eq!(
        told,
        [
            "[       7] TIMA_READ   PC=0x0005  value=9  div_raw=4660  (write #3)",
            "--- stopped after 8 instructions. PC=0x0200 SP=0xFFFE ---",
            "TIMA writes: 3",
            "TIMA reads after write (first 20): [0, 9]",
            "Reads where TIMA=0: 1 / 2",
        ]
    );
}

#[test]
fn what_is_taken_for_an_access_to_tima() {
    let t = Tracer::new(config(true, false, 1));
    assert!(!t.wants_raw_div("LD_8_TO_FF_IMMEDIATE(6)"));
    assert!(!t.wants_raw_div("LD_8_TO_FF_IMMEDIATE(51)"));
    assert!(!t.wants_raw_div("LD_8_TO_MEMORY_IMMEDIATE(65285)"));
    assert!(t.wants_raw_div("LD_8_TO_MEMORY_IMMEDIATE(55301)"));
    let t = Tracer::new(config(false, true, 1));
    assert!(!t.wants_raw_div("LD_8_TO_FF_IMMEDIATE(5)"));
}

#[test]
fn the_summary_shows_twenty_values() {
    let mut t = Tracer::new(config(true, false, 50));
    for i in 0..25u8 {
        step(&mut t, tick(1, 0, "LD_8_TO_FF_IMMEDIATE(5)"), readings(1, b""));
        let (told, done) = step(&mut t, tick(2, 0, "LD_8_FROM_FF_IMMEDIATE(5)"), readings(i, b""));
        assert_eq!(done, i == 24);
        if done {
            assert_eq!(
                told[2..],
                [
                    "TIMA writes: 25".to_string(),
                    format!(
                        "TIMA reads after write (first 20): {:?}",
                        (0..20u8).collect::<Vec<u8>>()
                    ),
                    "Reads where TIMA=0: 1 / 25".to_string(),
                ]
            );
        }
    }
}

#[test]
fn halts_are_timed() {
    let mut t = Tracer::new(config(true, true, 100));
    let (told, _) = step(&mut t, tick(0xC070, 10, "HALT"), readings(0, b""));
    assert_eq!(told, ["[HALT_TRACE] HALT #1 at instr=0 PC=0xC070 t=10 (M-cycles)"]);
    let (told, _) = step(&mut t, tick(0xC092, 20, "CALL(1)"), readings(0, b""));
    assert_eq!(told, ["[HALT_TRACE] DELAY_CALL at instr=1 PC=0xC092 t=20"]);
    let (told, _) = step(&mut t, tick(0xC0A0, 30, "LD"), readings(0, b""));
    assert_eq!(told, ["[HALT_TRACE] IF_READ at instr=2 PC=0xC0A0 t=30 IF=0xE1"]);
    let (told, _) = step(&mut t, tick(0xC08A, 40, "HALT"), readings(0, b""));
    assert_eq!(told, ["[HALT_TRACE] HALT #2 at instr=3 PC=0xC08A t=40 (M-cycles)"]);
    let (told, _) = step(&mut t, tick(0xC08B, 16416, "LD_16_IMMEDIATE(DE, 3076)"), readings(0, b""));
    assert_eq!(
        told,
        [
            "[HALT_TRACE] HALT2 exit at instr=4 PC=0xC08B t=16416 (M-cycles)",
            "[HALT_TRACE]   frame=0 pos=16416 vblank=16416-17556 in_vblank=true",
        ]
    );
    for pc in [0xC092u16, 0xC097, 0xC09C] {
        let (told, _) = step(&mut t, tick(pc, 16500, "CALL(1)"), readings(0, b""));
        assert_eq!(told.len(), 2);
        assert_eq!(told[1], "[HALT_TRACE]   elapsed since HALT exit: 84 M-cycles");
    }
    assert!(t.wants_interrupt_flags(0xC0A0));
    assert!(!t.wants_interrupt_flags(0xC0A1));
    let (told, _) = step(&mut t, tick(0xC0A0, 16416 + 2 * 17556 + 5, "LD"), readings(0, b""));
    assert_eq!(
        told,
        [
            "[HALT_TRACE] IF_READ at instr=8 PC=0xC0A0 t=51533 IF=0xE1",
            "[HALT_TRACE]   elapsed since HALT exit: 35117 M-cycles",
            "[HALT_TRACE]   frame=2 pos=16421 vblank=16416-17556 in_vblank=true",
            "[HALT_TRACE]   2 frames + 5 M-cycles elapsed",
        ]
    );
}

#[test]
fn time_may_not_run_backwards() {
    let mut t = Tracer::new(config(false, true, 100));
    step(&mut t, tick(0xC08B, 100, "LD"), readings(0, b""));
    assert!(!t.accepts(&tick(0xC092, 99, "CALL(1)")));
    assert!(!t.accepts(&tick(0xC0A0, 99, "LD")));
    assert!(t.accepts(&tick(0xC092, 100, "CALL(1)")));
    assert!(t.accepts(&tick(0xC093, 0, "NOP")));
}

#[test]
fn nothing_is_traced_without_a_request() {
    let mut t = Tracer::new(config(false, false, 100));
    assert!(!t.wants_interrupt_flags(0xC0A0));
    for (i, pc) in [0xC08Bu16, 0xC092, 0xC0A0].iter().enumerate() {
        let (told, _) = step(&mut t, tick(*pc, 0, "HALT"), readings(0, b""));
        assert_eq!(told, [format!("[{:8}] PC=0x{:04X}  HALT  SP=0xFFFE", i, pc)]);
    }
    let (told, _) = step(&mut t, tick(0xC092, 0, "LD_8_TO_FF_IMMEDIATE(5)"), readings(0, b""));
    assert!(told.is_empty());
}

#[test]
fn readings_that_were_not_asked_for_do_not_matter() {
    let mut a = Tracer::new(config(false, false, 2));
    let mut b = Tracer::new(config(false, false, 2));
    for instruction in ["NOP", "HALT"] {
        let first = tick(1, 0, instruction);
        let mut second = tick(1, 0, if b.wants_instruction(1) { instruction } else { "" });
        second.interrupt_flags = 0;
        let mut other = readings(1, b"x");
        other.raw_div = 0;
        assert_eq!(step(&mut a, first, readings(1, b"x")), step(&mut b, second, other));
    }
}

#[test]
fn a_panic_ends_with_its_message() {
    let mut t = Tracer::new(config(false, false, 100));
    step(&mut t, tick(1, 0, "NOP"), readings(0, b""));
    let line = |message: Option<String>| t.panicked(0xABC, message).to_line();
    assert_eq!(line(Some("oh".to_string())), "[       1] PC=0x0ABC  PANIC: oh");
    assert_eq!(line(None), "[       1] PC=0x0ABC  PANIC: unknown panic");
}
