use debug_blargg::events::{serial_line, Event};
use debug_blargg::timing::FramePosition;

#[test]
fn lines() {
    let cases = [
        (
            Event::Panicked { count: 42, pc: 0x01AB, message: "no such opcode".to_string() },
            "[      42] PC=0x01AB  PANIC: no such opcode",
        ),
        (
            Event::Halt { number: 2, count: 1234, pc: 0xC089, t: 99 },
            "[HALT_TRACE] HALT #2 at instr=1234 PC=0xC089 t=99 (M-cycles)",
        ),
        (
            Event::HaltExit { count: 1235, pc: 0xC08B, t: 100 },
            "[HALT_TRACE] HALT2 exit at instr=1235 PC=0xC08B t=100 (M-cycles)",
        ),
        (
            Event::Frame { position: FramePosition::new(17556 * 3 + 16416) },
            "[HALT_TRACE]   frame=3 pos=16416 vblank=16416-17556 in_vblank=true",
        ),
        (
            Event::Frame { position: FramePosition::new(5) },
            "[HALT_TRACE]   frame=0 pos=5 vblank=16416-17556 in_vblank=false",
        ),
        (
            Event::DelayCall { count: 7, pc: 0xC092, t: 8 },
            "[HALT_TRACE] DELAY_CALL at instr=7 PC=0xC092 t=8",
        ),
        (
            Event::Elapsed { cycles: 12345 },
            "[HALT_TRACE]   elapsed since HALT exit: 12345 M-cycles",
        ),
        (
            Event::FlagsRead { count: 7, pc: 0xC0A0, t: 8, flags: 0x0E },
            "[HALT_TRACE] IF_READ at instr=7 PC=0xC0A0 t=8 IF=0x0E",
        ),
        (
            Event::ElapsedFrames { frames: 2, cycles: 17 },
            "[HALT_TRACE]   2 frames + 17 M-cycles elapsed",
        ),
        (
            Event::TimaWrite { count: 0, pc: 0, before: 1, after: 255, raw_div: 0x1234, tac: 5 },
            "[       0] TIMA_WRITE  PC=0x0000  before=1 after=255  div_raw=4660 div_low=52  div%16=4  tac=5",
        ),
        (
            Event::TimaRead { count: 9, pc: 0xFFFF, value: 3, raw_div: 4660, write: 11 },
            "[       9] TIMA_READ   PC=0xFFFF  value=3  div_raw=4660  (write #11)",
        ),
        (
            Event::NewPc { count: 123456789, pc: 0x100, instruction: "NOP".to_string(), sp: 0xFFFE },
            "[123456789] PC=0x0100  NOP  SP=0xFFFE",
        ),
        (
            Event::Serial { count: 3, bytes: b"Passed\n".to_vec() },
            "<<SERIAL @3: Passed\n>>",
        ),
        (
            Event::Stopped { max: 10_000_000, pc: 0xC0, sp: 0xDFFF },
            "--- stopped after 10000000 instructions. PC=0x00C0 SP=0xDFFF ---",
        ),
        (Event::TimaWrites { writes: 0 }, "TIMA writes: 0"),
        (
            Event::TimaReads { values: vec![] },
            "TIMA reads after write (first 20): []",
        ),
        (
            Event::TimaReads { values: vec![0, 10, 255] },
            "TIMA reads after write (first 20): [0, 10, 255]",
        ),
        (
            Event::TimaZeros { zeros: 1, total: 3 },
            "Reads where TIMA=0: 1 / 3",
        ),
    ];
    for (event, line) in cases {
        assert_eq!(event.to_line(), line);
    }
}

#[test]
fn numbers_are_written_as_by_the_standard_library() {
    for count in [0u64, 9, 10, 9_999_999, 99_999_999, 100_000_000, u64::MAX] {
        for pc in [0u16, 9, 0xF, 0x10, 0xABC, 0xC0DE, 0xFFFF] {
            let event = Event::Panicked { count, pc, message: String::new() };
            assert_eq!(event.to_line(), format!("[{:8}] PC=0x{:04X}  PANIC: {}", count, pc, ""));
        }
    }
    for flags in 0..=255u8 {
        let event = Event::FlagsRead { count: 0, pc: 0, t: u64::MAX, flags };
        assert_eq!(
            event.to_line(),
            format!(
                "[HALT_TRACE] IF_READ at instr=0 PC=0x0000 t={} IF=0x{:02X}",
                u64::MAX, flags
            )
        );
    }
    for values in [vec![], vec![7u8], vec![0, 0], vec![1, 22, 255]] {
        let line = Event::TimaReads { values: values.clone() }.to_line();
        assert_eq!(line, format!("TIMA reads after write (first 20): {:?}", values));
    }
}

#[test]
fn the_low_byte_of_the_divider_is_shown() {
    for raw_div in [0u64, 15, 16, 255, 256, 0xABCD, 0xFFFF] {
        let event = Event::TimaWrite { count: 1, pc: 2, before: 3, after: 4, raw_div, tac: 5 };
        assert_eq!(
            event.to_line(),
            format!(
                "[{:8}] TIMA_WRITE  PC=0x{:04X}  before={} after={}  div_raw={} div_low={}  div%16={}  tac={}",
                1, 2, 3, 4, raw_div, raw_div & 0xFF, raw_div % 16, 5
            )
        );
    }
}

#[test]
fn serial_bytes_are_decoded() {
    let line = |bytes: &[u8]| Event::Serial { count: 5, bytes: bytes.to_vec() }.to_line();
    assert_eq!(line("\u{e9}\u{4e2d}".as_bytes()), "<<SERIAL @5: \u{e9}\u{4e2d}>>");
    assert_eq!(line(&[b'a', 0xFF, b'b']), "<<SERIAL @5: a\u{FFFD}b>>");
    assert_eq!(line(&[]), "<<SERIAL @5: >>");
    assert_eq!(serial_line(5, "text"), "<<SERIAL @5: text>>");
}

#[test]
fn columns_line_up() {
    let line = |count, pc| Event::Panicked { count, pc, message: String::new() }.to_line().len();
    assert_eq!(line(0, 0), line(99_999_999, 0xFFFF));
    assert_eq!(line(100_000_000, 0), line(0, 0) + 1);
}
