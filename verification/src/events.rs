//! What a run reports, and the line of text that each report becomes.

use crate::text::{
    comma_separated, decimal, hex, pad_left, push_bytes, push_decimal, push_decimal_padded,
    push_hex_padded, push_word, word,
};
use crate::timing::{FramePosition, VBLANK_END, VBLANK_START};
use vstd::prelude::*;
use vstd::utf8::{decode_utf8, valid_utf8};

verus! {

/// One report. In all of them `count` is the number of instructions executed
/// before the one that the report is about, `pc` is the address of that
/// instruction and `t` the time at which it started.
#[derive(Debug)]
pub enum Event {
    /// The machine gave up on the instruction.
    Panicked { count: u64, pc: u16, message: String },
    /// A HALT instruction was executed.
    Halt { number: u64, count: u64, pc: u16, t: u64 },
    /// The second HALT is over.
    HaltExit { count: u64, pc: u16, t: u64 },
    /// Where in the picture the moment just reported lies.
    Frame { position: FramePosition },
    /// A delay routine was called.
    DelayCall { count: u64, pc: u16, t: u64 },
    /// Time that has passed since the second HALT was over.
    Elapsed { cycles: u64 },
    /// The interrupt flags were read.
    FlagsRead { count: u64, pc: u16, t: u64, flags: u8 },
    /// The same time in whole frames and what is left over.
    ElapsedFrames { frames: u64, cycles: u64 },
    /// The timer counter was written.
    TimaWrite { count: u64, pc: u16, before: u8, after: u8, raw_div: u64, tac: u8 },
    /// The timer counter was read right after it was written.
    TimaRead { count: u64, pc: u16, value: u8, raw_div: u64, write: u64 },
    /// The program counter was somewhere new.
    NewPc { count: u64, pc: u16, instruction: String, sp: u16 },
    /// More bytes came out of the serial port.
    Serial { count: u64, bytes: Vec<u8> },
    /// The run is over.
    Stopped { max: u64, pc: u16, sp: u16 },
    /// How often the timer counter was written.
    TimaWrites { writes: u64 },
    /// The first values that were read right after a write.
    TimaReads { values: Vec<u8> },
    /// How many of the values read right after a write were zero.
    TimaZeros { zeros: u64, total: u64 },
}

/// A report without regard to how its text and bytes are stored.
pub ghost enum EventView {
    Panicked { count: nat, pc: u16, message: Seq<char> },
    Halt { number: nat, count: nat, pc: u16, t: u64 },
    HaltExit { count: nat, pc: u16, t: u64 },
    Frame { position: FramePosition },
    DelayCall { count: nat, pc: u16, t: u64 },
    Elapsed { cycles: nat },
    FlagsRead { count: nat, pc: u16, t: u64, flags: u8 },
    ElapsedFrames { frames: nat, cycles: nat },
    TimaWrite { count: nat, pc: u16, before: u8, after: u8, raw_div: u64, tac: u8 },
    TimaRead { count: nat, pc: u16, value: u8, raw_div: u64, write: nat },
    NewPc { count: nat, pc: u16, instruction: Seq<char>, sp: u16 },
    Serial { count: nat, bytes: Seq<u8> },
    Stopped { max: u64, pc: u16, sp: u16 },
    TimaWrites { writes: nat },
    TimaReads { values: Seq<u8> },
    TimaZeros { zeros: nat, total: nat },
}

impl View for Event {
    type V = EventView;

    open spec fn view(&self) -> EventView {
        match *self {
            Event::Panicked { count, pc, message } => EventView::Panicked {
                count: count as nat,
                pc,
                message: message@,
            },
            Event::Halt { number, count, pc, t } => EventView::Halt {
                number: number as nat,
                count: count as nat,
                pc,
                t,
            },
            Event::HaltExit { count, pc, t } => EventView::HaltExit { count: count as nat, pc, t },
            Event::Frame { position } => EventView::Frame { position },
            Event::DelayCall { count, pc, t } => EventView::DelayCall { count: count as nat, pc, t },
            Event::Elapsed { cycles } => EventView::Elapsed { cycles: cycles as nat },
            Event::FlagsRead { count, pc, t, flags } => EventView::FlagsRead {
                count: count as nat,
                pc,
                t,
                flags,
            },
            Event::ElapsedFrames { frames, cycles } => EventView::ElapsedFrames {
                frames: frames as nat,
                cycles: cycles as nat,
            },
            Event::TimaWrite { count, pc, before, after, raw_div, tac } => EventView::TimaWrite {
                count: count as nat,
                pc,
                before,
                after,
                raw_div,
                tac,
            },
            Event::TimaRead { count, pc, value, raw_div, write } => EventView::TimaRead {
                count: count as nat,
                pc,
                value,
                raw_div,
                write: write as nat,
            },
            Event::NewPc { count, pc, instruction, sp } => EventView::NewPc {
                count: count as nat,
                pc,
                instruction: instruction@,
                sp,
            },
            Event::Serial { count, bytes } => EventView::Serial {
                count: count as nat,
                bytes: bytes@,
            },
            Event::Stopped { max, pc, sp } => EventView::Stopped { max, pc, sp },
            Event::TimaWrites { writes } => EventView::TimaWrites { writes: writes as nat },
            Event::TimaReads { values } => EventView::TimaReads { values: values@ },
            Event::TimaZeros { zeros, total } => EventView::TimaZeros {
                zeros: zeros as nat,
                total: total as nat,
            },
        }
    }
}

/// The text that [`String::from_utf8_lossy`] makes of bytes.
pub uninterp spec fn lossy_text(bytes: Seq<u8>) -> Seq<char>;

/// Calls [`String::from_utf8_lossy`]. Its result depends on the bytes alone.
/// Where they are valid UTF-8 it is the text that they encode; where they are
/// not, it holds the replacement character U+FFFD. How many of these stand in
/// for which bytes is not stated.
#[verifier::external_body]
fn decode_lossy(bytes: &[u8]) -> (text: String)
    ensures
        text@ == lossy_text(bytes@),
        valid_utf8(bytes@) ==> text@ == decode_utf8(bytes@),
        !valid_utf8(bytes@) ==> text@.contains('\u{FFFD}'),
{
    String::from_utf8_lossy(bytes).into_owned()
}

/// An address as it is written on every line.
pub open spec fn address(a: u16) -> Seq<char> {
    "0x"@ + pad_left(hex(a as nat), 4, '0')
}

/// The column that many lines start with: the number of instructions so far,
/// at least eight characters wide.
pub open spec fn count_column(count: nat) -> Seq<char> {
    "["@ + pad_left(decimal(count), 8, ' ') + "] "@
}

/// How text that came out of the serial port is shown.
pub open spec fn serial_text(count: nat, text: Seq<char>) -> Seq<char> {
    "<<SERIAL @"@ + decimal(count) + ": "@ + text + ">>"@
}

impl EventView {
    /// The line of text that reports the event.
    pub open spec fn line(self) -> Seq<char> {
        match self {
            EventView::Panicked { count, pc, message } => {
                count_column(count) + "PC="@ + address(pc) + "  PANIC: "@ + message
            },
            EventView::Halt { number, count, pc, t } => {
                "[HALT_TRACE] HALT #"@ + decimal(number) + " at instr="@ + decimal(count) + " PC="@
                    + address(pc) + " t="@ + decimal(t as nat) + " (M-cycles)"@
            },
            EventView::HaltExit { count, pc, t } => {
                "[HALT_TRACE] HALT2 exit at instr="@ + decimal(count) + " PC="@ + address(pc)
                    + " t="@ + decimal(t as nat) + " (M-cycles)"@
            },
            EventView::Frame { position } => {
                "[HALT_TRACE]   frame="@ + decimal(position.frame as nat) + " pos="@ + decimal(
                    position.pos as nat,
                ) + " vblank="@ + decimal(VBLANK_START as nat) + "-"@ + decimal(VBLANK_END as nat)
                    + " in_vblank="@ + word(position.in_vblank)
            },
            EventView::DelayCall { count, pc, t } => {
                "[HALT_TRACE] DELAY_CALL at instr="@ + decimal(count) + " PC="@ + address(pc)
                    + " t="@ + decimal(t as nat)
            },
            EventView::Elapsed { cycles } => {
                "[HALT_TRACE]   elapsed since HALT exit: "@ + decimal(cycles) + " M-cycles"@
            },
            EventView::FlagsRead { count, pc, t, flags } => {
                "[HALT_TRACE] IF_READ at instr="@ + decimal(count) + " PC="@ + address(pc)
                    + " t="@ + decimal(t as nat) + " IF=0x"@ + pad_left(hex(flags as nat), 2, '0')
            },
            EventView::ElapsedFrames { frames, cycles } => {
                "[HALT_TRACE]   "@ + decimal(frames) + " frames + "@ + decimal(cycles)
                    + " M-cycles elapsed"@
            },
            EventView::TimaWrite { count, pc, before, after, raw_div, tac } => {
                count_column(count) + "TIMA_WRITE  PC="@ + address(pc) + "  before="@ + decimal(
                    before as nat,
                ) + " after="@ + decimal(after as nat) + "  div_raw="@ + decimal(raw_div as nat)
                    + " div_low="@ + decimal((raw_div % 256) as nat) + "  div%16="@ + decimal(
                    (raw_div % 16) as nat,
                ) + "  tac="@ + decimal(tac as nat)
            },
            EventView::TimaRead { count, pc, value, raw_div, write } => {
                count_column(count) + "TIMA_READ   PC="@ + address(pc) + "  value="@ + decimal(
                    value as nat,
                ) + "  div_raw="@ + decimal(raw_div as nat) + "  (write #"@ + decimal(write) + ")"@
            },
            EventView::NewPc { count, pc, instruction, sp } => {
                count_column(count) + "PC="@ + address(pc) + "  "@ + instruction + "  SP="@
                    + address(sp)
            },
            EventView::Serial { count, bytes } => {
                serial_text(count, lossy_text(bytes))
            },
            EventView::Stopped { max, pc, sp } => {
                "--- stopped after "@ + decimal(max as nat) + " instructions. PC="@ + address(pc)
                    + " SP="@ + address(sp) + " ---"@
            },
            EventView::TimaWrites { writes } => { "TIMA writes: "@ + decimal(writes) },
            EventView::TimaReads { values } => {
                "TIMA reads after write (first 20): ["@ + comma_separated(values) + "]"@
            },
            EventView::TimaZeros { zeros, total } => {
                "Reads where TIMA=0: "@ + decimal(zeros) + " / "@ + decimal(total)
            },
        }
    }
}

/// Appends an address.
fn push_address(out: &mut String, a: u16)
    ensures
        final(out)@ == old(out)@ + address(a),
{
    out.append("0x");
    push_hex_padded(out, a, 4);
    assert(out@ =~= old(out)@ + address(a));
}

/// The start of a line: the number of instructions so far.
fn start_with_count(count: u64) -> (line: String)
    ensures
        line@ == count_column(count as nat),
{
    let mut line = "[".to_owned();
    push_decimal_padded(&mut line, count, 8);
    line.append("] ");
    line
}

/// Writes the line that shows text from the serial port.
pub fn serial_line(count: u64, text: &str) -> (line: String)
    ensures
        line@ == serial_text(count as nat, text@),
{
    let mut line = "<<SERIAL @".to_owned();
    push_decimal(&mut line, count);
    line.append(": ");
    line.append(text);
    line.append(">>");
    line
}

impl Event {
    /// Writes the line of text that reports the event. Bytes from the serial
    /// port that are valid UTF-8 are shown as the text that they encode; others
    /// leave a replacement character on the line.
    pub fn to_line(&self) -> (line: String)
        ensures
            line@ == self@.line(),
            self@ matches EventView::Serial { count, bytes } ==> valid_utf8(bytes) ==> line@
                == serial_text(count, decode_utf8(bytes)),
            self@ matches EventView::Serial { count, bytes } ==> !valid_utf8(bytes)
                ==> line@.contains('\u{FFFD}'),
    {
        match self {
            Event::Panicked { count, pc, message } => {
                let mut line = start_with_count(*count);
                line.append("PC=");
                push_address(&mut line, *pc);
                line.append("  PANIC: ");
                line.append(message.as_str());
                line
            },
            Event::Halt { number, count, pc, t } => {
                let mut line = "[HALT_TRACE] HALT #".to_owned();
                push_decimal(&mut line, *number);
                line.append(" at instr=");
                push_decimal(&mut line, *count);
                line.append(" PC=");
                push_address(&mut line, *pc);
                line.append(" t=");
                push_decimal(&mut line, *t);
                line.append(" (M-cycles)");
                line
            },
            Event::HaltExit { count, pc, t } => {
                let mut line = "[HALT_TRACE] HALT2 exit at instr=".to_owned();
                push_decimal(&mut line, *count);
                line.append(" PC=");
                push_address(&mut line, *pc);
                line.append(" t=");
                push_decimal(&mut line, *t);
                line.append(" (M-cycles)");
                line
            },
            Event::Frame { position } => {
                let mut line = "[HALT_TRACE]   frame=".to_owned();
                push_decimal(&mut line, position.frame);
                line.append(" pos=");
                push_decimal(&mut line, position.pos);
                line.append(" vblank=");
                push_decimal(&mut line, VBLANK_START);
                line.append("-");
                push_decimal(&mut line, VBLANK_END);
                line.append(" in_vblank=");
                push_word(&mut line, position.in_vblank);
                line
            },
            Event::DelayCall { count, pc, t } => {
                let mut line = "[HALT_TRACE] DELAY_CALL at instr=".to_owned();
                push_decimal(&mut line, *count);
                line.append(" PC=");
                push_address(&mut line, *pc);
                line.append(" t=");
                push_decimal(&mut line, *t);
                line
            },
            Event::Elapsed { cycles } => {
                let mut line = "[HALT_TRACE]   elapsed since HALT exit: ".to_owned();
                push_decimal(&mut line, *cycles);
                line.append(" M-cycles");
                line
            },
            Event::FlagsRead { count, pc, t, flags } => {
                let mut line = "[HALT_TRACE] IF_READ at instr=".to_owned();
                push_decimal(&mut line, *count);
                line.append(" PC=");
                push_address(&mut line, *pc);
                line.append(" t=");
                push_decimal(&mut line, *t);
                line.append(" IF=0x");
                push_hex_padded(&mut line, *flags as u16, 2);
                line
            },
            Event::ElapsedFrames { frames, cycles } => {
                let mut line = "[HALT_TRACE]   ".to_owned();
                push_decimal(&mut line, *frames);
                line.append(" frames + ");
                push_decimal(&mut line, *cycles);
                line.append(" M-cycles elapsed");
                line
            },
            Event::TimaWrite { count, pc, before, after, raw_div, tac } => {
                let mut line = start_with_count(*count);
                line.append("TIMA_WRITE  PC=");
                push_address(&mut line, *pc);
                line.append("  before=");
                push_decimal(&mut line, *before as u64);
                line.append(" after=");
                push_decimal(&mut line, *after as u64);
                line.append("  div_raw=");
                push_decimal(&mut line, *raw_div);
                line.append(" div_low=");
                push_decimal(&mut line, *raw_div % 256);
                line.append("  div%16=");
                push_decimal(&mut line, *raw_div % 16);
                line.append("  tac=");
                push_decimal(&mut line, *tac as u64);
                line
            },
            Event::TimaRead { count, pc, value, raw_div, write } => {
                let mut line = start_with_count(*count);
                line.append("TIMA_READ   PC=");
                push_address(&mut line, *pc);
                line.append("  value=");
                push_decimal(&mut line, *value as u64);
                line.append("  div_raw=");
                push_decimal(&mut line, *raw_div);
                line.append("  (write #");
                push_decimal(&mut line, *write);
                line.append(")");
                line
            },
            Event::NewPc { count, pc, instruction, sp } => {
                let mut line = start_with_count(*count);
                line.append("PC=");
                push_address(&mut line, *pc);
                line.append("  ");
                line.append(instruction.as_str());
                line.append("  SP=");
                push_address(&mut line, *sp);
                line
            },
            Event::Serial { count, bytes } => {
                let text = decode_lossy(bytes.as_slice());
                let line = serial_line(*count, text.as_str());
                proof {
                    let start = "<<SERIAL @"@ + decimal(*count as nat) + ": "@;
                    assert forall|i: int| 0 <= i < text@.len() implies line@[start.len() + i]
                        == #[trigger] text@[i] by {}
                }
                line
            },
            Event::Stopped { max, pc, sp } => {
                let mut line = "--- stopped after ".to_owned();
                push_decimal(&mut line, *max);
                line.append(" instructions. PC=");
                push_address(&mut line, *pc);
                line.append(" SP=");
                push_address(&mut line, *sp);
                line.append(" ---");
                line
            },
            Event::TimaWrites { writes } => {
                let mut line = "TIMA writes: ".to_owned();
                push_decimal(&mut line, *writes);
                line
            },
            Event::TimaReads { values } => {
                let mut line = "TIMA reads after write (first 20): [".to_owned();
                push_bytes(&mut line, values);
                line.append("]");
                line
            },
            Event::TimaZeros { zeros, total } => {
                let mut line = "Reads where TIMA=0: ".to_owned();
                push_decimal(&mut line, *zeros);
                line.append(" / ");
                push_decimal(&mut line, *total);
                line
            },
        }
    }
}

/// Every address takes up the same room: `0x` and four digits.
pub proof fn lemma_addresses_align(a: u16)
    ensures
        address(a).len() == 6,
{
    reveal_strlit("0x");
    reveal_with_fuel(hex, 4);
}

/// Lines that start with the number of instructions line up until that number
/// has more than eight digits.
pub proof fn lemma_counts_align(count: nat)
    requires
        count < 100_000_000,
    ensures
        count_column(count).len() == 11,
{
    reveal_strlit("[");
    reveal_strlit("] ");
    reveal_with_fuel(decimal, 8);
}

} // verus!
