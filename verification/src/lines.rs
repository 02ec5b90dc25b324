//! What a reader finds on each line. A field is not compared with how it was
//! written: it is read back, as a number in base ten or sixteen, and has to be
//! the number that the report is about.

use crate::events::{lossy_text, serial_text, EventView};
use crate::reading::{
    digit_value, lemma_column_reads_back, lemma_decimal_reads_back, lemma_hex_reads_back,
    reads_as_column, reads_as_decimal, reads_as_hex,
};
use crate::text::{comma_separated, decimal, hex, pad_left};
use crate::timing::FramePosition;
use vstd::prelude::*;

verus! {

proof fn lemma_vblank_numbers()
    ensures
        decimal(16416) == "16416"@,
        decimal(17556) == "17556"@,
{
    reveal_with_fuel(decimal, 5);
    reveal_strlit("0123456789ABCDEF");
    reveal_strlit("16416");
    reveal_strlit("17556");
    assert(decimal(16416) =~= "16416"@);
    assert(decimal(17556) =~= "17556"@);
}

/// A line on a panic reads as what it reports.
pub proof fn lemma_panicked_line(count: nat, pc: u16, message: Seq<char>)
    ensures
        exists|c: Seq<char>, p: Seq<char>|
            {
                &&& #[trigger] reads_as_column(c, 8, count)
                &&& #[trigger] reads_as_hex(p, 4, pc as nat)
                &&& (EventView::Panicked { count, pc, message }).line() == "["@ + c + "] PC=0x"@
                        + p + "  PANIC: "@ + message
            },
{
    reveal_strlit("0x");
    reveal_strlit("PC=");
    reveal_strlit("] ");
    reveal_strlit("] PC=0x");
    lemma_column_reads_back(count, 8);
    lemma_hex_reads_back(pc as nat, 4);
    let line = (EventView::Panicked { count, pc, message }).line();
    let c = pad_left(decimal(count), 8, ' ');
    let p = pad_left(hex(pc as nat), 4, '0');
    assert(line =~= "["@ + c + "] PC=0x"@ + p + "  PANIC: "@ + message);
}

/// A line on a HALT instruction reads as what it reports.
pub proof fn lemma_halt_line(number: nat, count: nat, pc: u16, t: u64)
    ensures
        exists|n: Seq<char>, c: Seq<char>, p: Seq<char>, d: Seq<char>|
            {
                &&& #[trigger] reads_as_decimal(n, number)
                &&& #[trigger] reads_as_decimal(c, count)
                &&& #[trigger] reads_as_hex(p, 4, pc as nat)
                &&& #[trigger] reads_as_decimal(d, t as nat)
                &&& (EventView::Halt { number, count, pc, t }).line() == "[HALT_TRACE] HALT #"@
                        + n + " at instr="@ + c + " PC=0x"@ + p + " t="@ + d + " (M-cycles)"@
            },
{
    reveal_strlit(" PC=");
    reveal_strlit(" PC=0x");
    reveal_strlit("0x");
    lemma_decimal_reads_back(number);
    lemma_decimal_reads_back(count);
    lemma_hex_reads_back(pc as nat, 4);
    lemma_decimal_reads_back(t as nat);
    let line = (EventView::Halt { number, count, pc, t }).line();
    let n = decimal(number);
    let c = decimal(count);
    let p = pad_left(hex(pc as nat), 4, '0');
    let d = decimal(t as nat);
    assert(line =~= "[HALT_TRACE] HALT #"@ + n + " at instr="@ + c + " PC=0x"@ + p + " t="@ + d
            + " (M-cycles)"@);
}

/// A line on the exit from the second HALT reads as what it reports.
pub proof fn lemma_halt_exit_line(count: nat, pc: u16, t: u64)
    ensures
        exists|c: Seq<char>, p: Seq<char>, d: Seq<char>|
            {
                &&& #[trigger] reads_as_decimal(c, count)
                &&& #[trigger] reads_as_hex(p, 4, pc as nat)
                &&& #[trigger] reads_as_decimal(d, t as nat)
                &&& (EventView::HaltExit { count, pc, t }).line()
                        == "[HALT_TRACE] HALT2 exit at instr="@ + c + " PC=0x"@ + p + " t="@ + d
                        + " (M-cycles)"@
            },
{
    reveal_strlit(" PC=");
    reveal_strlit(" PC=0x");
    reveal_strlit("0x");
    lemma_decimal_reads_back(count);
    lemma_hex_reads_back(pc as nat, 4);
    lemma_decimal_reads_back(t as nat);
    let line = (EventView::HaltExit { count, pc, t }).line();
    let c = decimal(count);
    let p = pad_left(hex(pc as nat), 4, '0');
    let d = decimal(t as nat);
    assert(line =~= "[HALT_TRACE] HALT2 exit at instr="@ + c + " PC=0x"@ + p + " t="@ + d
            + " (M-cycles)"@);
}

/// A line on the place in the picture reads as what it reports.
pub proof fn lemma_frame_line(position: FramePosition)
    ensures
        exists|f: Seq<char>, p: Seq<char>|
            {
                &&& #[trigger] reads_as_decimal(f, position.frame as nat)
                &&& #[trigger] reads_as_decimal(p, position.pos as nat)
                &&& (EventView::Frame { position }).line() == "[HALT_TRACE]   frame="@ + f
                        + " pos="@ + p + " vblank=16416-17556 in_vblank="@
                        + (if position.in_vblank { "true"@ } else { "false"@ })
            },
{
    reveal_strlit(" in_vblank=");
    reveal_strlit(" vblank=");
    reveal_strlit(" vblank=16416-17556 in_vblank=");
    reveal_strlit("-");
    reveal_strlit("16416");
    reveal_strlit("17556");
    lemma_vblank_numbers();
    lemma_decimal_reads_back(position.frame as nat);
    lemma_decimal_reads_back(position.pos as nat);
    let line = (EventView::Frame { position }).line();
    let f = decimal(position.frame as nat);
    let p = decimal(position.pos as nat);
    assert(line =~= "[HALT_TRACE]   frame="@ + f + " pos="@ + p
            + " vblank=16416-17556 in_vblank="@
            + (if position.in_vblank { "true"@ } else { "false"@ }));
}

/// A line on a call of the delay routine reads as what it reports.
pub proof fn lemma_delay_call_line(count: nat, pc: u16, t: u64)
    ensures
        exists|c: Seq<char>, p: Seq<char>, d: Seq<char>|
            {
                &&& #[trigger] reads_as_decimal(c, count)
                &&& #[trigger] reads_as_hex(p, 4, pc as nat)
                &&& #[trigger] reads_as_decimal(d, t as nat)
                &&& (EventView::DelayCall { count, pc, t }).line()
                        == "[HALT_TRACE] DELAY_CALL at instr="@ + c + " PC=0x"@ + p + " t="@ + d
            },
{
    reveal_strlit(" PC=");
    reveal_strlit(" PC=0x");
    reveal_strlit("0x");
    lemma_decimal_reads_back(count);
    lemma_hex_reads_back(pc as nat, 4);
    lemma_decimal_reads_back(t as nat);
    let line = (EventView::DelayCall { count, pc, t }).line();
    let c = decimal(count);
    let p = pad_left(hex(pc as nat), 4, '0');
    let d = decimal(t as nat);
    assert(line =~= "[HALT_TRACE] DELAY_CALL at instr="@ + c + " PC=0x"@ + p + " t="@ + d);
}

/// A line on the time since the second HALT reads as what it reports.
pub proof fn lemma_elapsed_line(cycles: nat)
    ensures
        exists|d: Seq<char>|
            {
                &&& #[trigger] reads_as_decimal(d, cycles)
                &&& (EventView::Elapsed { cycles }).line()
                        == "[HALT_TRACE]   elapsed since HALT exit: "@ + d + " M-cycles"@
            },
{
    lemma_decimal_reads_back(cycles);
    let line = (EventView::Elapsed { cycles }).line();
    let d = decimal(cycles);
    assert(line =~= "[HALT_TRACE]   elapsed since HALT exit: "@ + d + " M-cycles"@);
}

/// A line on a read of the interrupt flags reads as what it reports.
pub proof fn lemma_flags_read_line(count: nat, pc: u16, t: u64, flags: u8)
    ensures
        exists|c: Seq<char>, p: Seq<char>, d: Seq<char>, f: Seq<char>|
            {
                &&& #[trigger] reads_as_decimal(c, count)
                &&& #[trigger] reads_as_hex(p, 4, pc as nat)
                &&& #[trigger] reads_as_decimal(d, t as nat)
                &&& #[trigger] reads_as_hex(f, 2, flags as nat)
                &&& (EventView::FlagsRead { count, pc, t, flags }).line()
                        == "[HALT_TRACE] IF_READ at instr="@ + c + " PC=0x"@ + p + " t="@ + d
                        + " IF=0x"@ + f
            },
{
    reveal_strlit(" PC=");
    reveal_strlit(" PC=0x");
    reveal_strlit("0x");
    lemma_decimal_reads_back(count);
    lemma_hex_reads_back(pc as nat, 4);
    lemma_decimal_reads_back(t as nat);
    lemma_hex_reads_back(flags as nat, 2);
    let line = (EventView::FlagsRead { count, pc, t, flags }).line();
    let c = decimal(count);
    let p = pad_left(hex(pc as nat), 4, '0');
    let d = decimal(t as nat);
    let f = pad_left(hex(flags as nat), 2, '0');
    assert(line =~= "[HALT_TRACE] IF_READ at instr="@ + c + " PC=0x"@ + p + " t="@ + d + " IF=0x"@
            + f);
}

/// A line on the same time in frames reads as what it reports.
pub proof fn lemma_elapsed_frames_line(frames: nat, cycles: nat)
    ensures
        exists|f: Seq<char>, d: Seq<char>|
            {
                &&& #[trigger] reads_as_decimal(f, frames)
                &&& #[trigger] reads_as_decimal(d, cycles)
                &&& (EventView::ElapsedFrames { frames, cycles }).line() == "[HALT_TRACE]   "@ + f
                        + " frames + "@ + d + " M-cycles elapsed"@
            },
{
    lemma_decimal_reads_back(frames);
    lemma_decimal_reads_back(cycles);
    let line = (EventView::ElapsedFrames { frames, cycles }).line();
    let f = decimal(frames);
    let d = decimal(cycles);
    assert(line =~= "[HALT_TRACE]   "@ + f + " frames + "@ + d + " M-cycles elapsed"@);
}

/// A line on a write to TIMA reads as what it reports.
pub proof fn lemma_tima_write_line(
    count: nat,
    pc: u16,
    before: u8,
    after: u8,
    raw_div: u64,
    tac: u8,
)
    ensures
        exists|
            c: Seq<char>,
            p: Seq<char>,
            b: Seq<char>,
            a: Seq<char>,
            r: Seq<char>,
            l: Seq<char>,
            m: Seq<char>,
            k: Seq<char>,
        |
            {
                &&& #[trigger] reads_as_column(c, 8, count)
                &&& #[trigger] reads_as_hex(p, 4, pc as nat)
                &&& #[trigger] reads_as_decimal(b, before as nat)
                &&& #[trigger] reads_as_decimal(a, after as nat)
                &&& #[trigger] reads_as_decimal(r, raw_div as nat)
                &&& #[trigger] reads_as_decimal(l, (raw_div & 0xFF) as nat)
                &&& #[trigger] reads_as_decimal(m, (raw_div & 0xF) as nat)
                &&& #[trigger] reads_as_decimal(k, tac as nat)
                &&& (EventView::TimaWrite { count, pc, before, after, raw_div, tac }).line()
                        == "["@ + c + "] TIMA_WRITE  PC=0x"@ + p + "  before="@ + b + " after="@
                        + a + "  div_raw="@ + r + " div_low="@ + l + "  div%16="@ + m + "  tac="@
                        + k
            },
{
    reveal_strlit("0x");
    reveal_strlit("TIMA_WRITE  PC=");
    reveal_strlit("] ");
    reveal_strlit("] TIMA_WRITE  PC=0x");
    assert(raw_div & 0xFF == raw_div % 256) by (bit_vector);
    assert(raw_div & 0xF == raw_div % 16) by (bit_vector);
    lemma_column_reads_back(count, 8);
    lemma_hex_reads_back(pc as nat, 4);
    lemma_decimal_reads_back(before as nat);
    lemma_decimal_reads_back(after as nat);
    lemma_decimal_reads_back(raw_div as nat);
    lemma_decimal_reads_back((raw_div & 0xFF) as nat);
    lemma_decimal_reads_back((raw_div & 0xF) as nat);
    lemma_decimal_reads_back(tac as nat);
    let line = (EventView::TimaWrite { count, pc, before, after, raw_div, tac }).line();
    let c = pad_left(decimal(count), 8, ' ');
    let p = pad_left(hex(pc as nat), 4, '0');
    let b = decimal(before as nat);
    let a = decimal(after as nat);
    let r = decimal(raw_div as nat);
    let l = decimal((raw_div & 0xFF) as nat);
    let m = decimal((raw_div & 0xF) as nat);
    let k = decimal(tac as nat);
    assert(line =~= "["@ + c + "] TIMA_WRITE  PC=0x"@ + p + "  before="@ + b + " after="@ + a
            + "  div_raw="@ + r + " div_low="@ + l + "  div%16="@ + m + "  tac="@ + k);
}

/// A line on a read of TIMA reads as what it reports.
pub proof fn lemma_tima_read_line(count: nat, pc: u16, value: u8, raw_div: u64, write: nat)
    ensures
        exists|c: Seq<char>, p: Seq<char>, v: Seq<char>, r: Seq<char>, w: Seq<char>|
            {
                &&& #[trigger] reads_as_column(c, 8, count)
                &&& #[trigger] reads_as_hex(p, 4, pc as nat)
                &&& #[trigger] reads_as_decimal(v, value as nat)
                &&& #[trigger] reads_as_decimal(r, raw_div as nat)
                &&& #[trigger] reads_as_decimal(w, write)
                &&& (EventView::TimaRead { count, pc, value, raw_div, write }).line() == "["@ + c
                        + "] TIMA_READ   PC=0x"@ + p + "  value="@ + v + "  div_raw="@ + r
                        + "  (write #"@ + w + ")"@
            },
{
    reveal_strlit("0x");
    reveal_strlit("TIMA_READ   PC=");
    reveal_strlit("] ");
    reveal_strlit("] TIMA_READ   PC=0x");
    lemma_column_reads_back(count, 8);
    lemma_hex_reads_back(pc as nat, 4);
    lemma_decimal_reads_back(value as nat);
    lemma_decimal_reads_back(raw_div as nat);
    lemma_decimal_reads_back(write);
    let line = (EventView::TimaRead { count, pc, value, raw_div, write }).line();
    let c = pad_left(decimal(count), 8, ' ');
    let p = pad_left(hex(pc as nat), 4, '0');
    let v = decimal(value as nat);
    let r = decimal(raw_div as nat);
    let w = decimal(write);
    assert(line =~= "["@ + c + "] TIMA_READ   PC=0x"@ + p + "  value="@ + v + "  div_raw="@ + r
            + "  (write #"@ + w + ")"@);
}

/// A line on a new address reads as what it reports.
pub proof fn lemma_new_pc_line(count: nat, pc: u16, instruction: Seq<char>, sp: u16)
    ensures
        exists|c: Seq<char>, p: Seq<char>, s: Seq<char>|
            {
                &&& #[trigger] reads_as_column(c, 8, count)
                &&& #[trigger] reads_as_hex(p, 4, pc as nat)
                &&& #[trigger] reads_as_hex(s, 4, sp as nat)
                &&& (EventView::NewPc { count, pc, instruction, sp }).line() == "["@ + c
                        + "] PC=0x"@ + p + "  "@ + instruction + "  SP=0x"@ + s
            },
{
    reveal_strlit("  SP=");
    reveal_strlit("  SP=0x");
    reveal_strlit("0x");
    reveal_strlit("PC=");
    reveal_strlit("] ");
    reveal_strlit("] PC=0x");
    lemma_column_reads_back(count, 8);
    lemma_hex_reads_back(pc as nat, 4);
    lemma_hex_reads_back(sp as nat, 4);
    let line = (EventView::NewPc { count, pc, instruction, sp }).line();
    let c = pad_left(decimal(count), 8, ' ');
    let p = pad_left(hex(pc as nat), 4, '0');
    let s = pad_left(hex(sp as nat), 4, '0');
    assert(line =~= "["@ + c + "] PC=0x"@ + p + "  "@ + instruction + "  SP=0x"@ + s);
}

/// A line on serial output reads as what it reports.
pub proof fn lemma_serial_line(count: nat, bytes: Seq<u8>)
    ensures
        exists|c: Seq<char>|
            {
                &&& #[trigger] reads_as_decimal(c, count)
                &&& (EventView::Serial { count, bytes }).line() == "<<SERIAL @"@ + c + ": "@
                        + lossy_text(bytes) + ">>"@
            },
{
    lemma_decimal_reads_back(count);
    let line = (EventView::Serial { count, bytes }).line();
    let c = decimal(count);
    assert(line =~= "<<SERIAL @"@ + c + ": "@ + lossy_text(bytes) + ">>"@);
}

/// A line on the end of a run reads as what it reports.
pub proof fn lemma_stopped_line(max: u64, pc: u16, sp: u16)
    ensures
        exists|m: Seq<char>, p: Seq<char>, s: Seq<char>|
            {
                &&& #[trigger] reads_as_decimal(m, max as nat)
                &&& #[trigger] reads_as_hex(p, 4, pc as nat)
                &&& #[trigger] reads_as_hex(s, 4, sp as nat)
                &&& (EventView::Stopped { max, pc, sp }).line() == "--- stopped after "@ + m
                        + " instructions. PC=0x"@ + p + " SP=0x"@ + s + " ---"@
            },
{
    reveal_strlit(" SP=");
    reveal_strlit(" SP=0x");
    reveal_strlit(" instructions. PC=");
    reveal_strlit(" instructions. PC=0x");
    reveal_strlit("0x");
    lemma_decimal_reads_back(max as nat);
    lemma_hex_reads_back(pc as nat, 4);
    lemma_hex_reads_back(sp as nat, 4);
    let line = (EventView::Stopped { max, pc, sp }).line();
    let m = decimal(max as nat);
    let p = pad_left(hex(pc as nat), 4, '0');
    let s = pad_left(hex(sp as nat), 4, '0');
    assert(line =~= "--- stopped after "@ + m + " instructions. PC=0x"@ + p + " SP=0x"@ + s
            + " ---"@);
}

/// A line on the number of writes reads as what it reports.
pub proof fn lemma_tima_writes_line(writes: nat)
    ensures
        exists|w: Seq<char>|
            {
                &&& #[trigger] reads_as_decimal(w, writes)
                &&& (EventView::TimaWrites { writes }).line() == "TIMA writes: "@ + w
            },
{
    reveal_strlit("TIMA reads after write (first 20): [");
    reveal_strlit("]");
    lemma_decimal_reads_back(writes);
    let line = (EventView::TimaWrites { writes }).line();
    let w = decimal(writes);
    assert(line =~= "TIMA writes: "@ + w);
}

/// A line on the number of zeros reads as what it reports.
pub proof fn lemma_tima_zeros_line(zeros: nat, total: nat)
    ensures
        exists|z: Seq<char>, n: Seq<char>|
            {
                &&& #[trigger] reads_as_decimal(z, zeros)
                &&& #[trigger] reads_as_decimal(n, total)
                &&& (EventView::TimaZeros { zeros, total }).line() == "Reads where TIMA=0: "@ + z
                        + " / "@ + n
            },
{
    lemma_decimal_reads_back(zeros);
    lemma_decimal_reads_back(total);
    let line = (EventView::TimaZeros { zeros, total }).line();
    let z = decimal(zeros);
    let n = decimal(total);
    assert(line =~= "Reads where TIMA=0: "@ + z + " / "@ + n);
}

proof fn lemma_column_holds_no_bracket(c: Seq<char>, n: nat, i: int)
    requires
        reads_as_column(c, 8, n),
        0 <= i < c.len(),
    ensures
        c[i] != ']',
{
    let k = choose|k: int|
        {
            &&& 0 <= k < c.len()
            &&& #[trigger] reads_as_decimal(c.skip(k), n)
            &&& forall|j: int| 0 <= j < k ==> #[trigger] c[j] == ' '
            &&& c.len() >= 8
            &&& c.len() > 8 ==> k == 0
        };
    if i >= k {
        assert(c.skip(k)[i - k] == c[i]);
        assert(digit_value(c.skip(k)[i - k]) is Some);
    }
}

proof fn lemma_one_column_value(c: Seq<char>, m: nat, n: nat)
    requires
        reads_as_column(c, 8, m),
        reads_as_column(c, 8, n),
    ensures
        m == n,
{
    let j = choose|k: int|
        {
            &&& 0 <= k < c.len()
            &&& #[trigger] reads_as_decimal(c.skip(k), m)
            &&& forall|i: int| 0 <= i < k ==> #[trigger] c[i] == ' '
            &&& c.len() >= 8
            &&& c.len() > 8 ==> k == 0
        };
    let k = choose|k: int|
        {
            &&& 0 <= k < c.len()
            &&& #[trigger] reads_as_decimal(c.skip(k), n)
            &&& forall|i: int| 0 <= i < k ==> #[trigger] c[i] == ' '
            &&& c.len() >= 8
            &&& c.len() > 8 ==> k == 0
        };
    assert(digit_value(c.skip(j)[0]) is Some && c.skip(j)[0] == c[j]);
    assert(digit_value(c.skip(k)[0]) is Some && c.skip(k)[0] == c[k]);
    assert(j == k);
}

proof fn lemma_hex_is_four_digits(s: Seq<char>, a: u16)
    requires
        s == pad_left(hex(a as nat), 4, '0'),
    ensures
        s.len() == 4,
{
    reveal_with_fuel(hex, 4);
}

/// Reports of new addresses that read alike are alike: no two differ in the
/// count, the address, the instruction or the stack pointer alone, nor in several
/// of them.
pub proof fn lemma_new_pc_lines_differ(a: EventView, b: EventView)
    requires
        a is NewPc,
        b is NewPc,
        a.line() == b.line(),
    ensures
        a == b,
{
    match (a, b) {
        (
            EventView::NewPc { count: c1, pc: p1, instruction: i1, sp: s1 },
            EventView::NewPc { count: c2, pc: p2, instruction: i2, sp: s2 },
        ) => {
            let l = a.line();
            let col1 = pad_left(decimal(c1), 8, ' ');
            let col2 = pad_left(decimal(c2), 8, ' ');
            let pc1 = pad_left(hex(p1 as nat), 4, '0');
            let pc2 = pad_left(hex(p2 as nat), 4, '0');
            let sp1 = pad_left(hex(s1 as nat), 4, '0');
            let sp2 = pad_left(hex(s2 as nat), 4, '0');
            lemma_hex_is_four_digits(pc1, p1);
            lemma_hex_is_four_digits(pc2, p2);
            lemma_hex_is_four_digits(sp1, s1);
            lemma_hex_is_four_digits(sp2, s2);
            lemma_column_reads_back(c1, 8);
            lemma_column_reads_back(c2, 8);
            lemma_hex_reads_back(p1 as nat, 4);
            lemma_hex_reads_back(p2 as nat, 4);
            lemma_hex_reads_back(s1 as nat, 4);
            lemma_hex_reads_back(s2 as nat, 4);
            reveal_strlit("[");
            reveal_strlit("] ");
            reveal_strlit("PC=");
            reveal_strlit("0x");
            reveal_strlit("  ");
            reveal_strlit("  SP=");
            let n1 = col1.len() as int;
            let n2 = col2.len() as int;
            assert(l[1 + n1] == ']');
            assert(l[1 + n2] == ']');
            if n1 < n2 {
                lemma_column_holds_no_bracket(col2, c2, n1);
                assert(l[1 + n1] == col2[n1]);
            }
            if n2 < n1 {
                lemma_column_holds_no_bracket(col1, c1, n2);
                assert(l[1 + n2] == col1[n2]);
            }
            assert(col1 =~= l.subrange(1, 1 + n1));
            assert(col2 =~= l.subrange(1, 1 + n1));
            lemma_one_column_value(col1, c1, c2);
            assert(pc1 =~= l.subrange(n1 + 8, n1 + 12));
            assert(pc2 =~= l.subrange(n1 + 8, n1 + 12));
            assert(p1 == p2);
            assert(sp1 =~= l.skip(l.len() - 4));
            assert(sp2 =~= l.skip(l.len() - 4));
            assert(s1 == s2);
            assert(i1 =~= l.subrange(n1 + 14, l.len() - 11));
            assert(i2 =~= l.subrange(n1 + 14, l.len() - 11));
        },
        _ => {},
    }
}

/// A line on values read from TIMA holds the values between brackets.
pub proof fn lemma_tima_reads_line(values: Seq<u8>)
    ensures
        (EventView::TimaReads { values }).line() == "TIMA reads after write (first 20): ["@
            + comma_separated(values) + "]"@,
{
}

/// Text from the serial port stands on its line as it is.
pub proof fn lemma_serial_text(count: nat, text: Seq<char>)
    ensures
        exists|c: Seq<char>| #[trigger]
            reads_as_decimal(c, count) && serial_text(count, text) == "<<SERIAL @"@ + c + ": "@
                + text + ">>"@,
{
    lemma_decimal_reads_back(count);
}

} // verus!
