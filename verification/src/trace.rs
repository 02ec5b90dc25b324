//! The rules of a trace: what is remembered of a run, and what each
//! instruction adds to it.

use crate::events::EventView;
use crate::options::Config;
use crate::text::occurs;
use crate::timing::{FramePosition, FRAME_CYCLES};
use vstd::prelude::*;

verus! {

/// Where the program goes on after its second HALT.
pub const AFTER_SECOND_HALT: u16 = 0xC08B;

/// Where the program calls its delay routine for the first time.
pub const FIRST_DELAY_CALL: u16 = 0xC092;

/// Where the program calls its delay routine for the second time.
pub const SECOND_DELAY_CALL: u16 = 0xC097;

/// Where the program calls its delay routine for the third time.
pub const THIRD_DELAY_CALL: u16 = 0xC09C;

/// Where the program reads the interrupt flags.
pub const FLAGS_READ: u16 = 0xC0A0;

/// How many of the values read after a write the summary shows.
pub const SHOWN_READS: usize = 20;

/// Is the instruction at `pc` a call of the delay routine?
pub open spec fn is_delay_call(pc: u16) -> bool {
    pc == FIRST_DELAY_CALL || pc == SECOND_DELAY_CALL || pc == THIRD_DELAY_CALL
}

/// Is this written form of an instruction that of a HALT?
pub open spec fn is_halt(instruction: Seq<char>) -> bool {
    occurs(instruction, "HALT"@)
}

/// Is this written form of an instruction taken for a write to TIMA? Besides the
/// store at offset 5 of the high page, whatever names 55301 is.
pub open spec fn is_tima_write(instruction: Seq<char>) -> bool {
    occurs(instruction, "LD_8_TO_FF_IMMEDIATE(5)"@) || occurs(instruction, "55301"@)
}

/// Is this written form of an instruction taken for a read of TIMA? It is a load
/// from offset 5 of the high page, or one from memory that names 65285, the
/// address of TIMA.
pub open spec fn is_tima_read(instruction: Seq<char>) -> bool {
    occurs(instruction, "LD_8_FROM_FF_IMMEDIATE(5)"@) || (occurs(instruction, "LD_8_FROM_MEMORY"@)
        && occurs(instruction, "65285"@))
}

/// One executed instruction.
pub ghost struct TickView {
    pub pc: u16,
    pub start: u64,
    pub instruction: Seq<char>,
    pub interrupt_flags: u8,
}

/// The machine after the cycles of an instruction.
pub ghost struct ReadingsView {
    pub tima_before: u8,
    pub tima_after: u8,
    pub tac: u8,
    pub raw_div: u64,
    pub sp: u16,
    pub next_pc: u16,
    pub serial: Seq<u8>,
}

/// What is remembered of a run.
#[verifier::ext_equal]
pub ghost struct TraceState {
    pub config: Config,
    /// Instructions that were executed.
    pub count: nat,
    /// Addresses of the instructions that were executed.
    pub seen: Set<u16>,
    /// How much of the serial output was reported.
    pub serial_len: nat,
    /// When the second HALT was last over.
    pub halt_exit: Option<u64>,
    /// HALT instructions that were reported.
    pub halts: nat,
    /// Writes to TIMA that were reported.
    pub writes: nat,
    /// Values of TIMA that were read right after a write.
    pub reads: Seq<u8>,
    /// Was the last instruction a write to TIMA?
    pub last_was_write: bool,
}

/// How often TIMA was zero.
pub open spec fn zeros(values: Seq<u8>) -> nat {
    values.filter(|v: u8| v == 0).len()
}

/// The values that the summary shows.
pub open spec fn shown(values: Seq<u8>) -> Seq<u8> {
    if values.len() <= SHOWN_READS {
        values
    } else {
        values.take(SHOWN_READS as int)
    }
}

/// A report that is made only where a condition holds.
pub open spec fn only_if(condition: bool, events: Seq<EventView>) -> Seq<EventView> {
    if condition {
        events
    } else {
        Seq::empty()
    }
}

impl TraceState {
    /// Nothing was executed yet.
    pub open spec fn start(config: Config) -> TraceState {
        TraceState {
            config,
            count: 0,
            seen: Set::empty(),
            serial_len: 0,
            halt_exit: None,
            halts: 0,
            writes: 0,
            reads: Seq::empty(),
            last_was_write: false,
        }
    }

    /// Is the run over?
    pub open spec fn finished(self) -> bool {
        self.count >= self.config.max_instructions
    }

    /// May another instruction be traced? A run executes at least one.
    pub open spec fn running(self) -> bool {
        &&& self.count == 0 || !self.finished()
        &&& self.halts <= self.count
        &&& self.writes <= self.count
        &&& self.reads.len() <= self.count
    }

    /// Was another instruction executed whose cycles are still to be traced?
    pub open spec fn ticked(self) -> bool {
        &&& self.count == 0 || !self.finished()
        &&& self.halts <= self.count + 1
        &&& self.writes <= self.count
        &&& self.reads.len() <= self.count
    }

    /// Time may not run backwards where a difference of times is reported.
    pub open spec fn accepts(self, tick: TickView) -> bool {
        self.config.halt_trace && (is_delay_call(tick.pc) || tick.pc == FLAGS_READ) ==> (
        self.halt_exit matches Some(t) ==> t <= tick.start)
    }

    /// Does what is reported or remembered of the instruction at `pc` depend on
    /// what instruction it is?
    pub open spec fn wants_instruction(self, pc: u16) -> bool {
        self.config.halt_trace || self.config.tima_trace || !self.seen.contains(pc)
    }

    /// Are the interrupt flags reported for the instruction at `pc`?
    pub open spec fn wants_interrupt_flags(self, pc: u16) -> bool {
        self.config.halt_trace && pc == FLAGS_READ
    }

    /// Is the raw divider reported for the instruction?
    pub open spec fn wants_raw_div(self, instruction: Seq<char>) -> bool {
        self.config.tima_trace && (is_tima_write(instruction) || (self.last_was_write
            && is_tima_read(instruction)))
    }

    /// The time at `t` since the second HALT was over.
    pub open spec fn since_halt(self, t: u64) -> nat {
        (t - self.halt_exit->0) as nat
    }

    /// What is reported of HALT instructions and their timing.
    pub open spec fn halt_events(self, tick: TickView) -> Seq<EventView> {
        let count = self.count;
        let pc = tick.pc;
        let t = tick.start;
        only_if(
            self.config.halt_trace,
            only_if(
                is_halt(tick.instruction),
                seq![EventView::Halt { number: self.halts + 1, count, pc, t }],
            ) + only_if(
                pc == AFTER_SECOND_HALT,
                seq![
                    EventView::HaltExit { count, pc, t },
                    EventView::Frame { position: FramePosition::at(t) },
                ],
            ) + only_if(
                is_delay_call(pc),
                seq![EventView::DelayCall { count, pc, t }] + only_if(
                    self.halt_exit is Some,
                    seq![EventView::Elapsed { cycles: self.since_halt(t) }],
                ),
            ) + only_if(
                pc == FLAGS_READ,
                seq![EventView::FlagsRead { count, pc, t, flags: tick.interrupt_flags }] + only_if(
                    self.halt_exit is Some,
                    seq![
                        EventView::Elapsed { cycles: self.since_halt(t) },
                        EventView::Frame { position: FramePosition::at(t) },
                        EventView::ElapsedFrames {
                            frames: self.since_halt(t) / (FRAME_CYCLES as nat),
                            cycles: self.since_halt(t) % (FRAME_CYCLES as nat),
                        },
                    ],
                ),
            ),
        )
    }

    /// What is remembered once HALT instructions and their timing are reported.
    pub open spec fn after_tick(self, tick: TickView) -> TraceState {
        TraceState {
            halts: if self.config.halt_trace && is_halt(tick.instruction) {
                self.halts + 1
            } else {
                self.halts
            },
            halt_exit: if self.config.halt_trace && tick.pc == AFTER_SECOND_HALT {
                Some(tick.start)
            } else {
                self.halt_exit
            },
            ..self
        }
    }

    /// Does the instruction count as a write to TIMA?
    pub open spec fn writes_tima(self, tick: TickView) -> bool {
        self.config.tima_trace && is_tima_write(tick.instruction)
    }

    /// Does the instruction count as a read of TIMA right after a write?
    pub open spec fn reads_tima(self, tick: TickView) -> bool {
        self.config.tima_trace && !is_tima_write(tick.instruction) && is_tima_read(tick.instruction)
            && self.last_was_write
    }

    /// What is reported of TIMA.
    pub open spec fn tima_events(self, tick: TickView, r: ReadingsView) -> Seq<EventView> {
        if self.writes_tima(tick) {
            seq![
                EventView::TimaWrite {
                    count: self.count,
                    pc: tick.pc,
                    before: r.tima_before,
                    after: r.tima_after,
                    raw_div: r.raw_div,
                    tac: r.tac,
                },
            ]
        } else if self.reads_tima(tick) {
            seq![
                EventView::TimaRead {
                    count: self.count,
                    pc: tick.pc,
                    value: r.tima_after,
                    raw_div: r.raw_div,
                    write: self.writes,
                },
            ]
        } else {
            Seq::empty()
        }
    }

    /// What is reported of the program counter.
    pub open spec fn pc_events(self, tick: TickView, r: ReadingsView) -> Seq<EventView> {
        only_if(
            !self.config.tima_trace && !self.seen.contains(tick.pc),
            seq![
                EventView::NewPc {
                    count: self.count,
                    pc: tick.pc,
                    instruction: tick.instruction,
                    sp: r.sp,
                },
            ],
        )
    }

    /// What is reported of the serial port.
    pub open spec fn serial_events(self, r: ReadingsView) -> Seq<EventView> {
        only_if(
            r.serial.len() > self.serial_len,
            seq![
                EventView::Serial {
                    count: self.count,
                    bytes: r.serial.skip(self.serial_len as int),
                },
            ],
        )
    }

    /// What is reported when the machine gives up on the instruction at `pc`.
    pub open spec fn panic_event(self, pc: u16, message: Option<Seq<char>>) -> EventView {
        EventView::Panicked {
            count: self.count,
            pc,
            message: match message {
                Some(text) => text,
                None => "unknown panic"@,
            },
        }
    }

    /// What is remembered once the cycles of an instruction are reported.
    pub open spec fn after_cycles(self, tick: TickView, r: ReadingsView) -> TraceState {
        TraceState {
            count: self.count + 1,
            seen: self.seen.insert(tick.pc),
            serial_len: if r.serial.len() > self.serial_len {
                r.serial.len()
            } else {
                self.serial_len
            },
            writes: if self.writes_tima(tick) {
                self.writes + 1
            } else {
                self.writes
            },
            reads: if self.reads_tima(tick) {
                self.reads.push(r.tima_after)
            } else {
                self.reads
            },
            last_was_write: self.writes_tima(tick),
            ..self
        }
    }

    /// What is reported at the end of a run.
    pub open spec fn final_events(self, r: ReadingsView) -> Seq<EventView> {
        only_if(
            self.finished(),
            seq![
                EventView::Stopped {
                    max: self.config.max_instructions,
                    pc: r.next_pc,
                    sp: r.sp,
                },
            ] + only_if(
                self.config.tima_trace,
                seq![
                    EventView::TimaWrites { writes: self.writes },
                    EventView::TimaReads { values: shown(self.reads) },
                    EventView::TimaZeros { zeros: zeros(self.reads), total: self.reads.len() },
                ],
            ),
        )
    }

    /// What is reported once the cycles of an instruction are over.
    pub open spec fn cycle_events(self, tick: TickView, r: ReadingsView) -> Seq<EventView> {
        self.tima_events(tick, r) + self.pc_events(tick, r) + self.serial_events(r)
            + self.after_cycles(tick, r).final_events(r)
    }
}

/// An instruction and the machine after its cycles.
pub ghost struct Observation {
    pub tick: TickView,
    pub readings: ReadingsView,
}

impl TraceState {
    /// What is remembered after one more instruction.
    pub open spec fn step(self, o: Observation) -> TraceState {
        self.after_tick(o.tick).after_cycles(o.tick, o.readings)
    }

    /// What is reported of one more instruction.
    pub open spec fn step_events(self, o: Observation) -> Seq<EventView> {
        self.halt_events(o.tick) + self.after_tick(o.tick).cycle_events(o.tick, o.readings)
    }
}

/// What is remembered after a run of instructions.
pub open spec fn run(config: Config, obs: Seq<Observation>) -> TraceState
    decreases obs.len(),
{
    if obs.len() == 0 {
        TraceState::start(config)
    } else {
        run(config, obs.drop_last()).step(obs.last())
    }
}

/// Everything that is reported of a run of instructions.
pub open spec fn transcript(config: Config, obs: Seq<Observation>) -> Seq<EventView>
    decreases obs.len(),
{
    if obs.len() == 0 {
        Seq::empty()
    } else {
        transcript(config, obs.drop_last()) + run(config, obs.drop_last()).step_events(obs.last())
    }
}

} // verus!
