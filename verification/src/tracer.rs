//! Follows a run: takes in what the machine did, instruction by instruction,
//! and says what to report.

use crate::events::{Event, EventView};
use crate::options::Config;
use crate::text::contains;
use crate::timing::{FramePosition, FRAME_CYCLES};
use crate::trace::{
    is_delay_call, is_tima_read, is_tima_write, shown, zeros, ReadingsView, TickView, TraceState,
    AFTER_SECOND_HALT, FIRST_DELAY_CALL, FLAGS_READ, SECOND_DELAY_CALL, SHOWN_READS,
    THIRD_DELAY_CALL,
};
use std::collections::HashSet;
use vstd::prelude::*;
use vstd::slice::{slice_subrange, slice_to_vec};

verus! {

/// One executed instruction.
#[derive(Clone, Copy, Debug)]
pub struct Tick<'a> {
    /// The address of the instruction.
    pub pc: u16,
    /// The time at which it started.
    pub start: u64,
    /// The instruction in writing. It is looked at only where
    /// [`Tracer::wants_instruction`] asks for it.
    pub instruction: &'a str,
    /// The interrupt flags, before the cycles of the instruction have passed.
    /// They are looked at only where [`Tracer::wants_interrupt_flags`] asks for
    /// them.
    pub interrupt_flags: u8,
}

/// The machine after the cycles of an instruction.
#[derive(Clone, Copy, Debug)]
pub struct Readings<'a> {
    /// The timer counter before the cycles.
    pub tima_before: u8,
    /// The timer counter after the cycles.
    pub tima_after: u8,
    /// The timer control register.
    pub tac: u8,
    /// The counter from which the timer and the divider register derive. It is
    /// looked at only where [`Tracer::wants_raw_div`] asks for it.
    pub raw_div: u64,
    /// The stack pointer.
    pub sp: u16,
    /// The address of the next instruction.
    pub next_pc: u16,
    /// Everything that came out of the serial port so far.
    pub serial: &'a [u8],
}

impl<'a> View for Tick<'a> {
    type V = TickView;

    open spec fn view(&self) -> TickView {
        TickView {
            pc: self.pc,
            start: self.start,
            instruction: self.instruction@,
            interrupt_flags: self.interrupt_flags,
        }
    }
}

impl<'a> View for Readings<'a> {
    type V = ReadingsView;

    open spec fn view(&self) -> ReadingsView {
        ReadingsView {
            tima_before: self.tima_before,
            tima_after: self.tima_after,
            tac: self.tac,
            raw_div: self.raw_div,
            sp: self.sp,
            next_pc: self.next_pc,
            serial: self.serial@,
        }
    }
}

/// What to report after an instruction, and whether the run is over.
#[derive(Debug)]
pub struct Step {
    pub events: Vec<Event>,
    pub done: bool,
}

/// Remembers what a run has done so far.
#[derive(Debug)]
pub struct Tracer {
    config: Config,
    count: u64,
    seen: HashSet<u16>,
    serial_len: usize,
    halt_exit: Option<u64>,
    halts: u64,
    writes: u64,
    reads: Vec<u8>,
    last_was_write: bool,
}

impl View for Tracer {
    type V = TraceState;

    closed spec fn view(&self) -> TraceState {
        TraceState {
            config: self.config,
            count: self.count as nat,
            seen: self.seen@,
            serial_len: self.serial_len as nat,
            halt_exit: self.halt_exit,
            halts: self.halts as nat,
            writes: self.writes as nat,
            reads: self.reads@,
            last_was_write: self.last_was_write,
        }
    }
}

/// The reports of a list.
pub open spec fn views(events: Seq<Event>) -> Seq<EventView> {
    events.map_values(|e: Event| e@)
}

/// Adds a report to a list.
fn report(events: &mut Vec<Event>, event: Event)
    ensures
        views(final(events)@) == views(old(events)@).push(event@),
{
    events.push(event);
    assert(views(events@) =~= views(old(events)@).push(event@));
}

/// How many M-cycles pass from `start` to `end`.
pub fn tick_cycles(start: u64, end: u64) -> (cycles: u64)
    requires
        start <= end,
    ensures
        cycles == end - start,
{
    end - start
}

/// Counts the zeros among the values.
fn count_zeros(values: &Vec<u8>) -> (count: usize)
    ensures
        count == zeros(values@),
        count <= values@.len(),
{
    let mut count: usize = 0;
    let mut i: usize = 0;
    assert(zeros(values@.take(0)) == 0) by {
        reveal(Seq::filter);
    }
    while i < values.len()
        invariant
            i <= values.len(),
            count <= i,
            count == zeros(values@.take(i as int)),
        decreases values.len() - i,
    {
        proof {
            reveal(Seq::filter);
            assert(values@.take(i + 1).drop_last() =~= values@.take(i as int));
        }
        if values[i] == 0 {
            count = count + 1;
        }
        i = i + 1;
    }
    assert(values@.take(values@.len() as int) =~= values@);
    count
}

/// Copies the values that the summary shows.
fn copy_shown(values: &Vec<u8>) -> (copy: Vec<u8>)
    ensures
        copy@ == shown(values@),
{
    let end: usize = if values.len() < SHOWN_READS {
        values.len()
    } else {
        SHOWN_READS
    };
    let copy = slice_to_vec(slice_subrange(values.as_slice(), 0, end));
    assert(copy@ =~= shown(values@));
    copy
}

impl Tracer {
    /// Starts to follow a run.
    pub fn new(config: Config) -> (tracer: Tracer)
        ensures
            tracer@ == TraceState::start(config),
            tracer@.running(),
    {
        let tracer = Tracer {
            config,
            count: 0,
            seen: HashSet::new(),
            serial_len: 0,
            halt_exit: None,
            halts: 0,
            writes: 0,
            reads: Vec::new(),
            last_was_write: false,
        };
        assert(tracer@ =~= TraceState::start(config));
        tracer
    }

    /// Does the instruction at `pc` have to be handed over in writing?
    pub fn wants_instruction(&self, pc: u16) -> (wanted: bool)
        ensures
            wanted == self@.wants_instruction(pc),
    {
        broadcast use vstd::std_specs::hash::group_hash_axioms;

        self.config.halt_trace || self.config.tima_trace || !self.seen.contains(&pc)
    }

    /// Do the interrupt flags have to be handed over for the instruction at
    /// `pc`?
    pub fn wants_interrupt_flags(&self, pc: u16) -> (wanted: bool)
        ensures
            wanted == self@.wants_interrupt_flags(pc),
    {
        self.config.halt_trace && pc == FLAGS_READ
    }

    /// Does the raw divider have to be handed over for the instruction?
    pub fn wants_raw_div(&self, instruction: &str) -> (wanted: bool)
        ensures
            wanted == self@.wants_raw_div(instruction@),
    {
        self.config.tima_trace && (tima_write(instruction) || (self.last_was_write && tima_read(
            instruction,
        )))
    }

    /// Can the instruction be reported, that is, does its time not lie before
    /// one that it is compared with?
    pub fn accepts(&self, tick: &Tick) -> (accepted: bool)
        ensures
            accepted == self@.accepts(tick@),
    {
        if self.config.halt_trace && (delay_call(tick.pc) || tick.pc == FLAGS_READ) {
            match self.halt_exit {
                Some(t) => t <= tick.start,
                None => true,
            }
        } else {
            true
        }
    }

    /// What to report when the machine gave up on the instruction at `pc`.
    pub fn panicked(&self, pc: u16, message: Option<String>) -> (event: Event)
        ensures
            event@ == (EventView::Panicked {
                count: self@.count,
                pc,
                message: match message {
                    Some(text) => text@,
                    None => "unknown panic"@,
                },
            }),
            event@ == self@.panic_event(
                pc,
                match message {
                    Some(text) => Some(text@),
                    None => None,
                },
            ),
    {
        Event::Panicked {
            count: self.count,
            pc,
            message: match message {
                Some(text) => text,
                None => "unknown panic".to_owned(),
            },
        }
    }

    /// Takes in an instruction, before its cycles have passed.
    pub fn trace_tick(&mut self, tick: &Tick) -> (events: Vec<Event>)
        requires
            old(self)@.running(),
            old(self)@.accepts(tick@),
        ensures
            final(self)@ == old(self)@.after_tick(tick@),
            final(self)@.ticked(),
            views(events@) == old(self)@.halt_events(tick@),
    {
        let mut events: Vec<Event> = Vec::new();
        let ghost before = self@;
        let pc: u16 = tick.pc;
        let t: u64 = tick.start;
        if !self.config.halt_trace {
            assert(views(events@) =~= before.halt_events(tick@));
            assert(self@ =~= before.after_tick(tick@));
            return events;
        }
        if contains(tick.instruction, "HALT") {
            self.halts = self.halts + 1;
            report(&mut events, Event::Halt { number: self.halts, count: self.count, pc, t });
        }
        if pc == AFTER_SECOND_HALT {
            self.halt_exit = Some(t);
            report(&mut events, Event::HaltExit { count: self.count, pc, t });
            report(&mut events, Event::Frame { position: FramePosition::new(t) });
        }
        if delay_call(pc) {
            report(&mut events, Event::DelayCall { count: self.count, pc, t });
            if let Some(halt_t) = self.halt_exit {
                report(&mut events, Event::Elapsed { cycles: t - halt_t });
            }
        }
        if pc == FLAGS_READ {
            report(
                &mut events,
                Event::FlagsRead { count: self.count, pc, t, flags: tick.interrupt_flags },
            );
            if let Some(halt_t) = self.halt_exit {
                let elapsed: u64 = t - halt_t;
                report(&mut events, Event::Elapsed { cycles: elapsed });
                report(&mut events, Event::Frame { position: FramePosition::new(t) });
                report(
                    &mut events,
                    Event::ElapsedFrames {
                        frames: elapsed / FRAME_CYCLES,
                        cycles: elapsed % FRAME_CYCLES,
                    },
                );
            }
        }
        assert(views(events@) =~= before.halt_events(tick@));
        assert(self@ =~= before.after_tick(tick@));
        events
    }

    /// Takes in an instruction, after its cycles have passed.
    pub fn trace_cycles(&mut self, tick: &Tick, readings: &Readings) -> (step: Step)
        requires
            old(self)@.ticked(),
        ensures
            final(self)@ == old(self)@.after_cycles(tick@, readings@),
            views(step.events@) == old(self)@.cycle_events(tick@, readings@),
            step.done == final(self)@.finished(),
            !step.done ==> final(self)@.running(),
    {
        broadcast use vstd::std_specs::hash::group_hash_axioms;

        let mut events: Vec<Event> = Vec::new();
        let ghost before = self@;
        if self.config.tima_trace {
            if tima_write(tick.instruction) {
                self.writes = self.writes + 1;
                self.last_was_write = true;
                report(
                    &mut events,
                    Event::TimaWrite {
                        count: self.count,
                        pc: tick.pc,
                        before: readings.tima_before,
                        after: readings.tima_after,
                        raw_div: readings.raw_div,
                        tac: readings.tac,
                    },
                );
            } else {
                if self.last_was_write && tima_read(tick.instruction) {
                    self.reads.push(readings.tima_after);
                    report(
                        &mut events,
                        Event::TimaRead {
                            count: self.count,
                            pc: tick.pc,
                            value: readings.tima_after,
                            raw_div: readings.raw_div,
                            write: self.writes,
                        },
                    );
                }
                self.last_was_write = false;
            }
        } else {
            self.last_was_write = false;
        }
        assert(views(events@) =~= before.tima_events(tick@, readings@));
        let is_new: bool = self.seen.insert(tick.pc);
        if is_new && !self.config.tima_trace {
            report(
                &mut events,
                Event::NewPc {
                    count: self.count,
                    pc: tick.pc,
                    instruction: tick.instruction.to_owned(),
                    sp: readings.sp,
                },
            );
        }
        assert(views(events@) =~= before.tima_events(tick@, readings@) + before.pc_events(
            tick@,
            readings@,
        ));
        if readings.serial.len() > self.serial_len {
            let bytes = slice_to_vec(
                slice_subrange(readings.serial, self.serial_len, readings.serial.len()),
            );
            assert(bytes@ =~= readings.serial@.skip(before.serial_len as int));
            report(&mut events, Event::Serial { count: self.count, bytes });
            self.serial_len = readings.serial.len();
        }
        self.count = self.count + 1;
        assert(self@ =~= before.after_cycles(tick@, readings@));
        let done: bool = self.count >= self.config.max_instructions;
        if done {
            self.report_end(readings, &mut events);
        }
        assert(views(events@) =~= before.cycle_events(tick@, readings@));
        Step { events, done }
    }

    /// Adds what is reported at the end of a run.
    fn report_end(&self, readings: &Readings, events: &mut Vec<Event>)
        requires
            self@.finished(),
        ensures
            views(final(events)@) == views(old(events)@) + self@.final_events(readings@),
    {
        report(
            events,
            Event::Stopped {
                max: self.config.max_instructions,
                pc: readings.next_pc,
                sp: readings.sp,
            },
        );
        if self.config.tima_trace {
            report(events, Event::TimaWrites { writes: self.writes });
            report(events, Event::TimaReads { values: copy_shown(&self.reads) });
            report(
                events,
                Event::TimaZeros {
                    zeros: count_zeros(&self.reads) as u64,
                    total: self.reads.len() as u64,
                },
            );
        }
        assert(views(events@) =~= views(old(events)@) + self@.final_events(readings@));
    }
}

/// Is the instruction at `pc` a call of the delay routine?
fn delay_call(pc: u16) -> (is: bool)
    ensures
        is == is_delay_call(pc),
{
    pc == FIRST_DELAY_CALL || pc == SECOND_DELAY_CALL || pc == THIRD_DELAY_CALL
}

/// Is the written instruction taken for a write to TIMA?
fn tima_write(instruction: &str) -> (is: bool)
    ensures
        is == is_tima_write(instruction@),
{
    contains(instruction, "LD_8_TO_FF_IMMEDIATE(5)") || contains(instruction, "55301")
}

/// Is the written instruction taken for a read of TIMA?
fn tima_read(instruction: &str) -> (is: bool)
    ensures
        is == is_tima_read(instruction@),
{
    contains(instruction, "LD_8_FROM_FF_IMMEDIATE(5)") || (contains(
        instruction,
        "LD_8_FROM_MEMORY",
    ) && contains(instruction, "65285"))
}

} // verus!
