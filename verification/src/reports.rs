//! Which reports a run makes, said of what the machine did: for each kind of
//! report, the instructions with which it comes and what it then says.

use crate::events::{Event, EventView};
use crate::laws::{
    halt_numbers, lemma_halts_are_numbered, lemma_run_counts, lemma_seen, lemma_tima_is_traced,
    tima_read_values, tima_write_counts,
};
use crate::options::Config;
use crate::reading::{digit_value, holds, lemma_decimal_reads_back, lemma_search, value};
use crate::text::{decimal, occurs, occurs_at};
use crate::timing::FramePosition;
use crate::trace::{
    is_tima_read, is_tima_write, only_if, run, shown, transcript, zeros, Observation, TickView,
    TraceState,
};
use crate::tracer::{views, Readings, Tick};
use vstd::prelude::*;

verus! {

/// The reports that are made with the instruction at a position.
pub open spec fn reports_at(config: Config, obs: Seq<Observation>, i: int) -> Seq<EventView> {
    run(config, obs.take(i)).step_events(obs[i])
}

/// A run reports what it reports with its instructions, one after the other.
pub proof fn lemma_transcript_grows(config: Config, obs: Seq<Observation>, i: int)
    requires
        0 <= i < obs.len(),
    ensures
        transcript(config, obs.take(0)).len() == 0,
        transcript(config, obs.take(i + 1)) == transcript(config, obs.take(i)) + reports_at(
            config,
            obs,
            i,
        ),
{
    assert(obs.take(i + 1).drop_last() =~= obs.take(i));
}

// Membership.

proof fn lemma_in_sum<A>(a: Seq<A>, b: Seq<A>, x: A)
    ensures
        (a + b).contains(x) <==> a.contains(x) || b.contains(x),
{
    if a.contains(x) {
        let i = choose|i: int| 0 <= i < a.len() && a[i] == x;
        assert((a + b)[i] == x);
    }
    if b.contains(x) {
        let i = choose|i: int| 0 <= i < b.len() && b[i] == x;
        assert((a + b)[a.len() + i] == x);
    }
}

proof fn lemma_in_one<A>(a: A, x: A)
    ensures
        seq![a].contains(x) <==> x == a,
{
    assert(seq![a][0] == a);
}

proof fn lemma_in_two<A>(a: A, b: A, x: A)
    ensures
        seq![a, b].contains(x) <==> x == a || x == b,
{
    assert(seq![a, b][0] == a);
    assert(seq![a, b][1] == b);
}

proof fn lemma_in_three<A>(a: A, b: A, c: A, x: A)
    ensures
        seq![a, b, c].contains(x) <==> x == a || x == b || x == c,
{
    assert(seq![a, b, c][0] == a);
    assert(seq![a, b, c][1] == b);
    assert(seq![a, b, c][2] == c);
}

/// Every report of a step comes from one of its five parts.
proof fn lemma_in_step(s: TraceState, o: Observation, e: EventView)
    ensures
        s.step_events(o).contains(e) <==> {
            ||| s.halt_events(o.tick).contains(e)
            ||| s.tima_events(o.tick, o.readings).contains(e)
            ||| s.pc_events(o.tick, o.readings).contains(e)
            ||| s.serial_events(o.readings).contains(e)
            ||| s.step(o).final_events(o.readings).contains(e)
        },
{
    let h = s.halt_events(o.tick);
    let t = s.tima_events(o.tick, o.readings);
    let p = s.pc_events(o.tick, o.readings);
    let r = s.serial_events(o.readings);
    let d = s.step(o).final_events(o.readings);
    assert(s.step_events(o) =~= h + t + p + r + d);
    lemma_in_sum(h + t + p + r, d, e);
    lemma_in_sum(h + t + p, r, e);
    lemma_in_sum(h + t, p, e);
    lemma_in_sum(h, t, e);
}

// HALT.

/// Did the program go on after its second HALT at position `j`, and not again
/// before position `i`?
pub open spec fn is_last_exit(obs: Seq<Observation>, j: int, i: int) -> bool {
    &&& 0 <= j < i
    &&& obs[j].tick.pc == 0xC08B
    &&& forall|k: int| j < k < i ==> (#[trigger] obs[k]).tick.pc != 0xC08B
}

/// Did the program go on after its second HALT before position `i`?
pub open spec fn exited_before(obs: Seq<Observation>, i: int) -> bool {
    exists|j: int| 0 <= j < i && (#[trigger] obs[j]).tick.pc == 0xC08B
}

proof fn lemma_halt_exit_is(config: Config, obs: Seq<Observation>, i: int) -> (j: int)
    requires
        0 <= i <= obs.len(),
        config.halt_trace,
    ensures
        exited_before(obs, i) <==> run(config, obs.take(i)).halt_exit is Some,
        exited_before(obs, i) ==> is_last_exit(obs, j, i) && run(config, obs.take(i)).halt_exit
            == Some(obs[j].tick.start),
    decreases i,
{
    if i == 0 {
        assert(obs.take(0).len() == 0);
        0
    } else {
        let j = lemma_halt_exit_is(config, obs, i - 1);
        let before = obs.take(i - 1);
        assert(obs.take(i).drop_last() =~= before);
        lemma_run_counts(config, before);
        if obs[i - 1].tick.pc == 0xC08B {
            assert(is_last_exit(obs, i - 1, i));
            i - 1
        } else {
            if exited_before(obs, i) {
                let k = choose|k: int| 0 <= k < i && (#[trigger] obs[k]).tick.pc == 0xC08B;
                assert(k < i - 1);
                assert(exited_before(obs, i - 1));
            }
            if exited_before(obs, i - 1) {
                let k = choose|k: int| 0 <= k < i - 1 && (#[trigger] obs[k]).tick.pc == 0xC08B;
                assert(0 <= k < i && obs[k].tick.pc == 0xC08B);
            }
            j
        }
    }
}

proof fn lemma_one_last_exit(obs: Seq<Observation>, j: int, k: int, i: int)
    requires
        is_last_exit(obs, j, i),
        is_last_exit(obs, k, i),
    ensures
        j == k,
{
    assert(obs[j].tick.pc == 0xC08B);
    assert(obs[k].tick.pc == 0xC08B);
}

/// What the HALT part of a step may hold.
proof fn lemma_in_halt_events(s: TraceState, tick: TickView, e: EventView)
    ensures
        s.halt_events(tick).contains(e) <==> s.config.halt_trace && {
            ||| holds(tick.instruction, "HALT"@) && e == (EventView::Halt {
                number: s.halts + 1,
                count: s.count,
                pc: tick.pc,
                t: tick.start,
            })
            ||| tick.pc == 0xC08B && (e == (EventView::HaltExit {
                count: s.count,
                pc: tick.pc,
                t: tick.start,
            }) || e == (EventView::Frame { position: FramePosition::at(tick.start) }))
            ||| (tick.pc == 0xC092 || tick.pc == 0xC097 || tick.pc == 0xC09C) && (e == (
            EventView::DelayCall { count: s.count, pc: tick.pc, t: tick.start }) || (
            s.halt_exit is Some && e == (EventView::Elapsed { cycles: s.since_halt(tick.start) })))
            ||| tick.pc == 0xC0A0 && (e == (EventView::FlagsRead {
                count: s.count,
                pc: tick.pc,
                t: tick.start,
                flags: tick.interrupt_flags,
            }) || (s.halt_exit is Some && (e == (EventView::Elapsed {
                cycles: s.since_halt(tick.start),
            }) || e == (EventView::Frame { position: FramePosition::at(tick.start) }) || e == (
            EventView::ElapsedFrames {
                frames: s.since_halt(tick.start) / 17556,
                cycles: s.since_halt(tick.start) % 17556,
            }))))
        },
{
    lemma_search(tick.instruction, "HALT"@);
    let count = s.count;
    let pc = tick.pc;
    let t = tick.start;
    let halt = EventView::Halt { number: s.halts + 1, count, pc, t };
    let exit = EventView::HaltExit { count, pc, t };
    let frame = EventView::Frame { position: FramePosition::at(t) };
    let call = EventView::DelayCall { count, pc, t };
    let elapsed = EventView::Elapsed { cycles: s.since_halt(t) };
    let read = EventView::FlagsRead { count, pc, t, flags: tick.interrupt_flags };
    let frames = EventView::ElapsedFrames {
        frames: s.since_halt(t) / 17556,
        cycles: s.since_halt(t) % 17556,
    };
    let none = Seq::<EventView>::empty();
    let a = only_if(holds(tick.instruction, "HALT"@), seq![halt]);
    let b = only_if(pc == 0xC08B, seq![exit, frame]);
    let c0 = only_if(s.halt_exit is Some, seq![elapsed]);
    let c = only_if(pc == 0xC092 || pc == 0xC097 || pc == 0xC09C, seq![call] + c0);
    let d0 = only_if(s.halt_exit is Some, seq![elapsed, frame, frames]);
    let d = only_if(pc == 0xC0A0, seq![read] + d0);
    assert(s.halt_events(tick) =~= only_if(s.config.halt_trace, a + b + c + d));
    lemma_in_sum(a + b + c, d, e);
    lemma_in_sum(a + b, c, e);
    lemma_in_sum(a, b, e);
    lemma_in_one(halt, e);
    lemma_in_two(exit, frame, e);
    lemma_in_sum(seq![call], c0, e);
    lemma_in_one(call, e);
    lemma_in_one(elapsed, e);
    lemma_in_sum(seq![read], d0, e);
    lemma_in_one(read, e);
    lemma_in_three(elapsed, frame, frames, e);
}

/// What the other parts of a step may hold.
proof fn lemma_in_cycle_events(s: TraceState, o: Observation, e: EventView)
    ensures
        s.tima_events(o.tick, o.readings).contains(e) ==> e is TimaWrite || e is TimaRead,
        s.pc_events(o.tick, o.readings).contains(e) ==> e is NewPc,
        s.serial_events(o.readings).contains(e) ==> e is Serial,
        s.step(o).final_events(o.readings).contains(e) ==> e is Stopped || e is TimaWrites
            || e is TimaReads || e is TimaZeros,
{
}

/// A HALT is reported with every instruction that says so, with its own address
/// and time, and numbered after those before it.
pub proof fn lemma_halt_reports(config: Config, obs: Seq<Observation>, i: int, e: EventView)
    requires
        0 <= i < obs.len(),
        e is Halt,
    ensures
        reports_at(config, obs, i).contains(e) <==> {
            &&& config.halt_trace
            &&& holds(obs[i].tick.instruction, "HALT"@)
            &&& e == (EventView::Halt {
                number: halt_numbers(transcript(config, obs.take(i))).len() + 1,
                count: i as nat,
                pc: obs[i].tick.pc,
                t: obs[i].tick.start,
            })
        },
{
    let s = run(config, obs.take(i));
    lemma_run_counts(config, obs.take(i));
    lemma_halts_are_numbered(config, obs.take(i));
    lemma_in_step(s, obs[i], e);
    lemma_in_halt_events(s, obs[i].tick, e);
    lemma_in_cycle_events(s, obs[i], e);
}

/// The exit from the second HALT is reported with every instruction at the
/// address after it, with that instruction's time.
pub proof fn lemma_exit_reports(config: Config, obs: Seq<Observation>, i: int, e: EventView)
    requires
        0 <= i < obs.len(),
        e is HaltExit,
    ensures
        reports_at(config, obs, i).contains(e) <==> {
            &&& config.halt_trace
            &&& obs[i].tick.pc == 0xC08B
            &&& e == (EventView::HaltExit {
                count: i as nat,
                pc: obs[i].tick.pc,
                t: obs[i].tick.start,
            })
        },
{
    let s = run(config, obs.take(i));
    lemma_run_counts(config, obs.take(i));
    lemma_in_step(s, obs[i], e);
    lemma_in_halt_events(s, obs[i].tick, e);
    lemma_in_cycle_events(s, obs[i], e);
}

/// A call of the delay routine is reported with every instruction at one of the
/// three addresses, with that instruction's time, whatever came before it.
pub proof fn lemma_delay_reports(config: Config, obs: Seq<Observation>, i: int, e: EventView)
    requires
        0 <= i < obs.len(),
        e is DelayCall,
    ensures
        reports_at(config, obs, i).contains(e) <==> {
            &&& config.halt_trace
            &&& obs[i].tick.pc == 0xC092 || obs[i].tick.pc == 0xC097 || obs[i].tick.pc == 0xC09C
            &&& e == (EventView::DelayCall {
                count: i as nat,
                pc: obs[i].tick.pc,
                t: obs[i].tick.start,
            })
        },
{
    let s = run(config, obs.take(i));
    lemma_run_counts(config, obs.take(i));
    lemma_in_step(s, obs[i], e);
    lemma_in_halt_events(s, obs[i].tick, e);
    lemma_in_cycle_events(s, obs[i], e);
}

/// A read of the interrupt flags is reported with every instruction at its
/// address, with that instruction's time and the flags.
pub proof fn lemma_flags_reports(config: Config, obs: Seq<Observation>, i: int, e: EventView)
    requires
        0 <= i < obs.len(),
        e is FlagsRead,
    ensures
        reports_at(config, obs, i).contains(e) <==> {
            &&& config.halt_trace
            &&& obs[i].tick.pc == 0xC0A0
            &&& e == (EventView::FlagsRead {
                count: i as nat,
                pc: obs[i].tick.pc,
                t: obs[i].tick.start,
                flags: obs[i].tick.interrupt_flags,
            })
        },
{
    let s = run(config, obs.take(i));
    lemma_run_counts(config, obs.take(i));
    lemma_in_step(s, obs[i], e);
    lemma_in_halt_events(s, obs[i].tick, e);
    lemma_in_cycle_events(s, obs[i], e);
}

/// Time that has elapsed is reported with a call of the delay routine and with a
/// read of the flags, once the second HALT is over: it leads from the last exit to
/// the instruction.
pub proof fn lemma_elapsed_reports(
    config: Config,
    obs: Seq<Observation>,
    i: int,
    j: int,
    cycles: nat,
)
    requires
        0 <= i < obs.len(),
        run(config, obs.take(i)).accepts(obs[i].tick),
        exited_before(obs, i) ==> is_last_exit(obs, j, i),
    ensures
        reports_at(config, obs, i).contains(EventView::Elapsed { cycles }) <==> {
            &&& config.halt_trace
            &&& obs[i].tick.pc == 0xC092 || obs[i].tick.pc == 0xC097 || obs[i].tick.pc == 0xC09C
                || obs[i].tick.pc == 0xC0A0
            &&& exited_before(obs, i)
            &&& obs[j].tick.start + cycles == obs[i].tick.start
        },
{
    let e = EventView::Elapsed { cycles };
    let s = run(config, obs.take(i));
    lemma_run_counts(config, obs.take(i));
    lemma_in_step(s, obs[i], e);
    lemma_in_halt_events(s, obs[i].tick, e);
    lemma_in_cycle_events(s, obs[i], e);
    if config.halt_trace {
        let k = lemma_halt_exit_is(config, obs, i);
        if exited_before(obs, i) {
            lemma_one_last_exit(obs, j, k, i);
        }
    }
}

/// The same time in whole frames, of 17556 cycles each, and what is left over is
/// reported with a read of the flags.
pub proof fn lemma_elapsed_frames_reports(
    config: Config,
    obs: Seq<Observation>,
    i: int,
    j: int,
    frames: nat,
    cycles: nat,
)
    requires
        0 <= i < obs.len(),
        run(config, obs.take(i)).accepts(obs[i].tick),
        exited_before(obs, i) ==> is_last_exit(obs, j, i),
    ensures
        reports_at(config, obs, i).contains(EventView::ElapsedFrames { frames, cycles }) <==> {
            &&& config.halt_trace
            &&& obs[i].tick.pc == 0xC0A0
            &&& exited_before(obs, i)
            &&& obs[j].tick.start + frames * 17556 + cycles == obs[i].tick.start
            &&& cycles < 17556
        },
{
    let e = EventView::ElapsedFrames { frames, cycles };
    let s = run(config, obs.take(i));
    lemma_run_counts(config, obs.take(i));
    lemma_in_step(s, obs[i], e);
    lemma_in_halt_events(s, obs[i].tick, e);
    lemma_in_cycle_events(s, obs[i], e);
    if config.halt_trace {
        let k = lemma_halt_exit_is(config, obs, i);
        if exited_before(obs, i) {
            lemma_one_last_exit(obs, j, k, i);
        }
    }
}

/// The place in the picture is reported with the exit from the second HALT, and
/// with a read of the flags after it. It is the place at the instruction's time:
/// frames take 17556 cycles, of which those from 16416 on are the vertical blank.
pub proof fn lemma_frame_reports(
    config: Config,
    obs: Seq<Observation>,
    i: int,
    position: FramePosition,
)
    requires
        0 <= i < obs.len(),
    ensures
        reports_at(config, obs, i).contains(EventView::Frame { position }) <==> {
            &&& config.halt_trace
            &&& obs[i].tick.pc == 0xC08B || (obs[i].tick.pc == 0xC0A0 && exited_before(obs, i))
            &&& position.frame * 17556 + position.pos == obs[i].tick.start
            &&& position.pos < 17556
            &&& position.in_vblank <==> position.pos >= 16416
        },
{
    let e = EventView::Frame { position };
    let s = run(config, obs.take(i));
    lemma_run_counts(config, obs.take(i));
    lemma_in_step(s, obs[i], e);
    lemma_in_halt_events(s, obs[i].tick, e);
    lemma_in_cycle_events(s, obs[i], e);
    if config.halt_trace {
        let k = lemma_halt_exit_is(config, obs, i);
    }
    let t = obs[i].tick.start;
    if position.frame * 17556 + position.pos == t && position.pos < 17556 && (position.in_vblank
        <==> position.pos >= 16416) {
        assert(position == FramePosition::at(t));
    }
}

/// An instruction is refused exactly where it would have to be reported that it
/// came before the last exit from the second HALT.
pub proof fn lemma_refused(config: Config, obs: Seq<Observation>, tick: TickView, j: int)
    requires
        exited_before(obs, obs.len() as int) ==> is_last_exit(obs, j, obs.len() as int),
    ensures
        !run(config, obs).accepts(tick) <==> {
            &&& config.halt_trace
            &&& tick.pc == 0xC092 || tick.pc == 0xC097 || tick.pc == 0xC09C || tick.pc == 0xC0A0
            &&& exited_before(obs, obs.len() as int)
            &&& tick.start < obs[j].tick.start
        },
{
    let n = obs.len() as int;
    assert(obs.take(n) =~= obs);
    lemma_run_counts(config, obs);
    if config.halt_trace {
        let k = lemma_halt_exit_is(config, obs, n);
        if exited_before(obs, n) {
            lemma_one_last_exit(obs, j, k, n);
        }
    }
}

// The timer counter.

/// Does the written instruction store to offset 5 of the high page, or name
/// 55301?
pub open spec fn names_tima_write(instruction: Seq<char>) -> bool {
    holds(instruction, "LD_8_TO_FF_IMMEDIATE(5)"@) || holds(instruction, "55301"@)
}

/// Does the written instruction load from offset 5 of the high page, or from
/// memory and name 65285?
pub open spec fn names_tima_read(instruction: Seq<char>) -> bool {
    holds(instruction, "LD_8_FROM_FF_IMMEDIATE(5)"@) || (holds(instruction, "LD_8_FROM_MEMORY"@)
        && holds(instruction, "65285"@))
}

/// What an instruction is taken for depends on these pieces of its text alone.
pub proof fn lemma_tima_accesses(instruction: Seq<char>)
    ensures
        is_tima_write(instruction) <==> names_tima_write(instruction),
        is_tima_read(instruction) <==> names_tima_read(instruction),
{
    lemma_search(instruction, "LD_8_TO_FF_IMMEDIATE(5)"@);
    lemma_search(instruction, "55301"@);
    lemma_search(instruction, "LD_8_FROM_FF_IMMEDIATE(5)"@);
    lemma_search(instruction, "LD_8_FROM_MEMORY"@);
    lemma_search(instruction, "65285"@);
}

proof fn lemma_in_tima_events(config: Config, obs: Seq<Observation>, i: int, e: EventView)
    requires
        0 <= i < obs.len(),
    ensures
        run(config, obs.take(i)).tima_events(obs[i].tick, obs[i].readings).contains(e) <==> {
            &&& config.tima_trace
            &&& {
                ||| names_tima_write(obs[i].tick.instruction) && e == (EventView::TimaWrite {
                    count: i as nat,
                    pc: obs[i].tick.pc,
                    before: obs[i].readings.tima_before,
                    after: obs[i].readings.tima_after,
                    raw_div: obs[i].readings.raw_div,
                    tac: obs[i].readings.tac,
                })
                ||| i > 0 && names_tima_write(obs[i - 1].tick.instruction) && !names_tima_write(
                    obs[i].tick.instruction,
                ) && names_tima_read(obs[i].tick.instruction) && e == (EventView::TimaRead {
                    count: i as nat,
                    pc: obs[i].tick.pc,
                    value: obs[i].readings.tima_after,
                    raw_div: obs[i].readings.raw_div,
                    write: tima_write_counts(transcript(config, obs.take(i))).len(),
                })
            }
        },
{
    let s = run(config, obs.take(i));
    let o = obs[i];
    lemma_run_counts(config, obs.take(i));
    lemma_tima_is_traced(config, obs.take(i));
    lemma_tima_accesses(o.tick.instruction);
    if i > 0 {
        lemma_tima_accesses(obs[i - 1].tick.instruction);
        assert(obs.take(i)[i - 1] == obs[i - 1]);
    }
    let t = s.tima_events(o.tick, o.readings);
    if t.len() == 1 {
        assert(t =~= seq![t[0]]);
        lemma_in_one(t[0], e);
    }
}

/// With a trace of TIMA, a write is reported with exactly those instructions
/// that name one, with what TIMA was before it and after it.
pub proof fn lemma_tima_write_reports(config: Config, obs: Seq<Observation>, i: int, e: EventView)
    requires
        0 <= i < obs.len(),
        e is TimaWrite,
    ensures
        reports_at(config, obs, i).contains(e) <==> {
            &&& config.tima_trace
            &&& names_tima_write(obs[i].tick.instruction)
            &&& e == (EventView::TimaWrite {
                count: i as nat,
                pc: obs[i].tick.pc,
                before: obs[i].readings.tima_before,
                after: obs[i].readings.tima_after,
                raw_div: obs[i].readings.raw_div,
                tac: obs[i].readings.tac,
            })
        },
{
    let s = run(config, obs.take(i));
    lemma_in_step(s, obs[i], e);
    lemma_in_halt_events(s, obs[i].tick, e);
    lemma_in_cycle_events(s, obs[i], e);
    lemma_in_tima_events(config, obs, i, e);
}

/// With a trace of TIMA, a read is reported with exactly those instructions that
/// name one and come right after a write, with the value and the number of the
/// write.
pub proof fn lemma_tima_read_reports(config: Config, obs: Seq<Observation>, i: int, e: EventView)
    requires
        0 <= i < obs.len(),
        e is TimaRead,
    ensures
        reports_at(config, obs, i).contains(e) <==> {
            &&& config.tima_trace
            &&& i > 0 && names_tima_write(obs[i - 1].tick.instruction)
            &&& !names_tima_write(obs[i].tick.instruction)
            &&& names_tima_read(obs[i].tick.instruction)
            &&& e == (EventView::TimaRead {
                count: i as nat,
                pc: obs[i].tick.pc,
                value: obs[i].readings.tima_after,
                raw_div: obs[i].readings.raw_div,
                write: tima_write_counts(transcript(config, obs.take(i))).len(),
            })
        },
{
    let s = run(config, obs.take(i));
    lemma_in_step(s, obs[i], e);
    lemma_in_halt_events(s, obs[i].tick, e);
    lemma_in_cycle_events(s, obs[i], e);
    lemma_in_tima_events(config, obs, i, e);
}

// The program counter.

/// Unless TIMA is traced, an address is reported with exactly the first
/// instruction at it, with that instruction and the stack pointer after it.
pub proof fn lemma_new_pc_reports(config: Config, obs: Seq<Observation>, i: int, e: EventView)
    requires
        0 <= i < obs.len(),
        e is NewPc,
    ensures
        reports_at(config, obs, i).contains(e) <==> {
            &&& !config.tima_trace
            &&& forall|j: int| 0 <= j < i ==> (#[trigger] obs[j]).tick.pc != obs[i].tick.pc
            &&& e == (EventView::NewPc {
                count: i as nat,
                pc: obs[i].tick.pc,
                instruction: obs[i].tick.instruction,
                sp: obs[i].readings.sp,
            })
        },
{
    let s = run(config, obs.take(i));
    let o = obs[i];
    lemma_run_counts(config, obs.take(i));
    lemma_seen(config, obs.take(i), o.tick.pc);
    lemma_in_step(s, o, e);
    lemma_in_halt_events(s, o.tick, e);
    lemma_in_cycle_events(s, o, e);
    assert(s.seen.contains(o.tick.pc) <==> exists|j: int|
        0 <= j < i && (#[trigger] obs[j]).tick.pc == o.tick.pc) by {
        assert(forall|j: int| 0 <= j < i ==> #[trigger] obs[j] == obs.take(i)[j]);
        if s.seen.contains(o.tick.pc) {
            let j = choose|j: int|
                0 <= j < obs.take(i).len() && (#[trigger] obs.take(i)[j]).tick.pc == o.tick.pc;
            assert(obs[j].tick.pc == o.tick.pc);
        }
    }
    let p = s.pc_events(o.tick, o.readings);
    if p.len() == 1 {
        assert(p =~= seq![p[0]]);
        lemma_in_one(p[0], e);
    }
}

// The serial port.

/// Is `m` the length of the longest serial output before position `i`?
pub open spec fn is_longest_before(obs: Seq<Observation>, i: int, m: nat) -> bool {
    &&& forall|j: int| 0 <= j < i ==> (#[trigger] obs[j]).readings.serial.len() <= m
    &&& m > 0 ==> exists|j: int| 0 <= j < i && (#[trigger] obs[j]).readings.serial.len() == m
}

proof fn lemma_serial_len_is_longest(config: Config, obs: Seq<Observation>, i: int)
    requires
        0 <= i <= obs.len(),
    ensures
        is_longest_before(obs, i, run(config, obs.take(i)).serial_len),
    decreases i,
{
    if i > 0 {
        lemma_serial_len_is_longest(config, obs, i - 1);
        assert(obs.take(i).drop_last() =~= obs.take(i - 1));
        assert(obs.take(i).last() == obs[i - 1]);
        let m = run(config, obs.take(i - 1)).serial_len;
        if obs[i - 1].readings.serial.len() <= m && m > 0 {
            let j = choose|j: int| 0 <= j < i - 1 && (#[trigger] obs[j]).readings.serial.len() == m;
            assert(0 <= j < i && obs[j].readings.serial.len() == m);
        }
    }
}

/// Serial output is reported with exactly those instructions after which it is
/// longer than ever before, with the bytes by which it is longer.
pub proof fn lemma_serial_reports(
    config: Config,
    obs: Seq<Observation>,
    i: int,
    m: nat,
    e: EventView,
)
    requires
        0 <= i < obs.len(),
        is_longest_before(obs, i, m),
        e is Serial,
    ensures
        reports_at(config, obs, i).contains(e) <==> {
            &&& obs[i].readings.serial.len() > m
            &&& e == (EventView::Serial {
                count: i as nat,
                bytes: obs[i].readings.serial.skip(m as int),
            })
        },
{
    let s = run(config, obs.take(i));
    let o = obs[i];
    lemma_run_counts(config, obs.take(i));
    lemma_serial_len_is_longest(config, obs, i);
    assert(s.serial_len == m) by {
        let n = s.serial_len;
        if n > 0 {
            let j = choose|j: int| 0 <= j < i && (#[trigger] obs[j]).readings.serial.len() == n;
            assert(n <= m);
        }
        if m > 0 {
            let j = choose|j: int| 0 <= j < i && (#[trigger] obs[j]).readings.serial.len() == m;
            assert(m <= n);
        }
    }
    lemma_in_step(s, o, e);
    lemma_in_halt_events(s, o.tick, e);
    lemma_in_cycle_events(s, o, e);
    let r = s.serial_events(o.readings);
    if r.len() == 1 {
        assert(r =~= seq![r[0]]);
        lemma_in_one(r[0], e);
    }
}

// The end.

/// Zeros are counted one by one, wherever they stand.
pub proof fn lemma_zeros_add_up(values: Seq<u8>, v: u8)
    ensures
        zeros(Seq::<u8>::empty()) == 0,
        zeros(values.push(v)) == zeros(values) + (if v == 0 { 1nat } else { 0 }),
        zeros(values) == values.to_multiset().count(0),
    decreases values.len(),
{
    reveal(Seq::filter);
    broadcast use vstd::seq_lib::group_to_multiset_ensures;

    assert(values.push(v).drop_last() =~= values);
    if values.len() > 0 {
        lemma_zeros_add_up(values.drop_last(), values.last());
        assert(values =~= values.drop_last().push(values.last()));
    }
}

proof fn lemma_in_final_events(config: Config, obs: Seq<Observation>, i: int, e: EventView)
    requires
        0 <= i < obs.len(),
        e is Stopped || e is TimaWrites || e is TimaReads || e is TimaZeros,
    ensures
        reports_at(config, obs, i).contains(e) <==> i + 1 >= config.max_instructions && {
            ||| e == (EventView::Stopped {
                max: config.max_instructions,
                pc: obs[i].readings.next_pc,
                sp: obs[i].readings.sp,
            })
            ||| config.tima_trace && {
                let counts = tima_write_counts(transcript(config, obs.take(i + 1)));
                let values = tima_read_values(transcript(config, obs.take(i + 1)));
                ||| e == (EventView::TimaWrites { writes: counts.len() })
                ||| e == (EventView::TimaReads { values: shown(values) })
                ||| e == (EventView::TimaZeros { zeros: zeros(values), total: values.len() })
            }
        },
{
    let s = run(config, obs.take(i));
    let o = obs[i];
    let n = run(config, obs.take(i + 1));
    assert(obs.take(i + 1).drop_last() =~= obs.take(i));
    assert(s.step(o) == n);
    lemma_run_counts(config, obs.take(i + 1));
    lemma_tima_is_traced(config, obs.take(i + 1));
    lemma_in_step(s, o, e);
    lemma_in_halt_events(s, o.tick, e);
    lemma_in_cycle_events(s, o, e);
    let stopped = EventView::Stopped {
        max: config.max_instructions,
        pc: o.readings.next_pc,
        sp: o.readings.sp,
    };
    let writes = EventView::TimaWrites { writes: n.writes };
    let reads = EventView::TimaReads { values: shown(n.reads) };
    let zero = EventView::TimaZeros { zeros: zeros(n.reads), total: n.reads.len() };
    let rest = only_if(config.tima_trace, seq![writes, reads, zero]);
    assert(n.final_events(o.readings) =~= only_if(
        i + 1 >= config.max_instructions,
        seq![stopped] + rest,
    ));
    lemma_in_sum(seq![stopped], rest, e);
    lemma_in_one(stopped, e);
    lemma_in_three(writes, reads, zero, e);
}

/// The end is reported with the instruction that reaches the limit, with where
/// the machine then is.
pub proof fn lemma_stop_reports(config: Config, obs: Seq<Observation>, i: int, e: EventView)
    requires
        0 <= i < obs.len(),
        e is Stopped,
    ensures
        reports_at(config, obs, i).contains(e) <==> {
            &&& i + 1 >= config.max_instructions
            &&& e == (EventView::Stopped {
                max: config.max_instructions,
                pc: obs[i].readings.next_pc,
                sp: obs[i].readings.sp,
            })
        },
{
    lemma_in_final_events(config, obs, i, e);
}

/// The summary of a trace of TIMA comes with the end and tells of the reports
/// before it: how many writes there were, the values of the first twenty reads,
/// and how many values there were and how many of them were zero.
pub proof fn lemma_summary_reports(config: Config, obs: Seq<Observation>, i: int, e: EventView)
    requires
        0 <= i < obs.len(),
    ensures
        e matches EventView::TimaWrites { writes } ==> (reports_at(config, obs, i).contains(e)
            <==> {
            &&& config.tima_trace
            &&& i + 1 >= config.max_instructions
            &&& writes == tima_write_counts(transcript(config, obs.take(i + 1))).len()
        }),
        e matches EventView::TimaReads { values } ==> (reports_at(config, obs, i).contains(e) <==> {
            let all = tima_read_values(transcript(config, obs.take(i + 1)));
            &&& config.tima_trace
            &&& i + 1 >= config.max_instructions
            &&& values.is_prefix_of(all)
            &&& values.len() == all.len() || (values.len() == 20 && all.len() > 20)
            &&& values.len() <= 20
        }),
        e matches EventView::TimaZeros { zeros, total } ==> (reports_at(config, obs, i).contains(e)
            <==> {
            let all = tima_read_values(transcript(config, obs.take(i + 1)));
            &&& config.tima_trace
            &&& i + 1 >= config.max_instructions
            &&& zeros == all.to_multiset().count(0)
            &&& total == all.len()
        }),
{
    let all = tima_read_values(transcript(config, obs.take(i + 1)));
    lemma_zeros_add_up(all, 0);
    match e {
        EventView::TimaWrites { writes } => {
            lemma_in_final_events(config, obs, i, e);
        },
        EventView::TimaReads { values } => {
            lemma_in_final_events(config, obs, i, e);
            if values.is_prefix_of(all) && (values.len() == all.len() || (values.len() == 20
                && all.len() > 20)) && values.len() <= 20 {
                assert(values =~= shown(all));
            }
        },
        EventView::TimaZeros { zeros, total } => {
            lemma_in_final_events(config, obs, i, e);
        },
        _ => {},
    }
}

/// When the machine gives up, it is reported where, after how many instructions
/// and with what words; without words, that is said.
pub proof fn lemma_panic_report(
    config: Config,
    obs: Seq<Observation>,
    pc: u16,
    message: Option<Seq<char>>,
    count: nat,
    at: u16,
    words: Seq<char>,
)
    ensures
        run(config, obs).panic_event(pc, message) == (EventView::Panicked {
            count,
            pc: at,
            message: words,
        }) <==> {
            &&& count == obs.len()
            &&& at == pc
            &&& message == Some(words) || (message is None && words == "unknown panic"@)
        },
{
    lemma_run_counts(config, obs);
}

// The order of reports.

/// The place of a report among those that are made with the same instruction.
pub open spec fn rank(e: EventView) -> int {
    match e {
        EventView::Panicked { .. } => -1,
        EventView::Halt { .. } => 0,
        EventView::HaltExit { .. } => 1,
        EventView::DelayCall { .. } => 2,
        EventView::FlagsRead { .. } => 3,
        EventView::Elapsed { .. } => 4,
        EventView::Frame { .. } => 5,
        EventView::ElapsedFrames { .. } => 6,
        EventView::TimaWrite { .. } => 7,
        EventView::TimaRead { .. } => 8,
        EventView::NewPc { .. } => 9,
        EventView::Serial { .. } => 10,
        EventView::Stopped { .. } => 11,
        EventView::TimaWrites { .. } => 12,
        EventView::TimaReads { .. } => 13,
        EventView::TimaZeros { .. } => 14,
    }
}

/// Do the reports come in order, no two of a kind, with places from `low` up to
/// but not including `high`?
pub open spec fn in_order(events: Seq<EventView>, low: int, high: int) -> bool {
    &&& forall|a: int, b: int|
        0 <= a < b < events.len() ==> rank(#[trigger] events[a]) < rank(#[trigger] events[b])
    &&& forall|a: int| 0 <= a < events.len() ==> low <= rank(#[trigger] events[a]) < high
}

proof fn lemma_order_adds(a: Seq<EventView>, b: Seq<EventView>, low: int, mid: int, high: int)
    requires
        in_order(a, low, mid),
        in_order(b, mid, high),
        low <= mid <= high,
    ensures
        in_order(a + b, low, high),
{
    let s = a + b;
    assert forall|i: int, j: int| 0 <= i < j < s.len() implies rank(#[trigger] s[i]) < rank(
        #[trigger] s[j],
    ) by {
        if j < a.len() {
            assert(rank(a[i]) < rank(a[j]));
        } else if i < a.len() {
            assert(rank(a[i]) < mid);
            assert(mid <= rank(b[j - a.len()]));
        } else {
            assert(rank(b[i - a.len()]) < rank(b[j - a.len()]));
        }
    }
    assert forall|i: int| 0 <= i < s.len() implies low <= rank(#[trigger] s[i]) < high by {
        if i < a.len() {
            assert(low <= rank(a[i]) < mid);
        } else {
            assert(mid <= rank(b[i - a.len()]) < high);
        }
    }
}

/// With one instruction, no two reports of a kind are made. Those on HALT come
/// first, before the cycles of the instruction; then, after its cycles, those on
/// TIMA, on the program counter, on the serial port and on the end of the run.
pub proof fn lemma_reports_are_in_order(s: TraceState, o: Observation)
    ensures
        in_order(s.step_events(o), 0, 15),
        in_order(s.halt_events(o.tick), 0, 7),
        in_order(s.after_tick(o.tick).cycle_events(o.tick, o.readings), 7, 15),
        s.step_events(o) == s.halt_events(o.tick) + s.after_tick(o.tick).cycle_events(
            o.tick,
            o.readings,
        ),
{
    let h = s.halt_events(o.tick);
    assert(in_order(h, 0, 7));
    let t = s.tima_events(o.tick, o.readings);
    let p = s.pc_events(o.tick, o.readings);
    let r = s.serial_events(o.readings);
    let d = s.step(o).final_events(o.readings);
    lemma_order_adds(t, p, 7, 9, 10);
    lemma_order_adds(t + p, r, 7, 10, 11);
    lemma_order_adds(t + p + r, d, 7, 11, 15);
    let c = s.after_tick(o.tick).cycle_events(o.tick, o.readings);
    assert(c =~= t + p + r + d);
    lemma_order_adds(h, c, 0, 7, 15);
}

// What is asked for and what is handed over.

/// An instruction has to be handed over in writing if anything is traced, or if
/// nothing was executed at its address before.
pub proof fn lemma_when_instructions_are_wanted(config: Config, obs: Seq<Observation>, pc: u16)
    ensures
        run(config, obs).wants_instruction(pc) <==> {
            ||| config.halt_trace
            ||| config.tima_trace
            ||| forall|j: int| 0 <= j < obs.len() ==> (#[trigger] obs[j]).tick.pc != pc
        },
{
    lemma_run_counts(config, obs);
    lemma_seen(config, obs, pc);
}

/// The interrupt flags have to be handed over where they are read, if HALT is
/// traced.
pub proof fn lemma_when_flags_are_wanted(config: Config, obs: Seq<Observation>, pc: u16)
    ensures
        run(config, obs).wants_interrupt_flags(pc) <==> config.halt_trace && pc == 0xC0A0,
{
    lemma_run_counts(config, obs);
}

/// The raw divider has to be handed over with a write to TIMA and with a read
/// right after one, if TIMA is traced.
pub proof fn lemma_when_raw_div_is_wanted(
    config: Config,
    obs: Seq<Observation>,
    instruction: Seq<char>,
)
    ensures
        run(config, obs).wants_raw_div(instruction) <==> {
            &&& config.tima_trace
            &&& names_tima_write(instruction) || (names_tima_read(instruction) && obs.len() > 0
                && names_tima_write(obs.last().tick.instruction))
        },
{
    lemma_run_counts(config, obs);
    lemma_tima_is_traced(config, obs);
    lemma_tima_accesses(instruction);
    if obs.len() > 0 {
        lemma_tima_accesses(obs.last().tick.instruction);
    }
}

/// Readings that were asked for show: other flags or another raw divider make for
/// other reports.
pub proof fn lemma_asked_readings_show(
    config: Config,
    obs: Seq<Observation>,
    a: Observation,
    b: Observation,
)
    requires
        a.tick.pc == b.tick.pc,
        a.tick.start == b.tick.start,
        a.tick.instruction == b.tick.instruction,
        (run(config, obs).wants_interrupt_flags(a.tick.pc) && a.tick.interrupt_flags
            != b.tick.interrupt_flags) || (run(config, obs).wants_raw_div(a.tick.instruction)
            && a.readings.raw_div != b.readings.raw_div),
    ensures
        run(config, obs).step_events(a) != run(config, obs).step_events(b),
{
    let s = run(config, obs);
    if s.step_events(a) == s.step_events(b) {
        let n = obs.len() as int;
        let with_a = obs.push(a);
        let with_b = obs.push(b);
        assert(with_a.take(n) =~= obs);
        assert(with_b.take(n) =~= obs);
        lemma_run_counts(config, obs);
        if s.wants_interrupt_flags(a.tick.pc) && a.tick.interrupt_flags != b.tick.interrupt_flags {
            let e = EventView::FlagsRead {
                count: n as nat,
                pc: a.tick.pc,
                t: a.tick.start,
                flags: a.tick.interrupt_flags,
            };
            lemma_flags_reports(config, with_a, n, e);
            lemma_flags_reports(config, with_b, n, e);
        } else if s.writes_tima(a.tick) {
            let e = EventView::TimaWrite {
                count: n as nat,
                pc: a.tick.pc,
                before: a.readings.tima_before,
                after: a.readings.tima_after,
                raw_div: a.readings.raw_div,
                tac: a.readings.tac,
            };
            lemma_tima_accesses(a.tick.instruction);
            lemma_tima_write_reports(config, with_a, n, e);
            lemma_tima_write_reports(config, with_b, n, e);
        } else {
            let e = EventView::TimaRead {
                count: n as nat,
                pc: a.tick.pc,
                value: a.readings.tima_after,
                raw_div: a.readings.raw_div,
                write: tima_write_counts(transcript(config, obs)).len(),
            };
            lemma_when_raw_div_is_wanted(config, obs, a.tick.instruction);
            lemma_tima_accesses(a.tick.instruction);
            if n > 0 {
                assert(with_a[n - 1] == obs.last());
                assert(with_b[n - 1] == obs.last());
            }
            lemma_tima_read_reports(config, with_a, n, e);
            lemma_tima_read_reports(config, with_b, n, e);
        }
    }
}

/// What is handed over is taken as it is, field by field.
pub proof fn lemma_ticks_are_taken_as_they_are(tick: Tick)
    ensures
        tick@.pc == tick.pc,
        tick@.start == tick.start,
        tick@.instruction == tick.instruction@,
        tick@.interrupt_flags == tick.interrupt_flags,
{
}

/// What is handed over is taken as it is, field by field.
pub proof fn lemma_readings_are_taken_as_they_are(readings: Readings)
    ensures
        readings@.tima_before == readings.tima_before,
        readings@.tima_after == readings.tima_after,
        readings@.tac == readings.tac,
        readings@.raw_div == readings.raw_div,
        readings@.sp == readings.sp,
        readings@.next_pc == readings.next_pc,
        readings@.serial == readings.serial@,
{
}

/// A list of reports is taken as it is, one by one.
pub proof fn lemma_lists_are_taken_as_they_are(events: Seq<Event>)
    ensures
        views(events).len() == events.len(),
        forall|i: int| 0 <= i < events.len() ==> #[trigger] views(events)[i] == events[i]@,
{
}

/// Reports that are handed out say the same as the reports they stand for.
pub proof fn lemma_events_are_taken_as_they_are(event: Event)
    ensures
        event matches Event::Panicked { count, pc, message } ==> event@ == (EventView::Panicked {
            count: count as nat,
            pc,
            message: message@,
        }),
        event matches Event::Halt { number, count, pc, t } ==> event@ == (EventView::Halt {
            number: number as nat,
            count: count as nat,
            pc,
            t,
        }),
        event matches Event::HaltExit { count, pc, t } ==> event@ == (EventView::HaltExit {
            count: count as nat,
            pc,
            t,
        }),
        event matches Event::Frame { position } ==> event@ == (EventView::Frame { position }),
        event matches Event::DelayCall { count, pc, t } ==> event@ == (EventView::DelayCall {
            count: count as nat,
            pc,
            t,
        }),
        event matches Event::Elapsed { cycles } ==> event@ == (EventView::Elapsed {
            cycles: cycles as nat,
        }),
        event matches Event::FlagsRead { count, pc, t, flags } ==> event@ == (
        EventView::FlagsRead { count: count as nat, pc, t, flags }),
        event matches Event::ElapsedFrames { frames, cycles } ==> event@ == (
        EventView::ElapsedFrames { frames: frames as nat, cycles: cycles as nat }),
        event matches Event::TimaWrite { count, pc, before, after, raw_div, tac } ==> event@ == (
        EventView::TimaWrite { count: count as nat, pc, before, after, raw_div, tac }),
        event matches Event::TimaRead { count, pc, value, raw_div, write } ==> event@ == (
        EventView::TimaRead { count: count as nat, pc, value, raw_div, write: write as nat }),
        event matches Event::NewPc { count, pc, instruction, sp } ==> event@ == (
        EventView::NewPc { count: count as nat, pc, instruction: instruction@, sp }),
        event matches Event::Serial { count, bytes } ==> event@ == (EventView::Serial {
            count: count as nat,
            bytes: bytes@,
        }),
        event matches Event::Stopped { max, pc, sp } ==> event@ == (EventView::Stopped {
            max,
            pc,
            sp,
        }),
        event matches Event::TimaWrites { writes } ==> event@ == (EventView::TimaWrites {
            writes: writes as nat,
        }),
        event matches Event::TimaReads { values } ==> event@ == (EventView::TimaReads {
            values: values@,
        }),
        event matches Event::TimaZeros { zeros, total } ==> event@ == (EventView::TimaZeros {
            zeros: zeros as nat,
            total: total as nat,
        }),
{
}

// What is taken for an access to TIMA, by offset.

proof fn lemma_offset_text(n: u8)
    ensures
        1 <= decimal(n as nat).len() <= 3,
        forall|i: int|
            0 <= i < decimal(n as nat).len() ==> '0' <= #[trigger] decimal(n as nat)[i] <= '9',
        decimal(n as nat) == seq!['5'] <==> n == 5,
{
    lemma_decimal_reads_back(n as nat);
    let d = decimal(n as nat);
    assert(d.len() <= 3) by {
        reveal_with_fuel(decimal, 3);
    }
    assert forall|i: int| 0 <= i < d.len() implies '0' <= #[trigger] d[i] <= '9' by {
        assert(digit_value(d[i])->0 < 10);
    }
    lemma_decimal_reads_back(5);
    if d == seq!['5'] {
        assert(d.drop_last() =~= Seq::<char>::empty());
        reveal_with_fuel(value, 2);
    }
    if n == 5 {
        reveal_strlit("0123456789ABCDEF");
        assert(d =~= seq!['5']);
    }
}

/// A store to the high page is a write to TIMA at offset 5 and at no other, and
/// never a read.
pub proof fn lemma_stores_by_offset(n: u8)
    ensures
        is_tima_write("LD_8_TO_FF_IMMEDIATE("@ + decimal(n as nat) + ")"@) <==> n == 5,
        !is_tima_read("LD_8_TO_FF_IMMEDIATE("@ + decimal(n as nat) + ")"@),
{
    let pre = "LD_8_TO_FF_IMMEDIATE("@;
    let d = decimal(n as nat);
    let text = pre + d + ")"@;
    lemma_offset_text(n);
    reveal_strlit("LD_8_TO_FF_IMMEDIATE(");
    reveal_strlit(")");
    reveal_strlit("LD_8_TO_FF_IMMEDIATE(5)");
    reveal_strlit("55301");
    reveal_strlit("LD_8_FROM_FF_IMMEDIATE(5)");
    reveal_strlit("LD_8_FROM_MEMORY");
    assert forall|k: int| 0 <= k < text.len() && text[k] == 'L' implies k == 0 by {
        lemma_store_prefix(k);
    }
    assert forall|k: int| 0 <= k < text.len() && text[k] == '5' implies k >= 21 by {
        lemma_store_prefix(k);
    }
    let pat = "LD_8_TO_FF_IMMEDIATE(5)"@;
    if n == 5 {
        assert(text =~= pat);
        assert(text.subrange(0, pat.len() as int) =~= pat);
        assert(occurs_at(text, pat, 0));
    }
    if occurs(text, pat) {
        let k = choose|k: int| #[trigger] occurs_at(text, pat, k);
        assert(text.subrange(k, k + pat.len())[0] == text[k]);
        assert(text.subrange(k, k + pat.len())[21] == text[k + 21]);
        assert(text.subrange(k, k + pat.len())[22] == text[k + 22]);
        assert(d[0] == '5');
        if d.len() > 1 {
            assert(text[22] == d[1]);
        }
        assert(d =~= seq!['5']);
    }
    lemma_no_long_number(text, "55301"@, 21);
    lemma_wrong_letter(text, "LD_8_FROM_FF_IMMEDIATE(5)"@, 5);
    lemma_wrong_letter(text, "LD_8_FROM_MEMORY"@, 5);
}

/// A load from the high page is a read of TIMA at offset 5 and at no other, and
/// never a write.
pub proof fn lemma_loads_by_offset(n: u8)
    ensures
        is_tima_read("LD_8_FROM_FF_IMMEDIATE("@ + decimal(n as nat) + ")"@) <==> n == 5,
        !is_tima_write("LD_8_FROM_FF_IMMEDIATE("@ + decimal(n as nat) + ")"@),
{
    let pre = "LD_8_FROM_FF_IMMEDIATE("@;
    let d = decimal(n as nat);
    let text = pre + d + ")"@;
    lemma_offset_text(n);
    reveal_strlit("LD_8_FROM_FF_IMMEDIATE(");
    reveal_strlit(")");
    reveal_strlit("LD_8_TO_FF_IMMEDIATE(5)");
    reveal_strlit("55301");
    reveal_strlit("LD_8_FROM_FF_IMMEDIATE(5)");
    reveal_strlit("LD_8_FROM_MEMORY");
    assert forall|k: int| 0 <= k < text.len() && text[k] == 'L' implies k == 0 by {
        lemma_load_prefix(k);
    }
    assert forall|k: int| 0 <= k < text.len() && text[k] == '5' implies k >= 23 by {
        lemma_load_prefix(k);
    }
    let pat = "LD_8_FROM_FF_IMMEDIATE(5)"@;
    if n == 5 {
        assert(text =~= pat);
        assert(text.subrange(0, pat.len() as int) =~= pat);
        assert(occurs_at(text, pat, 0));
    }
    if occurs(text, pat) {
        let k = choose|k: int| #[trigger] occurs_at(text, pat, k);
        assert(text.subrange(k, k + pat.len())[0] == text[k]);
        assert(text.subrange(k, k + pat.len())[23] == text[k + 23]);
        assert(text.subrange(k, k + pat.len())[24] == text[k + 24]);
        assert(d[0] == '5');
        if d.len() > 1 {
            assert(text[24] == d[1]);
        }
        assert(d =~= seq!['5']);
    }
    lemma_no_long_number(text, "55301"@, 23);
    lemma_wrong_letter(text, "LD_8_TO_FF_IMMEDIATE(5)"@, 5);
    lemma_wrong_letter(text, "LD_8_FROM_MEMORY"@, 10);
}

proof fn lemma_store_prefix(k: int)
    ensures
        0 <= k < 21 ==> "LD_8_TO_FF_IMMEDIATE("@[k] != '5',
        1 <= k < 21 ==> "LD_8_TO_FF_IMMEDIATE("@[k] != 'L',
{
    reveal_strlit("LD_8_TO_FF_IMMEDIATE(");
    assert(k < 0 || k >= 21 || k == 0 || k == 1 || k == 2 || k == 3 || k == 4 || k == 5 || k == 6
        || k == 7 || k == 8 || k == 9 || k == 10 || k == 11 || k == 12 || k == 13 || k == 14 || k
        == 15 || k == 16 || k == 17 || k == 18 || k == 19 || k == 20);
}

proof fn lemma_load_prefix(k: int)
    ensures
        0 <= k < 23 ==> "LD_8_FROM_FF_IMMEDIATE("@[k] != '5',
        1 <= k < 23 ==> "LD_8_FROM_FF_IMMEDIATE("@[k] != 'L',
{
    reveal_strlit("LD_8_FROM_FF_IMMEDIATE(");
    assert(k < 0 || k >= 23 || k == 0 || k == 1 || k == 2 || k == 3 || k == 4 || k == 5 || k == 6
        || k == 7 || k == 8 || k == 9 || k == 10 || k == 11 || k == 12 || k == 13 || k == 14 || k
        == 15 || k == 16 || k == 17 || k == 18 || k == 19 || k == 20 || k == 21 || k == 22);
}

proof fn lemma_no_long_number(text: Seq<char>, pat: Seq<char>, from: int)
    requires
        pat.len() == 5,
        pat[0] == '5',
        text.len() <= from + 4,
        forall|k: int| 0 <= k < text.len() && #[trigger] text[k] == '5' ==> k >= from,
    ensures
        !occurs(text, pat),
{
    if occurs(text, pat) {
        let k = choose|k: int| #[trigger] occurs_at(text, pat, k);
        assert(text.subrange(k, k + 5)[0] == text[k]);
    }
}

proof fn lemma_wrong_letter(text: Seq<char>, pat: Seq<char>, at: int)
    requires
        0 < at < pat.len(),
        at < text.len(),
        pat[0] == 'L',
        pat[at] != text[at],
        forall|k: int| 0 <= k < text.len() && #[trigger] text[k] == 'L' ==> k == 0,
    ensures
        !occurs(text, pat),
{
    if occurs(text, pat) {
        let k = choose|k: int| #[trigger] occurs_at(text, pat, k);
        assert(text.subrange(k, k + pat.len())[0] == text[k]);
        assert(text.subrange(k, k + pat.len())[at] == text[k + at]);
    }
}

} // verus!
