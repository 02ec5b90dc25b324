//! What holds of every run.

use crate::events::EventView;
use crate::options::Config;
use crate::timing::FRAME_CYCLES;
use crate::trace::{
    is_halt, is_tima_read, is_tima_write, run, shown, transcript, zeros, Observation, TickView,
    TraceState, AFTER_SECOND_HALT, SHOWN_READS,
};
use vstd::prelude::*;

verus! {

/// The address that a report gives as new.
pub open spec fn new_pc(e: EventView) -> Option<u16> {
    match e {
        EventView::NewPc { pc, .. } => Some(pc),
        _ => None,
    }
}

/// The number that a report gives a HALT instruction.
pub open spec fn halt_number(e: EventView) -> Option<nat> {
    match e {
        EventView::Halt { number, .. } => Some(number),
        _ => None,
    }
}

/// The number of the instruction that a report gives as a write to TIMA.
pub open spec fn tima_write_count(e: EventView) -> Option<nat> {
    match e {
        EventView::TimaWrite { count, .. } => Some(count),
        _ => None,
    }
}

/// The value that a report gives as read from TIMA after a write.
pub open spec fn tima_read_value(e: EventView) -> Option<u8> {
    match e {
        EventView::TimaRead { value, .. } => Some(value),
        _ => None,
    }
}

/// The serial output that a report gives.
pub open spec fn serial_piece(e: EventView) -> Option<Seq<u8>> {
    match e {
        EventView::Serial { bytes, .. } => Some(bytes),
        _ => None,
    }
}

/// The addresses that are reported as new, in order.
pub open spec fn new_pcs(events: Seq<EventView>) -> Seq<u16> {
    events.filter_map(|e: EventView| new_pc(e))
}

/// The numbers of the HALT instructions that are reported, in order.
pub open spec fn halt_numbers(events: Seq<EventView>) -> Seq<nat> {
    events.filter_map(|e: EventView| halt_number(e))
}

/// Which instructions are reported as writes to TIMA, in order.
pub open spec fn tima_write_counts(events: Seq<EventView>) -> Seq<nat> {
    events.filter_map(|e: EventView| tima_write_count(e))
}

/// The values that are reported as read from TIMA after a write, in order.
pub open spec fn tima_read_values(events: Seq<EventView>) -> Seq<u8> {
    events.filter_map(|e: EventView| tima_read_value(e))
}

/// The pieces of serial output that are reported, in order.
pub open spec fn serial_pieces(events: Seq<EventView>) -> Seq<Seq<u8>> {
    events.filter_map(|e: EventView| serial_piece(e))
}

/// Is this a report that only a trace of HALT makes?
pub open spec fn is_halt_report(e: EventView) -> bool {
    e is Halt || e is HaltExit || e is Frame || e is DelayCall || e is Elapsed || e is FlagsRead
        || e is ElapsedFrames
}

/// Is this a report that only a trace of TIMA makes?
pub open spec fn is_tima_report(e: EventView) -> bool {
    e is TimaWrite || e is TimaRead || e is TimaWrites || e is TimaReads || e is TimaZeros
}

// Picking reports out of a list.

proof fn lemma_pick_add<A, B>(a: Seq<A>, b: Seq<A>, f: spec_fn(A) -> Option<B>)
    ensures
        (a + b).filter_map(f) == a.filter_map(f) + b.filter_map(f),
    decreases b.len(),
{
    if b.len() == 0 {
        assert(a + b =~= a);
        assert(a.filter_map(f) + b.filter_map(f) =~= a.filter_map(f));
    } else {
        assert((a + b).drop_last() =~= a + b.drop_last());
        lemma_pick_add(a, b.drop_last(), f);
        assert((a + b).filter_map(f) =~= a.filter_map(f) + b.filter_map(f));
    }
}

proof fn lemma_pick_none<A, B>(a: Seq<A>, f: spec_fn(A) -> Option<B>)
    requires
        forall|i: int| 0 <= i < a.len() ==> f(#[trigger] a[i]) is None,
    ensures
        a.filter_map(f) == Seq::<B>::empty(),
    decreases a.len(),
{
    if a.len() > 0 {
        lemma_pick_none(a.drop_last(), f);
    }
}

proof fn lemma_pick_one<A, B>(a: Seq<A>, f: spec_fn(A) -> Option<B>)
    requires
        a.len() == 1,
    ensures
        a.filter_map(f) == (match f(a[0]) {
            Some(b) => seq![b],
            None => Seq::<B>::empty(),
        }),
{
    assert(a.drop_last().filter_map(f) =~= Seq::<B>::empty());
    match f(a[0]) {
        Some(b) => {
            assert(a.filter_map(f) =~= seq![b]);
        },
        None => {},
    }
}

/// What each part of a step may report.
proof fn lemma_step_kinds(s: TraceState, o: Observation)
    ensures
        forall|i: int|
            0 <= i < s.halt_events(o.tick).len() ==> is_halt_report(
                #[trigger] s.halt_events(o.tick)[i],
            ),
        forall|i: int|
            0 <= i < s.step(o).final_events(o.readings).len() ==> {
                let e = #[trigger] s.step(o).final_events(o.readings)[i];
                e is Stopped || e is TimaWrites || e is TimaReads || e is TimaZeros
            },
{
}

proof fn lemma_pick_step<B>(s: TraceState, o: Observation, f: spec_fn(EventView) -> Option<B>)
    ensures
        s.step_events(o).filter_map(f) == s.halt_events(o.tick).filter_map(f) + s.tima_events(
            o.tick,
            o.readings,
        ).filter_map(f) + s.pc_events(o.tick, o.readings).filter_map(f) + s.serial_events(
            o.readings,
        ).filter_map(f) + s.step(o).final_events(o.readings).filter_map(f),
{
    let h = s.halt_events(o.tick);
    let t = s.tima_events(o.tick, o.readings);
    let p = s.pc_events(o.tick, o.readings);
    let e = s.serial_events(o.readings);
    let d = s.step(o).final_events(o.readings);
    assert(s.step_events(o) =~= h + t + p + e + d);
    lemma_pick_add(h + t + p + e, d, f);
    lemma_pick_add(h + t + p, e, f);
    lemma_pick_add(h + t, p, f);
    lemma_pick_add(h, t, f);
}

// How long a run is.

/// A run remembers one instruction more with each instruction, and never
/// changes what it was asked to trace.
pub proof fn lemma_run_counts(config: Config, obs: Seq<Observation>)
    ensures
        run(config, obs).count == obs.len(),
        run(config, obs).config == config,
    decreases obs.len(),
{
    if obs.len() > 0 {
        lemma_run_counts(config, obs.drop_last());
    }
}

/// A run is over after as many instructions as it was asked for, or after one
/// if it was asked for none, and may go on until then.
pub proof fn lemma_run_ends(config: Config, obs: Seq<Observation>)
    ensures
        run(config, obs).running() <==> (obs.len() == 0 || obs.len() < config.max_instructions),
        obs.len() > 0 ==> (run(config, obs).finished() <==> obs.len() >= config.max_instructions),
{
    lemma_run_counts(config, obs);
    lemma_bounded_counts(config, obs);
}

proof fn lemma_bounded_counts(config: Config, obs: Seq<Observation>)
    ensures
        run(config, obs).halts <= obs.len(),
        run(config, obs).writes <= obs.len(),
        run(config, obs).reads.len() <= obs.len(),
    decreases obs.len(),
{
    if obs.len() > 0 {
        lemma_bounded_counts(config, obs.drop_last());
    }
}

/// That the run is over is reported with the instruction that ends it and with
/// no other.
pub proof fn lemma_end_is_reported(config: Config, obs: Seq<Observation>, o: Observation)
    ensures
        (exists|i: int|
            0 <= i < run(config, obs).step_events(o).len() && #[trigger] run(
                config,
                obs,
            ).step_events(o)[i] is Stopped) <==> obs.len() + 1 >= config.max_instructions,
{
    let s = run(config, obs);
    lemma_run_counts(config, obs);
    let h = s.halt_events(o.tick);
    let t = s.tima_events(o.tick, o.readings);
    let p = s.pc_events(o.tick, o.readings);
    let r = s.serial_events(o.readings);
    let d = s.step(o).final_events(o.readings);
    let all = s.step_events(o);
    assert(all =~= h + t + p + r + d);
    let a = h.len() as int;
    let b = a + t.len();
    let c = b + p.len();
    let n = c + r.len();
    if obs.len() + 1 >= config.max_instructions {
        assert(d[0] is Stopped);
        assert(all[n] == d[0]);
    }
    if exists|i: int| 0 <= i < all.len() && #[trigger] all[i] is Stopped {
        let i = choose|i: int| 0 <= i < all.len() && #[trigger] all[i] is Stopped;
        lemma_step_kinds(s, o);
        if i < a {
            assert(all[i] == h[i]);
        } else if i < b {
            assert(all[i] == t[i - a]);
        } else if i < c {
            assert(all[i] == p[i - b]);
        } else if i < n {
            assert(all[i] == r[i - c]);
        } else {
            assert(d.len() > 0);
        }
    }
}

// The program counter.

/// Exactly the addresses that were executed are remembered.
pub proof fn lemma_seen(config: Config, obs: Seq<Observation>, pc: u16)
    ensures
        run(config, obs).seen.contains(pc) <==> (exists|i: int|
            0 <= i < obs.len() && (#[trigger] obs[i]).tick.pc == pc),
    decreases obs.len(),
{
    if obs.len() > 0 {
        let before = obs.drop_last();
        lemma_seen(config, before, pc);
        if obs.last().tick.pc == pc {
            assert(obs[obs.len() - 1].tick.pc == pc);
        }
        if run(config, before).seen.contains(pc) {
            let i = choose|i: int| 0 <= i < before.len() && (#[trigger] before[i]).tick.pc == pc;
            assert(obs[i].tick.pc == pc);
        }
        if exists|i: int| 0 <= i < obs.len() && (#[trigger] obs[i]).tick.pc == pc {
            let i = choose|i: int| 0 <= i < obs.len() && (#[trigger] obs[i]).tick.pc == pc;
            if i < before.len() {
                assert(before[i].tick.pc == pc);
            }
        }
    }
}

proof fn lemma_new_pcs_of_step(s: TraceState, o: Observation)
    ensures
        new_pcs(s.step_events(o)) == (if !s.config.tima_trace && !s.seen.contains(o.tick.pc) {
            seq![o.tick.pc]
        } else {
            Seq::<u16>::empty()
        }),
{
    let f = |e: EventView| new_pc(e);
    lemma_step_kinds(s, o);
    lemma_pick_step(s, o, f);
    lemma_pick_none(s.halt_events(o.tick), f);
    lemma_pick_none(s.tima_events(o.tick, o.readings), f);
    lemma_pick_none(s.serial_events(o.readings), f);
    lemma_pick_none(s.step(o).final_events(o.readings), f);
    let p = s.pc_events(o.tick, o.readings);
    if p.len() == 1 {
        lemma_pick_one(p, f);
    } else {
        lemma_pick_none(p, f);
    }
    assert(s.step_events(o).filter_map(f) =~= p.filter_map(f));
}

/// Unless TIMA is traced, each address that is executed is reported exactly
/// once; if TIMA is traced, none is.
pub proof fn lemma_each_pc_once(config: Config, obs: Seq<Observation>)
    ensures
        new_pcs(transcript(config, obs)).no_duplicates(),
        !config.tima_trace ==> (forall|pc: u16|
            new_pcs(transcript(config, obs)).contains(pc) <==> #[trigger] run(
                config,
                obs,
            ).seen.contains(pc)),
        config.tima_trace ==> new_pcs(transcript(config, obs)) == Seq::<u16>::empty(),
    decreases obs.len(),
{
    if obs.len() == 0 {
        assert(new_pcs(transcript(config, obs)) =~= Seq::<u16>::empty());
    } else {
        let before = obs.drop_last();
        let s = run(config, before);
        let o = obs.last();
        lemma_run_counts(config, before);
        lemma_each_pc_once(config, before);
        lemma_new_pcs_of_step(s, o);
        lemma_pick_add(transcript(config, before), s.step_events(o), |e: EventView| new_pc(e));
        let known = new_pcs(transcript(config, before));
        let all = new_pcs(transcript(config, obs));
        assert(all == known + new_pcs(s.step_events(o)));
        if !config.tima_trace {
            assert forall|pc: u16| all.contains(pc) <==> #[trigger] run(config, obs).seen.contains(
                pc,
            ) by {
                assert(known.contains(pc) <==> s.seen.contains(pc));
                if known.contains(pc) {
                    let i = choose|i: int| 0 <= i < known.len() && known[i] == pc;
                    assert(all[i] == pc);
                }
                if pc == o.tick.pc && !s.seen.contains(pc) {
                    assert(all[known.len() as int] == pc);
                }
            }
            assert(s.seen.contains(o.tick.pc) <==> known.contains(o.tick.pc));
        } else {
            assert(all =~= Seq::<u16>::empty());
        }
    }
}

/// Where the instruction at a position is the first at its address.
pub open spec fn is_first_at_its_pc(obs: Seq<Observation>, i: int) -> bool {
    0 <= i < obs.len() && (forall|j: int|
        0 <= j < i ==> (#[trigger] obs[j]).tick.pc != obs[i].tick.pc)
}

/// The report that the instruction at a position is at a new address.
pub open spec fn new_pc_report(obs: Seq<Observation>, i: int) -> EventView {
    EventView::NewPc {
        count: i as nat,
        pc: obs[i].tick.pc,
        instruction: obs[i].tick.instruction,
        sp: obs[i].readings.sp,
    }
}

proof fn lemma_new_pc_in_step(s: TraceState, o: Observation, e: EventView)
    requires
        e is NewPc,
    ensures
        s.step_events(o).contains(e) <==> s.pc_events(o.tick, o.readings).contains(e),
{
    lemma_step_kinds(s, o);
    let h = s.halt_events(o.tick);
    let t = s.tima_events(o.tick, o.readings);
    let p = s.pc_events(o.tick, o.readings);
    let r = s.serial_events(o.readings);
    let d = s.step(o).final_events(o.readings);
    let all = s.step_events(o);
    assert(all =~= h + t + p + r + d);
    let a = h.len() as int;
    let b = a + t.len();
    let c = b + p.len();
    if all.contains(e) {
        let i = choose|i: int| 0 <= i < all.len() && all[i] == e;
        if i < a {
            assert(e == h[i]);
        } else if i < b {
            assert(e == t[i - a]);
        } else if i < c {
            assert(e == p[i - b]);
        } else if i < c + r.len() {
            assert(e == r[i - c]);
        } else {
            assert(e == d[i - c - r.len()]);
        }
    }
    if p.contains(e) {
        let i = choose|i: int| 0 <= i < p.len() && p[i] == e;
        assert(all[b + i] == e);
    }
}

proof fn lemma_contains_add<A>(a: Seq<A>, b: Seq<A>, x: A)
    ensures
        (a + b).contains(x) <==> a.contains(x) || b.contains(x),
{
    if a.contains(x) {
        let i = choose|i: int| 0 <= i < a.len() && a[i] == x;
        assert((a + b)[i] == x);
    }
    if b.contains(x) {
        let i = choose|i: int| 0 <= i < b.len() && b[i] == x;
        assert((a + b)[a.len() + i] == x);
    }
}

/// Does `e` report the first instruction at some address?
pub open spec fn reports_a_first(obs: Seq<Observation>, e: EventView) -> bool {
    exists|i: int| #[trigger] is_first_at_its_pc(obs, i) && e == new_pc_report(obs, i)
}

proof fn lemma_one_more_first(obs: Seq<Observation>, e: EventView)
    requires
        obs.len() > 0,
    ensures
        reports_a_first(obs, e) <==> reports_a_first(obs.drop_last(), e) || (is_first_at_its_pc(
            obs,
            obs.len() - 1,
        ) && e == new_pc_report(obs, obs.len() - 1)),
{
    let before = obs.drop_last();
    assert forall|i: int| 0 <= i < before.len() implies #[trigger] is_first_at_its_pc(obs, i)
        == is_first_at_its_pc(before, i) && new_pc_report(obs, i) == new_pc_report(before, i) by {
        assert(forall|j: int| 0 <= j < before.len() ==> #[trigger] obs[j] == before[j]);
    }
    if reports_a_first(before, e) {
        let i = choose|i: int|
            #[trigger] is_first_at_its_pc(before, i) && e == new_pc_report(before, i);
        assert(is_first_at_its_pc(obs, i));
    }
    if reports_a_first(obs, e) {
        let i = choose|i: int| #[trigger] is_first_at_its_pc(obs, i) && e == new_pc_report(obs, i);
        if i < before.len() {
            assert(is_first_at_its_pc(before, i));
        }
    }
}

/// What is reported of a new address is the instruction that was executed there
/// first, with the stack pointer after it.
pub proof fn lemma_new_pc_is_first(config: Config, obs: Seq<Observation>, e: EventView)
    requires
        e is NewPc,
    ensures
        transcript(config, obs).contains(e) <==> !config.tima_trace && reports_a_first(obs, e),
    decreases obs.len(),
{
    if obs.len() > 0 {
        let before = obs.drop_last();
        let s = run(config, before);
        let o = obs.last();
        let n = before.len() as int;
        lemma_run_counts(config, before);
        lemma_new_pc_is_first(config, before, e);
        lemma_one_more_first(obs, e);
        lemma_new_pc_in_step(s, o, e);
        lemma_contains_add(transcript(config, before), s.step_events(o), e);
        lemma_seen(config, before, o.tick.pc);
        assert(is_first_at_its_pc(obs, n) <==> !s.seen.contains(o.tick.pc)) by {
            assert(forall|j: int| 0 <= j < n ==> #[trigger] obs[j] == before[j]);
        }
        let p = s.pc_events(o.tick, o.readings);
        assert(p.len() == 1 ==> p[0] == new_pc_report(obs, n));
        assert(p.contains(e) <==> p.len() == 1 && e == new_pc_report(obs, n)) by {
            if p.len() == 1 && e == new_pc_report(obs, n) {
                assert(p[0] == e);
            }
        }
    }
}

// The serial port.

/// All pieces in one.
pub open spec fn joined(pieces: Seq<Seq<u8>>) -> Seq<u8>
    decreases pieces.len(),
{
    if pieces.len() == 0 {
        Seq::empty()
    } else {
        joined(pieces.drop_last()) + pieces.last()
    }
}

/// What came out of the serial port stays: later output starts with it.
pub open spec fn serial_grows(obs: Seq<Observation>) -> bool {
    forall|i: int, j: int|
        0 <= i <= j < obs.len() ==> (#[trigger] obs[i]).readings.serial.is_prefix_of(
            (#[trigger] obs[j]).readings.serial,
        )
}

proof fn lemma_serial_of_step(s: TraceState, o: Observation)
    ensures
        serial_pieces(s.step_events(o)) == (if o.readings.serial.len() > s.serial_len {
            seq![o.readings.serial.skip(s.serial_len as int)]
        } else {
            Seq::<Seq<u8>>::empty()
        }),
{
    let f = |e: EventView| serial_piece(e);
    lemma_step_kinds(s, o);
    lemma_pick_step(s, o, f);
    lemma_pick_none(s.halt_events(o.tick), f);
    lemma_pick_none(s.tima_events(o.tick, o.readings), f);
    lemma_pick_none(s.pc_events(o.tick, o.readings), f);
    lemma_pick_none(s.step(o).final_events(o.readings), f);
    let r = s.serial_events(o.readings);
    if r.len() == 1 {
        lemma_pick_one(r, f);
    } else {
        lemma_pick_none(r, f);
    }
    assert(s.step_events(o).filter_map(f) =~= r.filter_map(f));
}

/// The pieces of serial output that are reported make up all of the output,
/// with nothing left out and nothing told twice.
pub proof fn lemma_serial_is_complete(config: Config, obs: Seq<Observation>)
    requires
        serial_grows(obs),
    ensures
        joined(serial_pieces(transcript(config, obs))) == (if obs.len() == 0 {
            Seq::<u8>::empty()
        } else {
            obs.last().readings.serial
        }),
        run(config, obs).serial_len == joined(serial_pieces(transcript(config, obs))).len(),
    decreases obs.len(),
{
    if obs.len() == 0 {
        assert(serial_pieces(transcript(config, obs)) =~= Seq::<Seq<u8>>::empty());
    } else {
        let before = obs.drop_last();
        let s = run(config, before);
        let o = obs.last();
        assert forall|i: int, j: int| 0 <= i <= j < before.len() implies (
        #[trigger] before[i]).readings.serial.is_prefix_of((#[trigger] before[j]).readings.serial) by {
            assert(obs[i].readings.serial.is_prefix_of(obs[j].readings.serial));
        }
        lemma_serial_is_complete(config, before);
        lemma_serial_of_step(s, o);
        lemma_pick_add(
            transcript(config, before),
            s.step_events(o),
            |e: EventView| serial_piece(e),
        );
        let told = serial_pieces(transcript(config, before));
        let more = serial_pieces(s.step_events(o));
        let all = serial_pieces(transcript(config, obs));
        assert(all == told + more);
        if before.len() > 0 {
            assert(obs[before.len() - 1].readings.serial.is_prefix_of(
                obs[before.len() as int].readings.serial,
            ));
        }
        assert(joined(told).is_prefix_of(o.readings.serial));
        if more.len() == 1 {
            assert(all.drop_last() =~= told);
            assert(joined(all) =~= o.readings.serial);
        } else {
            assert(all =~= told);
            assert(joined(all) =~= o.readings.serial);
        }
    }
}

// The timer counter.

/// Is the instruction at a position a write to TIMA?
pub open spec fn writes_at(obs: Seq<Observation>, i: int) -> bool {
    0 <= i < obs.len() && is_tima_write(obs[i].tick.instruction)
}

/// Is the instruction at a position a read of TIMA, and the one before it a
/// write?
pub open spec fn reads_after_write_at(obs: Seq<Observation>, i: int) -> bool {
    writes_at(obs, i - 1) && i < obs.len() && !writes_at(obs, i) && is_tima_read(
        obs[i].tick.instruction,
    )
}

/// The positions of the writes to TIMA.
pub open spec fn write_positions(obs: Seq<Observation>) -> Seq<nat>
    decreases obs.len(),
{
    if obs.len() == 0 {
        Seq::empty()
    } else if writes_at(obs, obs.len() - 1) {
        write_positions(obs.drop_last()).push((obs.len() - 1) as nat)
    } else {
        write_positions(obs.drop_last())
    }
}

/// The values of TIMA after each read that directly follows a write.
pub open spec fn values_after_write(obs: Seq<Observation>) -> Seq<u8>
    decreases obs.len(),
{
    if obs.len() == 0 {
        Seq::empty()
    } else if reads_after_write_at(obs, obs.len() - 1) {
        values_after_write(obs.drop_last()).push(obs.last().readings.tima_after)
    } else {
        values_after_write(obs.drop_last())
    }
}

proof fn lemma_tima_of_step(s: TraceState, o: Observation)
    ensures
        tima_write_counts(s.step_events(o)) == (if s.writes_tima(o.tick) {
            seq![s.count]
        } else {
            Seq::<nat>::empty()
        }),
        tima_read_values(s.step_events(o)) == (if s.reads_tima(o.tick) {
            seq![o.readings.tima_after]
        } else {
            Seq::<u8>::empty()
        }),
{
    lemma_step_kinds(s, o);
    let t = s.tima_events(o.tick, o.readings);
    let f = |e: EventView| tima_write_count(e);
    lemma_pick_step(s, o, f);
    lemma_pick_none(s.halt_events(o.tick), f);
    lemma_pick_none(s.pc_events(o.tick, o.readings), f);
    lemma_pick_none(s.serial_events(o.readings), f);
    lemma_pick_none(s.step(o).final_events(o.readings), f);
    assert(s.step_events(o).filter_map(f) =~= t.filter_map(f));
    let g = |e: EventView| tima_read_value(e);
    lemma_pick_step(s, o, g);
    lemma_pick_none(s.halt_events(o.tick), g);
    lemma_pick_none(s.pc_events(o.tick, o.readings), g);
    lemma_pick_none(s.serial_events(o.readings), g);
    lemma_pick_none(s.step(o).final_events(o.readings), g);
    assert(s.step_events(o).filter_map(g) =~= t.filter_map(g));
    if t.len() == 1 {
        lemma_pick_one(t, f);
        lemma_pick_one(t, g);
    } else {
        lemma_pick_none(t, f);
        lemma_pick_none(t, g);
    }
}

/// If TIMA is traced, every write is reported and counted, and of the reads
/// those that directly follow a write. What the summary counts is what was
/// reported. If TIMA is not traced, neither is.
pub proof fn lemma_tima_is_traced(config: Config, obs: Seq<Observation>)
    ensures
        tima_write_counts(transcript(config, obs)) == (if config.tima_trace {
            write_positions(obs)
        } else {
            Seq::<nat>::empty()
        }),
        tima_read_values(transcript(config, obs)) == (if config.tima_trace {
            values_after_write(obs)
        } else {
            Seq::<u8>::empty()
        }),
        run(config, obs).writes == tima_write_counts(transcript(config, obs)).len(),
        run(config, obs).reads == tima_read_values(transcript(config, obs)),
        run(config, obs).last_was_write == (config.tima_trace && writes_at(obs, obs.len() - 1)),
    decreases obs.len(),
{
    if obs.len() == 0 {
        assert(tima_write_counts(transcript(config, obs)) =~= Seq::<nat>::empty());
        assert(tima_read_values(transcript(config, obs)) =~= Seq::<u8>::empty());
    } else {
        let before = obs.drop_last();
        let s = run(config, before);
        let o = obs.last();
        lemma_run_counts(config, before);
        lemma_tima_is_traced(config, before);
        lemma_tima_of_step(s, o);
        lemma_pick_add(
            transcript(config, before),
            s.step_events(o),
            |e: EventView| tima_write_count(e),
        );
        lemma_pick_add(
            transcript(config, before),
            s.step_events(o),
            |e: EventView| tima_read_value(e),
        );
        assert(writes_at(before, before.len() - 1) == writes_at(obs, obs.len() - 2));
        assert(tima_write_counts(transcript(config, obs)) =~= (if config.tima_trace {
            write_positions(obs)
        } else {
            Seq::<nat>::empty()
        }));
        assert(tima_read_values(transcript(config, obs)) =~= (if config.tima_trace {
            values_after_write(obs)
        } else {
            Seq::<u8>::empty()
        }));
        assert(run(config, obs).reads =~= tima_read_values(transcript(config, obs)));
    }
}

/// The summary counts no more zeros than values, and shows the first values, up
/// to twenty.
pub proof fn lemma_summary(values: Seq<u8>)
    ensures
        zeros(values) <= values.len(),
        shown(values).is_prefix_of(values),
        shown(values).len() == (if values.len() < SHOWN_READS {
            values.len()
        } else {
            SHOWN_READS as nat
        }),
{
    values.lemma_filter_len(|v: u8| v == 0);
}

// HALT.

/// How many HALT instructions there are.
pub open spec fn halts_in(obs: Seq<Observation>) -> nat
    decreases obs.len(),
{
    if obs.len() == 0 {
        0
    } else if is_halt(obs.last().tick.instruction) {
        halts_in(obs.drop_last()) + 1
    } else {
        halts_in(obs.drop_last())
    }
}

/// When the program last went on after its second HALT.
pub open spec fn last_halt_exit(obs: Seq<Observation>) -> Option<u64>
    decreases obs.len(),
{
    if obs.len() == 0 {
        None
    } else if obs.last().tick.pc == AFTER_SECOND_HALT {
        Some(obs.last().tick.start)
    } else {
        last_halt_exit(obs.drop_last())
    }
}

proof fn lemma_halts_of_step(s: TraceState, o: Observation)
    ensures
        halt_numbers(s.step_events(o)) == (if s.config.halt_trace && is_halt(o.tick.instruction) {
            seq![s.halts + 1]
        } else {
            Seq::<nat>::empty()
        }),
{
    let f = |e: EventView| halt_number(e);
    lemma_step_kinds(s, o);
    lemma_pick_step(s, o, f);
    lemma_pick_none(s.tima_events(o.tick, o.readings), f);
    lemma_pick_none(s.pc_events(o.tick, o.readings), f);
    lemma_pick_none(s.serial_events(o.readings), f);
    lemma_pick_none(s.step(o).final_events(o.readings), f);
    let h = s.halt_events(o.tick);
    if s.config.halt_trace && is_halt(o.tick.instruction) {
        lemma_pick_add(h.take(1), h.skip(1), f);
        assert(h.take(1) + h.skip(1) =~= h);
        lemma_pick_one(h.take(1), f);
        lemma_pick_none(h.skip(1), f);
    } else {
        lemma_pick_none(h, f);
    }
    assert(s.step_events(o).filter_map(f) =~= h.filter_map(f));
}

/// If HALT is traced, the HALT instructions are reported as one, two, three and
/// so on, and the time of the last exit from the second HALT is remembered.
pub proof fn lemma_halts_are_numbered(config: Config, obs: Seq<Observation>)
    ensures
        run(config, obs).halts == (if config.halt_trace {
            halts_in(obs)
        } else {
            0
        }),
        halt_numbers(transcript(config, obs)) == Seq::new(
            run(config, obs).halts,
            |i: int| (i + 1) as nat,
        ),
        run(config, obs).halt_exit == (if config.halt_trace {
            last_halt_exit(obs)
        } else {
            None
        }),
    decreases obs.len(),
{
    if obs.len() == 0 {
        assert(halt_numbers(transcript(config, obs)) =~= Seq::new(0, |i: int| (i + 1) as nat));
    } else {
        let before = obs.drop_last();
        let s = run(config, before);
        let o = obs.last();
        lemma_run_counts(config, before);
        lemma_halts_are_numbered(config, before);
        lemma_halts_of_step(s, o);
        lemma_pick_add(transcript(config, before), s.step_events(o), |e: EventView| halt_number(e));
        assert(halt_numbers(transcript(config, obs)) =~= Seq::new(
            run(config, obs).halts,
            |i: int| (i + 1) as nat,
        ));
    }
}

/// The machine's clock does not run backwards.
pub open spec fn clock_advances(obs: Seq<Observation>) -> bool {
    forall|i: int, j: int|
        0 <= i <= j < obs.len() ==> (#[trigger] obs[i]).tick.start <= (
        #[trigger] obs[j]).tick.start
}

/// While the clock does not run backwards, every instruction is accepted.
pub proof fn lemma_advancing_clock_is_accepted(config: Config, obs: Seq<Observation>)
    requires
        clock_advances(obs),
        obs.len() > 0,
    ensures
        run(config, obs.drop_last()).accepts(obs.last().tick),
{
    lemma_halts_are_numbered(config, obs.drop_last());
    lemma_last_exit_is_past(obs, obs.len() - 1);
    assert(obs.take(obs.len() - 1) =~= obs.drop_last());
}

proof fn lemma_last_exit_is_past(obs: Seq<Observation>, n: int)
    requires
        clock_advances(obs),
        0 <= n < obs.len(),
    ensures
        last_halt_exit(obs.take(n)) matches Some(t) ==> t <= obs.last().tick.start,
    decreases n,
{
    if n > 0 {
        lemma_last_exit_is_past(obs, n - 1);
        assert(obs.take(n).drop_last() =~= obs.take(n - 1));
        assert(obs[n - 1].tick.start <= obs[obs.len() - 1].tick.start);
    }
}

/// The frames and cycles that are reported as elapsed are the time since the
/// second HALT was over, with less than a frame left over.
pub proof fn lemma_elapsed_frames(s: TraceState, tick: TickView, i: int)
    requires
        0 <= i < s.halt_events(tick).len(),
        s.accepts(tick),
    ensures
        s.halt_events(tick)[i] matches EventView::ElapsedFrames { frames, cycles } ==> {
            &&& s.halt_exit matches Some(t)
            &&& t + frames * FRAME_CYCLES + cycles == tick.start
            &&& cycles < FRAME_CYCLES
        },
        s.halt_events(tick)[i] matches EventView::Elapsed { cycles } ==> {
            &&& s.halt_exit matches Some(t)
            &&& t + cycles == tick.start
        },
{
}

// What is traced only on request.

/// Is the report one that a run with this configuration may make?
pub open spec fn was_asked(config: Config, e: EventView) -> bool {
    &&& is_halt_report(e) ==> config.halt_trace
    &&& is_tima_report(e) ==> config.tima_trace
    &&& e is NewPc ==> !config.tima_trace
    &&& !(e is Panicked)
}

proof fn lemma_step_was_asked(s: TraceState, o: Observation, i: int)
    requires
        0 <= i < s.step_events(o).len(),
    ensures
        was_asked(s.config, s.step_events(o)[i]),
{
    lemma_step_kinds(s, o);
    let h = s.halt_events(o.tick);
    let t = s.tima_events(o.tick, o.readings);
    let p = s.pc_events(o.tick, o.readings);
    let r = s.serial_events(o.readings);
    let d = s.step(o).final_events(o.readings);
    assert(s.step_events(o) =~= h + t + p + r + d);
    let a = h.len() as int;
    let b = a + t.len();
    let c = b + p.len();
    if i < a {
        assert(s.step_events(o)[i] == h[i]);
    } else if i < b {
        assert(s.step_events(o)[i] == t[i - a]);
    } else if i < c {
        assert(s.step_events(o)[i] == p[i - b]);
    } else if i < c + r.len() {
        assert(s.step_events(o)[i] == r[i - c]);
    } else {
        assert(s.step_events(o)[i] == d[i - c - r.len()]);
        assert(d.len() > 1 ==> s.config.tima_trace);
    }
}

/// Without a trace of HALT there are no reports on it, and without a trace of
/// TIMA none on TIMA; with one of TIMA, there are none on new addresses.
pub proof fn lemma_only_what_was_asked(config: Config, obs: Seq<Observation>, i: int)
    requires
        0 <= i < transcript(config, obs).len(),
    ensures
        was_asked(config, transcript(config, obs)[i]),
    decreases obs.len(),
{
    if obs.len() > 0 {
        let before = obs.drop_last();
        let s = run(config, before);
        let told = transcript(config, before);
        lemma_run_counts(config, before);
        if i < told.len() {
            lemma_only_what_was_asked(config, before, i);
        } else {
            lemma_step_was_asked(s, obs.last(), i - told.len());
        }
    }
}

/// Readings that were not asked for change neither what is reported nor what is
/// remembered.
pub proof fn lemma_unasked_readings_do_not_matter(s: TraceState, a: Observation, b: Observation)
    requires
        a.tick.pc == b.tick.pc,
        a.tick.start == b.tick.start,
        s.wants_instruction(a.tick.pc) ==> a.tick.instruction == b.tick.instruction,
        s.wants_interrupt_flags(a.tick.pc) ==> a.tick.interrupt_flags == b.tick.interrupt_flags,
        s.wants_raw_div(a.tick.instruction) ==> a.readings.raw_div == b.readings.raw_div,
        a.readings.tima_before == b.readings.tima_before,
        a.readings.tima_after == b.readings.tima_after,
        a.readings.tac == b.readings.tac,
        a.readings.sp == b.readings.sp,
        a.readings.next_pc == b.readings.next_pc,
        a.readings.serial == b.readings.serial,
    ensures
        s.step(a) == s.step(b),
        s.step_events(a) == s.step_events(b),
{
    assert(s.halt_events(a.tick) =~= s.halt_events(b.tick));
    assert(s.tima_events(a.tick, a.readings) =~= s.tima_events(b.tick, b.readings));
    assert(s.pc_events(a.tick, a.readings) =~= s.pc_events(b.tick, b.readings));
    assert(s.serial_events(a.readings) =~= s.serial_events(b.readings));
    assert(s.step(a) =~= s.step(b));
    assert(s.step_events(a) =~= s.step_events(b));
}

} // verus!
