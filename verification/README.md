# debug-blargg

Runs a Game Boy test ROM and reports what it does: every new program counter,
what comes out of the serial port, and on request accesses to the timer counter
and the timing of HALT.

    debug-blargg <test> [--tima-trace] [--max N] [--halt-trace]

`<test>` is one of `cpu_instrs`, `halt_bug`, `instr_timing`, `mem_timing`,
`mem_timing_2`, `interrupt_time`, `dmg_sound`, `oam_bug`, `cgb_sound`, or the path
of a ROM file. The run ends after `N` instructions (10,000,000 without `--max`).

- `src/` decides what is reported and how it reads. It is verified with Verus and
  holds no machine: see `src/lib.rs` for its modules.
- `app/` is the program: it runs the emulator, hands what it did to the library
  and prints what the library says.
- `tests/` runs the library on concrete values.
