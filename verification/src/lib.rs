//! The rules by which a Game Boy test ROM is traced while it runs.
//!
//! The library holds no machine. Whoever runs one hands over what it did,
//! instruction by instruction, as plain values, and gets back what to report:
//!
//! - [`options`] reads the command line,
//! - [`roms`] says where the ROM of a test comes from,
//! - [`tracer`] follows a run, by the rules that [`trace`] states,
//! - [`events`] turns reports into lines of text,
//! - [`timing`] and [`text`] are what these need of time and of writing,
//! - [`laws`] proves what holds of every run, [`reports`] with what instructions
//!   each report comes, and [`reading`] and [`lines`] what a reader finds in words
//!   and on lines.

pub mod events;
pub mod laws;
pub mod lines;
pub mod options;
pub mod reading;
pub mod reports;
pub mod roms;
pub mod text;
pub mod timing;
pub mod trace;
pub mod tracer;
