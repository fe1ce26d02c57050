//! Control core of a time-proportioning heater controller.
//!
//! A resistive load is switched by a slow relay; the delivered current is
//! sampled through an analog front end. This crate holds the decisions of that
//! controller on plain integers: the shared control state, the batch RMS
//! estimate, the on/off plan of one control period, and the handling of
//! setpoint requests. Hardware access, timing and transport are left to the
//! caller.
//!
//! All quantities are integers. Fractions of full power are held in
//! millionths, currents in microamperes, durations in milliseconds. Where a
//! value has to be rounded, the contract of the function that rounds says
//! which way.
//!
//! The control state is an ordinary value: a reader borrows it, a writer
//! borrows it exclusively, and every operation on it is a few copies that
//! cannot fail. A program with several tasks keeps it behind one lock and
//! holds the lock for a single operation at a time; a snapshot then shows
//! both fields as they stood together.

pub mod actuator;
pub mod config;
pub mod decimal;
pub mod interface;
pub mod sampling;
pub mod state;
