//! A verified trading-day calendar.
//!
//! Declarative holiday rules are expanded over a year range into sets of
//! full holidays, half-days and weekend weekdays; the resulting calendar
//! answers business-day queries and steps to neighbouring trading days.

pub mod calendar;
pub mod codec;
pub mod date;
pub mod easter;
pub mod market;
