//! A monthly calendar engine: month geometry (day count, starting
//! weekday, week-aligned display rows) and the classification of a
//! month's days as holidays, make-up workdays or ordinary days against
//! a year's holiday dataset, with the navigation state of the window
//! around them.

pub mod date;
pub mod geometry;
pub mod holiday;
pub mod state;
