//! Standings engine for programming contests with a frozen scoreboard.
//!
//! The engine folds a time-ordered feed of judged runs into per-team
//! scores, withholds the verdicts that arrive after the freeze, and then
//! discloses them one at a time, always for the worst-ranked team that
//! still has something hidden.

pub mod data;
