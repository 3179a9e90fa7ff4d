//! A small library for a 2D grid game prototype: a rectangular occupancy
//! field whose cells can be toggled between open and blocked, and a cursor
//! that computes the set of cells reachable from its position within a
//! bounded number of unit steps through open cells.

pub mod grid;
pub mod mouse;
