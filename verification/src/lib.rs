//! A tick-by-tick engine for bodies that pull on and bounce off one another.
//!
//! The engine owns an ordered list of bodies and, once per tick, lets every body meet every
//! other one in a fixed order. What a meeting does to the two bodies is the business of the
//! body type; the order of the meetings, and which state each meeting sees, is fixed and
//! proved here.
pub mod body;
pub mod laws;
pub mod order;
pub mod simulation;
