//! Core model of a small transit network: stations on a plane, player-drawn
//! lines, an all-pairs shortest-path matrix kept consistent with the
//! connection graph, a drag-gesture line editor, and the train/passenger
//! simulation that routes passengers with those distances.

pub mod editor;
pub mod geometry;
pub mod metro;
pub mod random;
pub mod shortest;
