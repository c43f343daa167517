//! Rectangle bin packing: rectangles are placed, possibly rotated by 90 degrees,
//! into square boxes of a fixed side so that no two overlap; greedy and local
//! search strategies try to use as few boxes as possible.

pub mod rectangle;
pub mod bin;
pub mod instance;
pub mod evaluator;
pub mod greedy;
pub mod skyline;
pub mod rect_order;
pub mod framework;
pub mod generic_greedy;
pub mod generic_local_search;
pub mod packing_problem;
pub mod algorithm;
pub mod random;
pub mod local_search;
pub mod local_search_geometry;
pub mod local_search_overlap;
pub mod generator;
pub mod gui;
