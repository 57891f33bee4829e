//! Layout of a directed graph whose nodes sit in columns: stacked rectangles,
//! edges between neighbouring columns, and elbow paths fanned out per lane.

pub mod edges;
pub mod geometry;
pub mod layout;
pub mod render;
pub mod route;
pub mod spacing;
pub mod stack;
