//! A falling-sand cellular automaton: a grid of typed particles that fall,
//! slide, displace lighter particles and decay, one tick at a time.
//!
//! The modules go from leaf to root: [`kind`] holds the per-kind property
//! tables and the block type, [`grid`] the cell storage and its mathematical
//! model, [`line`] the line rasterizer, [`motion`] the rules that move one
//! block, [`world`] the tick scheduler, [`placement`] the brush, and [`laws`]
//! the properties that hold of every move and of every tick.
//!
//! Every executable function states its result over the model of the grid,
//! [`grid::GridView`]: what a tick does is `GridView::tick`, what a brush
//! stroke does is `GridView::place_area`, and so on.
pub mod grid;
pub mod kind;
pub mod laws;
pub mod line;
pub mod motion;
pub mod placement;
pub mod world;
