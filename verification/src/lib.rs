//! Maze solving on raster grids.
//!
//! A black-and-white pixel grid is compressed into a sparse graph whose
//! vertices are the corridor junctions, corners and dead ends, and whose edges
//! are the straight corridor runs between them.  Five search strategies then
//! look for a route from the opening in the top border to the opening in the
//! bottom border.
//!
//! The contracts say which graph a grid induces and what each search
//! returns, and Verus proves them.  The one thing taken on trust is the
//! indexed priority queue of the `priority-queue` crate, which one of the
//! searches uses; what is assumed of it stands in `pathfinder::queue`.

pub mod cli_errors;
pub mod maze;
pub mod output;
pub mod pathfinder;
