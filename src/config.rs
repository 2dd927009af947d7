//! Plain configuration values shared by the library and its drivers.
use vstd::prelude::*;

verus! {

/// Which step function drives the simulation.
#[derive(Clone, Copy, PartialEq, Eq, Structural, Debug)]
pub enum SimType {
    BarnesHut,
    BarnesHutParallel,
    Classical,
}

/// Size of the drawing surface, in pixels.
#[derive(Clone, Copy, PartialEq, Eq, Structural, Debug)]
pub struct Display {
    pub width: i32,
    pub height: i32,
}

/// A drawing surface size whose fields may be left to their defaults.
#[derive(Clone, Copy, PartialEq, Eq, Structural, Debug)]
pub struct DisplayOpt {
    pub width: Option<u32>,
    pub height: Option<u32>,
}

/// How the particles of a galaxy are placed.
#[derive(Clone, Copy, PartialEq, Eq, Structural, Debug)]
pub enum GalaxyShape {
    RandomWeighted,
    RandomEven,
    /// Concentric rings, with the number of rings.
    Concentric(u32),
}

} // verus!
