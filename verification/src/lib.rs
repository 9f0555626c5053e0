//! Verified decision core of a multi-aircraft low-altitude route planner.

use vstd::prelude::*;

pub mod airspace;
pub mod answer;
pub mod arc;
pub mod arith;
pub mod arrival;
pub mod back;
pub mod banking;
pub mod boundary;
pub mod cell;
pub mod chain;
pub mod config;
pub mod convex;
pub mod coord;
pub mod corner;
pub mod cost;
pub mod cover;
pub mod crossing;
pub mod curves;
pub mod detection;
pub mod detour;
pub mod dubins;
pub mod ends;
pub mod entry;
pub mod error;
pub mod exact;
pub mod field;
pub mod fit;
pub mod fleet;
pub mod geometry;
pub mod globe;
pub mod grid;
pub mod ground;
pub mod help;
pub mod hull;
pub mod legrule;
pub mod loops;
pub mod lowpass;
pub mod margin;
pub mod meridian;
pub mod mission;
pub mod motion;
pub mod nearby;
pub mod numeric;
pub mod options;
pub mod oracle;
pub mod order;
pub mod outline;
pub mod parts;
pub mod passage;
pub mod patch;
pub mod path;
pub mod places;
pub mod plan;
pub mod plane;
pub mod polygon;
pub mod profile;
pub mod projection;
pub mod quarters;
pub mod reach;
pub mod region;
pub mod remainder;
pub mod repeat;
pub mod ring;
pub mod room;
pub mod root;
pub mod rounding;
pub mod scalar;
pub mod segment;
pub mod shortest;
pub mod sides;
pub mod slope;
pub mod smooth;
pub mod source;
pub mod spacing;
pub mod steep;
pub mod target;
pub mod task;
pub mod terrain;
pub mod text;
pub mod toll;
pub mod twice;
pub mod validate;
pub mod values;
pub mod verify;
pub mod widen;
pub mod zone;

verus! {

} // verus!
