//! Control logic of an interactive pool of water drawn by a GPU pass.
//!
//! - [`plugin`] takes in the mouse, the keyboard and the control panel, moves the
//!   ball and tells the pass about ripples.
//! - [`water_pass`] says what the pass is built from and what it does in a frame;
//!   [`grid`] and [`boxes`] build its meshes and [`uniforms`] the bytes that the GPU
//!   reads.
//! - [`scene`] holds what the scene is set up with.
//! - [`scalar`], [`rounding`], [`arithmetic`] and [`vector`] are the numbers: single
//!   precision, carried as bit patterns and computed with integers, so that every
//!   result is stated exactly.
//!
//! The modules whose names end in `laws`, with [`bounds`], [`ranges`] and [`limits`],
//! prove what holds of all of this.

pub mod arithmetic;
pub mod ball_laws;
pub mod bounds;
pub mod box_laws;
pub mod boxes;
pub mod buoyancy_laws;
pub mod clock_laws;
pub mod constants;
pub mod drag_laws;
pub mod frame_laws;
pub mod grid;
pub mod grid_laws;
pub mod laws;
pub mod limits;
pub mod motion_laws;
pub mod params;
pub mod pass_laws;
pub mod picking_laws;
pub mod plugin;
pub mod press_laws;
pub mod ranges;
pub mod roll_laws;
pub mod rotation_laws;
pub mod rounding;
pub mod scalar;
pub mod scene;
pub mod sphere_laws;
pub mod spin_laws;
pub mod uniforms;
pub mod vector;
pub mod water_pass;
