//! Single-lane traffic on a line: cars that push each other apart and are
//! held to posted limits inside speed-enforcement zones.
//!
//! Every real quantity (a position, a speed, a force) is a signed 64-bit
//! count of `1 / UNIT` of its unit; see [`fixed`]. All arithmetic saturates at
//! the ends of that range, and every contract says which real number a
//! result stands for.
//!
//! The library computes forces and applies the rules of the zones. It does
//! not integrate: in every time step the driver
//!
//! 1. adds up, for each car, the drift force, the repulsion from its
//!    neighbors and, where wanted, the brake of a zone, advances the car
//!    by its own integration rule and commits the outcome with
//!    [`Car::renew_state`], after [`periodic`] on a ring road;
//! 2. calls [`enforce`] once on the road, so that every flag acts on the car
//!    that has just gone past it.
//!
//! The hyperbolic tangent in the drift force is the one thing that the
//! library leaves to its caller: [`Car::speed_deficit`] gives its argument
//! and [`Car::drift_force`] takes its value.

pub mod boundary;
pub mod car;
pub mod error;
pub mod fixed;
pub mod force;
pub mod item;
pub mod speedcam;
mod wide;

pub use boundary::periodic;
pub use car::{Car, CarState};
pub use error::TrafficError;
pub use item::{enforce, ItemState, TrafficItem};
pub use speedcam::{FlagState, SpeedCam, SpeedCamFlag, SpeedCamState};
