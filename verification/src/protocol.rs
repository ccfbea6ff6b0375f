//! The parts of the Wayland protocol that the client speaks.

use vstd::prelude::*;

verus! {

/// Request of `zwlr_gamma_control_manager_v1` that creates a gamma control.
pub const GET_GAMMA_CONTROL: u16 = 0;

/// Request of `zwlr_gamma_control_v1` that sets the table of an output.
pub const SET_GAMMA: u16 = 0;

/// Event of `zwlr_gamma_control_v1` after which the control is of no use.
pub const FAILED: u16 = 1;

} // verus!
