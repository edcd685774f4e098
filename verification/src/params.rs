//! Parameter structs of the character-dynamics example, and the marker
//! traits that classify parameter types.
//!
//! The given parameters are chosen by hand and stay fixed; the derived
//! parameters are the unknowns the solver computes. Both are generic over
//! the scalar type so the caller can instantiate them with plain or
//! dual-number scalars. The structured form converts to and from a flat
//! array, and the conversion round-trips exactly.

use vstd::prelude::*;

verus! {

/// Marker for fixed problem-defining parameter types.
pub trait GivenParams {
}

/// Marker for parameter types whose values are solved for.
pub trait UnknownParams {
}

/// Given parameters usable with scalar type `T` in a problem of `N` unknowns.
pub trait GivenParamsFor<T, const N: usize>: GivenParams {
}

/// Unknown parameters usable with scalar type `T` in a problem of `N`
/// unknowns.
pub trait UnknownParamsFor<T, const N: usize>: UnknownParams {
}

/// Number of unknown (derived) parameters of the dynamics example.
pub const N_UNKNOWNS: usize = 8;

/// Designer-facing parameters of the character-dynamics example.
#[derive(Clone, Copy, Debug)]
pub struct DynamicsGivenParams<T> {
    pub mass: T,
    pub jump_time_up: T,
    pub jump_time_down: T,
    pub jump_height: T,
    /// asymptotic max air speed under full input with no gravity
    pub max_air_speed_x: T,
    /// time to reach 95% of max air speed under full input with no gravity
    pub time_to_95pct_max_air_speed_x: T,
    pub max_vel_run: T,
    pub time_to_95pct_max_vel_run: T,
    /// speed below which horizontal velocity is zeroed to prevent jitter
    pub x_stop_speed_threshold: T,
    pub wall_slide_terminal_vel: T,
    /// angle (degrees) of ground tangent at which the sticky glove engages
    pub sticky_glove_angle_deg: T,
}

impl<T> GivenParams for DynamicsGivenParams<T> {
}

impl<T> GivenParamsFor<T, N_UNKNOWNS> for DynamicsGivenParams<T> {
}

/// Low-level parameters the solver derives for the dynamics example.
#[derive(Clone, Copy, Debug)]
pub struct DynamicsDerivedParams<T> {
    pub air_drag_coeff: T,
    pub air_thrust_max: T,
    pub g: T,
    pub jump_vy_0: T,
    pub jump_boost_force: T,
    /// max ground force magnitude before traction limiting
    pub run_force_max: T,
    /// ground drag coefficient for the canonical reference case
    pub run_drag_coeff: T,
    /// additional normal force applied while the sticky glove is active
    pub sticky_glove_force: T,
}

impl<T> UnknownParams for DynamicsDerivedParams<T> {
}

impl<T> UnknownParamsFor<T, N_UNKNOWNS> for DynamicsDerivedParams<T> {
}

/// The flat form of the derived parameters, in field order.
pub open spec fn spec_to_arr<T>(p: DynamicsDerivedParams<T>) -> Seq<T> {
    seq![
        p.air_drag_coeff,
        p.air_thrust_max,
        p.g,
        p.jump_vy_0,
        p.jump_boost_force,
        p.run_force_max,
        p.run_drag_coeff,
        p.sticky_glove_force,
    ]
}

/// The structured form of a flat vector of derived parameters.
pub open spec fn spec_from_arr<T>(a: Seq<T>) -> DynamicsDerivedParams<T> {
    DynamicsDerivedParams {
        air_drag_coeff: a[0],
        air_thrust_max: a[1],
        g: a[2],
        jump_vy_0: a[3],
        jump_boost_force: a[4],
        run_force_max: a[5],
        run_drag_coeff: a[6],
        sticky_glove_force: a[7],
    }
}

impl<T: Copy> DynamicsDerivedParams<T> {
    /// Flattens the parameters into a vector, in field order.
    pub fn to_arr(&self) -> (r: Vec<T>)
        ensures
            r@ == spec_to_arr(*self),
    {
        let mut v: Vec<T> = Vec::new();
        v.push(self.air_drag_coeff);
        v.push(self.air_thrust_max);
        v.push(self.g);
        v.push(self.jump_vy_0);
        v.push(self.jump_boost_force);
        v.push(self.run_force_max);
        v.push(self.run_drag_coeff);
        v.push(self.sticky_glove_force);
        proof {
            assert(v@ =~= spec_to_arr(*self));
        }
        v
    }

    /// Rebuilds the structured parameters from a flat vector in field order.
    pub fn from_arr(a: &Vec<T>) -> (r: DynamicsDerivedParams<T>)
        requires
            a@.len() == N_UNKNOWNS,
        ensures
            r == spec_from_arr(a@),
    {
        DynamicsDerivedParams {
            air_drag_coeff: a[0],
            air_thrust_max: a[1],
            g: a[2],
            jump_vy_0: a[3],
            jump_boost_force: a[4],
            run_force_max: a[5],
            run_drag_coeff: a[6],
            sticky_glove_force: a[7],
        }
    }
}

impl<T> DynamicsDerivedParams<T> {
    /// The field names of the unknowns, aligned with the flat order of
    /// `to_arr` and `from_arr`.
    pub fn field_names() -> (r: [&'static str; 8])
        ensures
            r@.len() == N_UNKNOWNS,
            r@[0]@ == "air_drag_coeff"@,
            r@[1]@ == "air_thrust_max"@,
            r@[2]@ == "g"@,
            r@[3]@ == "jump_vy_0"@,
            r@[4]@ == "jump_boost_force"@,
            r@[5]@ == "run_force_max"@,
            r@[6]@ == "run_drag_coeff"@,
            r@[7]@ == "sticky_glove_force"@,
    {
        [
            "air_drag_coeff",
            "air_thrust_max",
            "g",
            "jump_vy_0",
            "jump_boost_force",
            "run_force_max",
            "run_drag_coeff",
            "sticky_glove_force",
        ]
    }
}

/// Structured-to-flat conversion of the unknowns is the identity, in both
/// directions.
pub proof fn lemma_params_roundtrip<T>(p: DynamicsDerivedParams<T>, a: Seq<T>)
    requires
        a.len() == N_UNKNOWNS,
    ensures
        spec_from_arr(spec_to_arr(p)) == p,
        spec_to_arr(spec_from_arr(a)) == a,
{
    assert(spec_to_arr(spec_from_arr(a)) =~= a);
}

} // verus!
