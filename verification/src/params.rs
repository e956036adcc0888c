//! What the aircraft does and costs. Distances are in feet, speeds in feet per
//! second, times in seconds.
use vstd::prelude::*;

use crate::double::Double;

verus! {

/// The square feet in an acre.
pub open spec fn spec_acre_ft2() -> Double {
    Double::of_int(43560)
}

/// The square feet in an acre.
#[verifier::when_used_as_spec(spec_acre_ft2)]
pub fn acre_ft2() -> (r: Double)
    ensures
        r == spec_acre_ft2(),
{
    Double::of_int(43560)
}

/// The constants of an aircraft and a job.
#[derive(Clone, Copy, Debug)]
pub struct AircraftParams {
    /// Effective swath.
    pub swath_ft: Double,
    /// Speed while spraying.
    pub speed_fps: Double,
    /// Average time of a turn at the end of a pass.
    pub t_turn_s: Double,
    /// Usable load.
    pub tank_gal: Double,
    /// Gallons per acre.
    pub gpa: Double,
    /// Time to load.
    pub t_load_s: Double,
    /// Approach, descent and take-off around a load.
    pub t_cycle_s: Double,
    /// Length of a turn outside the field.
    pub arc_ft_per_turn: Double,
    /// One way from the trailer to the field.
    pub ferry_ft: Double,
    /// Speed of a ferry.
    pub ferry_fps: Double,
    /// Flat time per job.
    pub t_setup_s: Double,
    /// Time to survey a cluster of polygons.
    pub t_survey_s: Double,
    /// Polygons within this distance share a survey.
    pub survey_link_ft: Double,
    /// Speed with the booms off.
    pub dead_fps: Double,
    /// Turns that a turn-around at a gap costs.
    pub gap_break_turns: Double,
}

/// The measured constants.
pub open spec fn default_params() -> AircraftParams {
    AircraftParams {
        swath_ft: Double::of_int(50),
        speed_fps: Double::ratio(833, 10),
        t_turn_s: Double::of_int(10),
        tank_gal: Double::of_int(75),
        gpa: Double::of_int(2),
        t_load_s: Double::of_int(100),
        t_cycle_s: Double::of_int(10),
        arc_ft_per_turn: Double::of_int(150),
        ferry_ft: Double::of_int(2640),
        ferry_fps: Double::of_int(80),
        t_setup_s: Double::of_int(120),
        t_survey_s: Double::of_int(180),
        survey_link_ft: Double::of_int(1500),
        dead_fps: Double::of_int(88),
        gap_break_turns: Double::of_int(2),
    }
}

impl Default for AircraftParams {
    fn default() -> (r: Self)
        ensures
            r == default_params(),
    {
        AircraftParams {
            swath_ft: Double::of_int(50),
            speed_fps: Double::ratio(833, 10),
            t_turn_s: Double::of_int(10),
            tank_gal: Double::of_int(75),
            gpa: Double::of_int(2),
            t_load_s: Double::of_int(100),
            t_cycle_s: Double::of_int(10),
            arc_ft_per_turn: Double::of_int(150),
            ferry_ft: Double::of_int(2640),
            ferry_fps: Double::of_int(80),
            t_setup_s: Double::of_int(120),
            t_survey_s: Double::of_int(180),
            survey_link_ft: Double::of_int(1500),
            dead_fps: Double::of_int(88),
            gap_break_turns: Double::of_int(2),
        }
    }
}

impl AircraftParams {
    /// A gap shorter than this is flown through: there the time in dead air is less
    /// than that of the turns around it. At any other, the aircraft turns around.
    pub open spec fn spec_gap_threshold_ft(&self) -> Double {
        self.dead_fps.times(self.t_turn_s).times(self.gap_break_turns)
    }

    /// A gap shorter than this is flown through, at any other the aircraft turns
    /// around.
    #[verifier::when_used_as_spec(spec_gap_threshold_ft)]
    pub fn gap_threshold_ft(&self) -> (r: Double)
        ensures
            r == self.spec_gap_threshold_ft(),
    {
        self.dead_fps.times(self.t_turn_s).times(self.gap_break_turns)
    }
}

} // verus!
