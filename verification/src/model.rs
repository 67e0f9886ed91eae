//! The parts of the ground-model document that carry no numbers: how a
//! depth profile is read, what its depths are measured from, and the
//! drainage of a constitutive model. The documents themselves hold levels and
//! parameters as floating-point numbers and belong to the program around this
//! library.

use vstd::prelude::*;
use crate::text::owned;

verus! {

/// How a depth profile is read between its points.
#[derive(Clone, Copy, PartialEq, Eq, Debug, Structural)]
pub enum Interpolation {
    /// Linear between points; constant beyond the first and last point.
    Linear,
    /// Value holds from each point down to the next.
    Step,
}

/// What the depths of a profile are measured from.
#[derive(Clone, Copy, PartialEq, Eq, Debug, Structural)]
pub enum ProfileDatum {
    /// Depth below the top of the material's occurrence in a model. The only
    /// datum that travels correctly with a shared material, so the default.
    LayerTop,
    /// Depth below the model's surface level.
    GroundLevel,
    /// Absolute level, increasing upwards.
    Level,
}

impl Default for ProfileDatum {
    fn default() -> (r: ProfileDatum)
        ensures
            r == ProfileDatum::LayerTop,
    {
        ProfileDatum::LayerTop
    }
}

#[derive(Clone, Copy, PartialEq, Eq, Debug, Structural)]
pub enum Drainage {
    Drained,
    Undrained,
}

impl Interpolation {
    /// The name the document uses.
    pub fn as_str(self) -> (r: &'static str)
        ensures
            r@ == match self {
                Interpolation::Linear => "linear"@,
                Interpolation::Step => "step"@,
            },
    {
        match self {
            Interpolation::Linear => "linear",
            Interpolation::Step => "step",
        }
    }
}

impl ProfileDatum {
    /// The name the document uses.
    pub fn as_str(self) -> (r: &'static str)
        ensures
            r@ == match self {
                ProfileDatum::LayerTop => "layer-top"@,
                ProfileDatum::GroundLevel => "ground-level"@,
                ProfileDatum::Level => "level"@,
            },
    {
        match self {
            ProfileDatum::LayerTop => "layer-top",
            ProfileDatum::GroundLevel => "ground-level",
            ProfileDatum::Level => "level",
        }
    }
}

impl Drainage {
    /// The name the document uses.
    pub fn as_str(self) -> (r: &'static str)
        ensures
            r@ == match self {
                Drainage::Drained => "drained"@,
                Drainage::Undrained => "undrained"@,
            },
    {
        match self {
            Drainage::Drained => "drained",
            Drainage::Undrained => "undrained",
        }
    }
}

/// Whether a flag is off; a layer's `generatedFromProfile` is left out of its
/// document when it is.
pub fn is_false(b: &bool) -> (r: bool)
    ensures
        r == !*b,
{
    !*b
}

/// The model type of a document that does not name one.
pub fn default_model_type() -> (r: String)
    ensures
        r@ == "1d"@,
{
    owned("1d")
}

} // verus!
