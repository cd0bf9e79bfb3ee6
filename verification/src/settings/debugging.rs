//! What the editor draws on top of a scene to help debugging.
use crate::binary32::Sample;
use vstd::prelude::*;

verus! {

/// Switches for the debug drawing, and the size of pictograms.
#[derive(Clone, Debug, PartialEq)]
pub struct DebuggingSettings {
    pub show_physics: bool,
    pub show_bounds: bool,
    pub show_tbn: bool,
    pub show_light_bounds: bool,
    pub show_camera_bounds: bool,
    /// Size of pictograms in meters. It is used for objects like lights.
    pub pictogram_size: Sample,
}

impl DebuggingSettings {
    /// The pattern of 0.33, the default size of pictograms in meters.
    pub open spec fn default_pictogram_size() -> Sample {
        Sample { bits: 0x3ea8_f5c3 }
    }

    /// What the editor shows beside the field `pictogram_size`.
    pub fn pictogram_size_description() -> (r: &'static str)
        ensures
            r@ == "Size of pictograms in meters. It is used for objects like lights."@,
    {
        "Size of pictograms in meters. It is used for objects like lights."
    }
}

impl Default for DebuggingSettings {
    /// Everything is drawn but tangent space, with pictograms a third of a
    /// meter in size.
    fn default() -> (r: Self)
        ensures
            r.show_physics,
            r.show_bounds,
            !r.show_tbn,
            r.show_light_bounds,
            r.show_camera_bounds,
            r.pictogram_size == Self::default_pictogram_size(),
    {
        Self {
            show_physics: true,
            show_bounds: true,
            show_tbn: false,
            show_light_bounds: true,
            show_camera_bounds: true,
            pictogram_size: Sample { bits: 0x3ea8_f5c3 },
        }
    }
}

} // verus!
