//! What a ramp is to look like.

use vstd::prelude::*;
use crate::double::{Double, ONE_BITS, ZERO_BITS};

verus! {

/// 6500.0
pub const DAYLIGHT_BITS: u64 = 0x40B9_6400_0000_0000;

/// One colour of an output.
#[derive(Clone, Copy, Debug, PartialEq, Eq, Structural)]
pub enum Channel {
    Red,
    Green,
    Blue,
}

/// The settings that every ramp is computed from.
#[derive(Clone, Copy, Debug, PartialEq, Eq, Structural)]
pub struct Config {
    /// Colour temperature in kelvin.
    pub temp: Double,
    /// Input levels: `[level_black, level_white]` is remapped to `[0, 1]`
    /// before any other step.
    pub level_black: Double,
    pub level_white: Double,
    /// Exponent of the power curve. 1.0 is a no-op.
    pub gamma: Double,
    /// Per-channel gain and offset, applied after the colour temperature.
    pub gain_r: Double,
    pub gain_g: Double,
    pub gain_b: Double,
    pub offset_r: Double,
    pub offset_g: Double,
    pub offset_b: Double,
    /// Strength of the sigmoid contrast, roughly -1.0 to 1.0. 0.0 is a no-op.
    pub contrast: Double,
    /// Final scale, applied after contrast. 1.0 is a no-op.
    pub brightness: Double,
    /// Quantizes to this many output levels. Less than 2 disables it.
    pub posterize_levels: u32,
    /// Values above this one are inverted. 1.0 is a no-op.
    pub solarize_value: Double,
    /// Full inversion.
    pub invert: bool,
    /// Zeroes the ramp of a whole channel and skips its other steps.
    pub disable_r: bool,
    pub disable_g: bool,
    pub disable_b: bool,
}

/// The settings in which every step but the colour temperature is a no-op.
pub open spec fn neutral() -> Config {
    let zero = Double { bits: ZERO_BITS };
    let one = Double { bits: ONE_BITS };
    Config {
        temp: Double { bits: DAYLIGHT_BITS },
        level_black: zero,
        level_white: one,
        gamma: one,
        gain_r: one,
        gain_g: one,
        gain_b: one,
        offset_r: zero,
        offset_g: zero,
        offset_b: zero,
        contrast: zero,
        brightness: one,
        posterize_levels: 0,
        solarize_value: one,
        invert: false,
        disable_r: false,
        disable_g: false,
        disable_b: false,
    }
}

impl Default for Config {
    fn default() -> (config: Self)
        ensures
            config == neutral(),
    {
        let zero = Double { bits: ZERO_BITS };
        let one = Double { bits: ONE_BITS };
        Config {
            temp: Double { bits: DAYLIGHT_BITS },
            level_black: zero,
            level_white: one,
            gamma: one,
            gain_r: one,
            gain_g: one,
            gain_b: one,
            offset_r: zero,
            offset_g: zero,
            offset_b: zero,
            contrast: zero,
            brightness: one,
            posterize_levels: 0,
            solarize_value: one,
            invert: false,
            disable_r: false,
            disable_g: false,
            disable_b: false,
        }
    }
}

impl Config {
    /// The gain set for a channel.
    pub open spec fn spec_gain(self, channel: Channel) -> Double {
        match channel {
            Channel::Red => self.gain_r,
            Channel::Green => self.gain_g,
            Channel::Blue => self.gain_b,
        }
    }

    /// The offset set for a channel.
    pub open spec fn spec_offset(self, channel: Channel) -> Double {
        match channel {
            Channel::Red => self.offset_r,
            Channel::Green => self.offset_g,
            Channel::Blue => self.offset_b,
        }
    }

    /// Whether a channel is switched off.
    pub open spec fn spec_disabled(self, channel: Channel) -> bool {
        match channel {
            Channel::Red => self.disable_r,
            Channel::Green => self.disable_g,
            Channel::Blue => self.disable_b,
        }
    }

    /// The gain set for a channel.
    pub fn gain(&self, channel: Channel) -> (r: Double)
        ensures
            r == self.spec_gain(channel),
    {
        match channel {
            Channel::Red => self.gain_r,
            Channel::Green => self.gain_g,
            Channel::Blue => self.gain_b,
        }
    }

    /// The offset set for a channel.
    pub fn offset(&self, channel: Channel) -> (r: Double)
        ensures
            r == self.spec_offset(channel),
    {
        match channel {
            Channel::Red => self.offset_r,
            Channel::Green => self.offset_g,
            Channel::Blue => self.offset_b,
        }
    }

    /// Whether a channel is switched off.
    pub fn disabled(&self, channel: Channel) -> (r: bool)
        ensures
            r == self.spec_disabled(channel),
    {
        match channel {
            Channel::Red => self.disable_r,
            Channel::Green => self.disable_g,
            Channel::Blue => self.disable_b,
        }
    }
}

} // verus!
