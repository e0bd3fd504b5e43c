//! What a detection says.

use vstd::prelude::*;

use crate::bands::FpvChannel;

verus! {

/// What kind of transmission a classification saw. More kinds may come, so
/// matches outside this crate need a wildcard arm.
#[derive(Debug, Clone, Copy, PartialEq, Eq, Structural)]
#[non_exhaustive]
pub enum SignalType {
    /// Silence, noise, or an unrecognised pattern.
    Unknown,
    /// Analog FM video at NTSC line and field rates.
    AnalogVideoNtsc,
    /// Analog FM video at PAL line and field rates.
    AnalogVideoPal,
    /// Analog FM video whose line rate was not resolved finely enough to
    /// tell the standards apart.
    AnalogVideoUnknown,
    /// Wideband digital signal, likely Wi-Fi, Bluetooth or LTE.
    WidebandDigital,
    /// Narrowband interferer.
    NarrowbandInterference,
}

impl SignalType {
    /// Whether this is one of the three analog video kinds.
    pub open spec fn analog(self) -> bool {
        self == SignalType::AnalogVideoNtsc || self == SignalType::AnalogVideoPal || self
            == SignalType::AnalogVideoUnknown
    }

    /// `true` for any analog video kind. Use this rather than `!= Unknown`,
    /// which would also accept digital signals and interferers.
    pub fn is_analog_video(self) -> (b: bool)
        ensures
            b == self.analog(),
    {
        matches!(
            self,
            SignalType::AnalogVideoNtsc
                | SignalType::AnalogVideoPal
                | SignalType::AnalogVideoUnknown
        )
    }
}

/// One detected transmission.
#[derive(Debug, Clone, Copy, PartialEq, Eq, Structural)]
pub struct DetectionResult {
    /// The channel that was scanned, where a scan over channels found it.
    pub channel: Option<FpvChannel>,
    pub frequency_hz: u64,
    /// Confidence in thousandths, from 0 to 1000.
    pub confidence: u32,
    /// Received power in thousandths of a decibel-milliwatt; none where that
    /// is not a number.
    pub rssi_mdbm: Option<i32>,
    pub bandwidth_hz: u32,
    pub signal_type: SignalType,
}

} // verus!
