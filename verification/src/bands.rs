//! The FPV channel plan: which carriers exist, what they are called, and
//! which of them a measured frequency can stand for.

use vstd::prelude::*;
use vstd::string::StringExecFns;

use crate::seqs::lemma_filter_keeps_members;
use crate::text::{
    byte_number, characters, decimal, is_blank, is_digit, lemma_decimal_round_trip,
    lemma_lower_text, lemma_upper_text, lower_text, parse_byte, push_decimal, trim_back,
    trim_bounds, trim_front, trimmed, upper, upper_case, upper_text, without_plus,
};

verus! {

/// A named grid of video channels.
#[derive(Debug, Clone, Copy, PartialEq, Eq, Structural)]
#[non_exhaustive]
pub enum FpvBand {
    BandA,
    BandB,
    BandE,
    /// Also sold as band F.
    Fatshark,
    Raceband,
    /// Band L, 5333 to 5613 MHz on a 40 MHz grid.
    Lowband,
    /// Boscam D, 5362 to 5621 MHz on a 37 MHz grid.
    BandD,
    /// The narrow 1.2 GHz amateur set, 1240 to 1300 MHz.
    Band1200,
    /// 3.3 to 4.875 GHz.
    Band3300,
    /// The nine-channel long-range 1.2 and 1.3 GHz grid.
    Band1200Wide,
    UltraLow,
    Band2400,
}

/// One entry of the channel plan.
#[derive(Debug, Clone, Copy, PartialEq, Eq, Structural)]
pub struct FpvChannel {
    pub band: FpvBand,
    /// Number on the transmitter's menu, counted from one.
    pub channel: u8,
    pub frequency_hz: u64,
}

/// Raceband: 37 MHz spacing from 5658 MHz.
pub const RACEBAND_FREQS: [u64; 8] = [
    5_658_000_000,
    5_695_000_000,
    5_732_000_000,
    5_769_000_000,
    5_806_000_000,
    5_843_000_000,
    5_880_000_000,
    5_917_000_000,
];

/// Fatshark / ImmersionRC: 20 MHz spacing from 5740 MHz.
pub const FATSHARK_FREQS: [u64; 8] = [
    5_740_000_000,
    5_760_000_000,
    5_780_000_000,
    5_800_000_000,
    5_820_000_000,
    5_840_000_000,
    5_860_000_000,
    5_880_000_000,
];

/// Boscam A: 20 MHz spacing, numbered downwards from 5865 MHz.
pub const BAND_A_FREQS: [u64; 8] = [
    5_865_000_000,
    5_845_000_000,
    5_825_000_000,
    5_805_000_000,
    5_785_000_000,
    5_765_000_000,
    5_745_000_000,
    5_725_000_000,
];

/// Boscam B: 19 MHz spacing from 5733 MHz.
pub const BAND_B_FREQS: [u64; 8] = [
    5_733_000_000,
    5_752_000_000,
    5_771_000_000,
    5_790_000_000,
    5_809_000_000,
    5_828_000_000,
    5_847_000_000,
    5_866_000_000,
];

/// Boscam E: four channels either side of the 5.8 GHz centre.
pub const BAND_E_FREQS: [u64; 8] = [
    5_705_000_000,
    5_685_000_000,
    5_665_000_000,
    5_645_000_000,
    5_885_000_000,
    5_905_000_000,
    5_925_000_000,
    5_945_000_000,
];

/// Lowband: what a transmitter set to L1..L8 radiates. Not the Boscam D grid.
pub const LOWBAND_FREQS: [u64; 8] = [
    5_333_000_000,
    5_373_000_000,
    5_413_000_000,
    5_453_000_000,
    5_493_000_000,
    5_533_000_000,
    5_573_000_000,
    5_613_000_000,
];

/// Boscam D ("5.3G"), as found on multi-band receivers.
pub const BAND_D_FREQS: [u64; 8] = [
    5_362_000_000,
    5_399_000_000,
    5_436_000_000,
    5_473_000_000,
    5_510_000_000,
    5_547_000_000,
    5_584_000_000,
    5_621_000_000,
];

/// The 23 cm amateur set that narrow 1.2 GHz receiver modules step through.
pub const BAND_1200_FREQS: [u64; 8] = [
    1_240_000_000,
    1_246_000_000,
    1_258_000_000,
    1_264_000_000,
    1_276_000_000,
    1_282_000_000,
    1_294_000_000,
    1_300_000_000,
];

/// Long-range 1.2 GHz grid in menu order: eight channels at 40 MHz spacing,
/// then the odd slot at 1258 MHz, so the list is not monotonic.
pub const BAND_1200_WIDE_FREQS: [u64; 9] = [
    1_080_000_000,
    1_120_000_000,
    1_160_000_000,
    1_200_000_000,
    1_240_000_000,
    1_280_000_000,
    1_320_000_000,
    1_360_000_000,
    1_258_000_000,
];

/// Ultra-low grid below the 5.3 GHz bands.
pub const ULTRA_LOW_FREQS: [u64; 8] = [
    5_300_000_000,
    5_325_000_000,
    5_348_000_000,
    5_373_000_000,
    5_398_000_000,
    5_423_000_000,
    5_448_000_000,
    5_473_000_000,
];

/// Nine-channel 2.4 GHz video grid. Channels 3 and 8 share a carrier.
pub const BAND_2400_FREQS: [u64; 9] = [
    2_414_000_000,
    2_432_000_000,
    2_450_000_000,
    2_468_000_000,
    2_490_000_000,
    2_410_000_000,
    2_430_000_000,
    2_450_000_000,
    2_470_000_000,
];

/// The 3.3 GHz band: 64 channels at 25 MHz spacing, 3300 to 4875 MHz.
pub open spec fn grid_3300() -> Seq<u64> {
    Seq::new(64, |i: int| (3_300_000_000 + 25_000_000 * i) as u64)
}

/// The 3.3 GHz band: 64 channels at 25 MHz spacing, 3300 to 4875 MHz.
pub fn get_3300_freqs() -> (freqs: Vec<u64>)
    ensures
        freqs@ == grid_3300(),
{
    let mut freqs: Vec<u64> = Vec::new();
    let mut i: u64 = 0;
    while i < 64
        invariant
            i <= 64,
            freqs@ == grid_3300().take(i as int),
        decreases 64 - i,
    {
        freqs.push(3_300_000_000 + i * 25_000_000);
        i += 1;
        assert(freqs@ =~= grid_3300().take(i as int));
    }
    assert(grid_3300().take(64) =~= grid_3300());
    freqs
}

impl FpvBand {
    /// The letter that channel names of this band start with.
    pub open spec fn letter(self) -> char {
        match self {
            FpvBand::BandA => 'A',
            FpvBand::BandB => 'B',
            FpvBand::BandE => 'E',
            FpvBand::Fatshark => 'F',
            FpvBand::Raceband => 'R',
            FpvBand::Lowband => 'L',
            FpvBand::BandD => 'D',
            FpvBand::UltraLow => 'U',
            FpvBand::Band1200 => 'N',
            FpvBand::Band1200Wide => 'W',
            FpvBand::Band3300 => 'S',
            FpvBand::Band2400 => 'T',
        }
    }

    /// The carriers of this band, in channel order.
    pub open spec fn grid(self) -> Seq<u64> {
        match self {
            FpvBand::BandA => BAND_A_FREQS@,
            FpvBand::BandB => BAND_B_FREQS@,
            FpvBand::BandE => BAND_E_FREQS@,
            FpvBand::Fatshark => FATSHARK_FREQS@,
            FpvBand::Raceband => RACEBAND_FREQS@,
            FpvBand::Lowband => LOWBAND_FREQS@,
            FpvBand::BandD => BAND_D_FREQS@,
            FpvBand::UltraLow => ULTRA_LOW_FREQS@,
            FpvBand::Band1200 => BAND_1200_FREQS@,
            FpvBand::Band1200Wide => BAND_1200_WIDE_FREQS@,
            FpvBand::Band3300 => grid_3300(),
            FpvBand::Band2400 => BAND_2400_FREQS@,
        }
    }

    /// This band's part of the catalog: channel numbers count from one.
    pub open spec fn entries(self) -> Seq<FpvChannel> {
        Seq::new(
            self.grid().len(),
            |i: int|
                FpvChannel {
                    band: self,
                    channel: (i + 1) as u8,
                    frequency_hz: self.grid()[i],
                },
        )
    }

    /// Unambiguous short code used in channel identifiers.
    pub fn code(self) -> (c: char)
        ensures
            c == self.letter(),
    {
        match self {
            FpvBand::BandA => 'A',
            FpvBand::BandB => 'B',
            FpvBand::BandE => 'E',
            FpvBand::Fatshark => 'F',
            FpvBand::Raceband => 'R',
            FpvBand::Lowband => 'L',
            FpvBand::BandD => 'D',
            FpvBand::UltraLow => 'U',
            FpvBand::Band1200 => 'N',
            FpvBand::Band1200Wide => 'W',
            FpvBand::Band3300 => 'S',
            FpvBand::Band2400 => 'T',
        }
    }

    fn code_text(self) -> (s: &'static str)
        ensures
            s@ == seq![self.letter()],
    {
        proof {
            reveal_strlit("A");
            reveal_strlit("B");
            reveal_strlit("E");
            reveal_strlit("F");
            reveal_strlit("R");
            reveal_strlit("L");
            reveal_strlit("D");
            reveal_strlit("U");
            reveal_strlit("N");
            reveal_strlit("W");
            reveal_strlit("S");
            reveal_strlit("T");
        }
        match self {
            FpvBand::BandA => "A",
            FpvBand::BandB => "B",
            FpvBand::BandE => "E",
            FpvBand::Fatshark => "F",
            FpvBand::Raceband => "R",
            FpvBand::Lowband => "L",
            FpvBand::BandD => "D",
            FpvBand::UltraLow => "U",
            FpvBand::Band1200 => "N",
            FpvBand::Band1200Wide => "W",
            FpvBand::Band3300 => "S",
            FpvBand::Band2400 => "T",
        }
    }

    /// The carriers of this band, in channel order.
    pub fn frequencies(self) -> (freqs: Vec<u64>)
        ensures
            freqs@ == self.grid(),
    {
        match self {
            FpvBand::BandA => copied(&BAND_A_FREQS),
            FpvBand::BandB => copied(&BAND_B_FREQS),
            FpvBand::BandE => copied(&BAND_E_FREQS),
            FpvBand::Fatshark => copied(&FATSHARK_FREQS),
            FpvBand::Raceband => copied(&RACEBAND_FREQS),
            FpvBand::Lowband => copied(&LOWBAND_FREQS),
            FpvBand::BandD => copied(&BAND_D_FREQS),
            FpvBand::UltraLow => copied(&ULTRA_LOW_FREQS),
            FpvBand::Band1200 => copied(&BAND_1200_FREQS),
            FpvBand::Band1200Wide => copied(&BAND_1200_WIDE_FREQS),
            FpvBand::Band3300 => get_3300_freqs(),
            FpvBand::Band2400 => copied(&BAND_2400_FREQS),
        }
    }
}

fn copied<const N: usize>(table: &[u64; N]) -> (freqs: Vec<u64>)
    ensures
        freqs@ == table@,
{
    let mut freqs: Vec<u64> = Vec::new();
    let mut i: usize = 0;
    while i < N
        invariant
            i <= N,
            freqs@ == table@.take(i as int),
        decreases N - i,
    {
        freqs.push(table[i]);
        i += 1;
        assert(freqs@ =~= table@.take(i as int));
    }
    assert(table@.take(N as int) =~= table@);
    freqs
}

impl FpvChannel {
    /// Short name: band letter and channel number.
    pub open spec fn name_text(self) -> Seq<char> {
        seq![self.band.letter()] + decimal(self.channel as nat)
    }

    /// Name as shown to a viewer: the bands outside 5 GHz spell out theirs.
    pub open spec fn display_text(self) -> Seq<char> {
        match self.band {
            FpvBand::Band1200Wide => (if self.channel <= 5 {
                "1.2G Ch"@
            } else {
                "1.3G Ch"@
            }) + decimal(self.channel as nat),
            FpvBand::Band2400 => "2.4G Ch"@ + decimal(self.channel as nat),
            FpvBand::Band3300 => "3.3G Ch"@ + decimal(self.channel as nat),
            _ => self.name_text(),
        }
    }

    /// Short name: band letter and channel number.
    pub fn name(&self) -> (s: String)
        ensures
            s@ == self.name_text(),
    {
        let mut s: String = String::from_str(self.band.code_text());
        push_decimal(&mut s, self.channel);
        s
    }

    /// Name as shown to a viewer: the bands outside 5 GHz spell out theirs.
    pub fn display_name(&self) -> (s: String)
        ensures
            s@ == self.display_text(),
    {
        let prefix: &str = match self.band {
            FpvBand::Band1200Wide => if self.channel <= 5 {
                "1.2G Ch"
            } else {
                "1.3G Ch"
            },
            FpvBand::Band2400 => "2.4G Ch",
            FpvBand::Band3300 => "3.3G Ch",
            _ => {
                return self.name();
            },
        };
        let mut s: String = String::from_str(prefix);
        push_decimal(&mut s, self.channel);
        s
    }
}

/// The whole channel plan. Aliases of one carrier remain distinct entries.
pub open spec fn catalog() -> Seq<FpvChannel> {
    FpvBand::BandA.entries() + FpvBand::BandB.entries() + FpvBand::BandE.entries()
        + FpvBand::Fatshark.entries() + FpvBand::Raceband.entries() + FpvBand::BandD.entries()
        + FpvBand::Lowband.entries() + FpvBand::UltraLow.entries()
        + FpvBand::Band1200Wide.entries() + FpvBand::Band1200.entries()
        + FpvBand::Band2400.entries() + FpvBand::Band3300.entries()
}

fn push_entries(channels: &mut Vec<FpvChannel>, band: FpvBand)
    ensures
        final(channels)@ == old(channels)@ + band.entries(),
{
    let freqs: Vec<u64> = band.frequencies();
    let ghost before = channels@;
    let mut i: usize = 0;
    while i < freqs.len()
        invariant
            i <= freqs.len() <= 64,
            freqs@ == band.grid(),
            channels@ == before + band.entries().take(i as int),
        decreases freqs.len() - i,
    {
        channels.push(FpvChannel { band, channel: (i + 1) as u8, frequency_hz: freqs[i] });
        i += 1;
        assert(channels@ =~= before + band.entries().take(i as int));
    }
    assert(band.entries().take(i as int) =~= band.entries());
}

/// Shared catalog used by tuning, scanning, candidate matching and labels.
pub fn channel_catalog() -> (channels: Vec<FpvChannel>)
    ensures
        channels@ == catalog(),
{
    let mut channels: Vec<FpvChannel> = Vec::new();
    push_entries(&mut channels, FpvBand::BandA);
    push_entries(&mut channels, FpvBand::BandB);
    push_entries(&mut channels, FpvBand::BandE);
    push_entries(&mut channels, FpvBand::Fatshark);
    push_entries(&mut channels, FpvBand::Raceband);
    push_entries(&mut channels, FpvBand::BandD);
    push_entries(&mut channels, FpvBand::Lowband);
    push_entries(&mut channels, FpvBand::UltraLow);
    push_entries(&mut channels, FpvBand::Band1200Wide);
    push_entries(&mut channels, FpvBand::Band1200);
    push_entries(&mut channels, FpvBand::Band2400);
    push_entries(&mut channels, FpvBand::Band3300);
    assert(channels@ =~= catalog());
    channels
}

/// The catalog as an owned list.
pub fn get_all_channels() -> (channels: Vec<FpvChannel>)
    ensures
        channels@ == catalog(),
{
    channel_catalog()
}

/// Scan coverage.
#[derive(Debug, Clone, Copy, PartialEq, Eq, Structural)]
pub enum BandSelection {
    /// 5645 to 5945 MHz only.
    Band58,
    All,
}

impl BandSelection {
    /// Whether a channel belongs to the coverage.
    pub open spec fn covers(self, c: FpvChannel) -> bool {
        self == BandSelection::All || 5_645_000_000 <= c.frequency_hz <= 5_945_000_000
    }

    /// The covered channels, in catalog order.
    pub fn channels(self) -> (channels: Vec<FpvChannel>)
        ensures
            channels@ == catalog().filter(|c: FpvChannel| self.covers(c)),
    {
        let all: Vec<FpvChannel> = channel_catalog();
        let ghost p = |c: FpvChannel| self.covers(c);
        let mut channels: Vec<FpvChannel> = Vec::new();
        let mut i: usize = 0;
        proof {
            reveal(Seq::filter);
        }
        while i < all.len()
            invariant
                i <= all.len(),
                all@ == catalog(),
                p == (|c: FpvChannel| self.covers(c)),
                channels@ == catalog().take(i as int).filter(p),
            decreases all.len() - i,
        {
            let c: FpvChannel = all[i];
            if self == BandSelection::All || (5_645_000_000 <= c.frequency_hz && c.frequency_hz
                <= 5_945_000_000) {
                channels.push(c);
            }
            proof {
                reveal(Seq::filter);
                assert(catalog().take(i + 1).drop_last() =~= catalog().take(i as int));
            }
            i += 1;
        }
        assert(catalog().take(i as int) =~= catalog());
        channels
    }
}

/// The band that a letter stands for.
pub open spec fn band_of(code: char) -> Option<FpvBand> {
    match code {
        'A' => Some(FpvBand::BandA),
        'B' => Some(FpvBand::BandB),
        'E' => Some(FpvBand::BandE),
        'F' => Some(FpvBand::Fatshark),
        'R' => Some(FpvBand::Raceband),
        'L' => Some(FpvBand::Lowband),
        'D' => Some(FpvBand::BandD),
        'U' => Some(FpvBand::UltraLow),
        'N' => Some(FpvBand::Band1200),
        'W' => Some(FpvBand::Band1200Wide),
        'S' => Some(FpvBand::Band3300),
        'T' => Some(FpvBand::Band2400),
        _ => None,
    }
}

/// The carrier that a channel name stands for. Blanks around the name and
/// the letter's case do not matter; the number may carry a plus sign and
/// leading zeros.
pub open spec fn named_carrier(name: Seq<char>) -> Option<u64> {
    let t = trimmed(name);
    if t.len() == 0 {
        None
    } else {
        match (band_of(upper(t[0])), byte_number(t.skip(1))) {
            (Some(band), Some(n)) => if 1 <= n <= band.grid().len() {
                Some(band.grid()[n - 1])
            } else {
                None
            },
            _ => None,
        }
    }
}

fn band_with_code(code: char) -> (band: Option<FpvBand>)
    ensures
        band == band_of(code),
{
    match code {
        'A' => Some(FpvBand::BandA),
        'B' => Some(FpvBand::BandB),
        'E' => Some(FpvBand::BandE),
        'F' => Some(FpvBand::Fatshark),
        'R' => Some(FpvBand::Raceband),
        'L' => Some(FpvBand::Lowband),
        'D' => Some(FpvBand::BandD),
        'U' => Some(FpvBand::UltraLow),
        'N' => Some(FpvBand::Band1200),
        'W' => Some(FpvBand::Band1200Wide),
        'S' => Some(FpvBand::Band3300),
        'T' => Some(FpvBand::Band2400),
        _ => None,
    }
}

/// Resolve case-insensitive A/B/E/F/R/L/D/U1 to 8, N1 to 8 (narrow 1.2 GHz),
/// W1 to 9 (wide 1.2 GHz), T1 to 9 (2.4 GHz), or S1 to 64 (3.3 GHz).
pub fn lookup_channel_by_name(name: &str) -> (frequency_hz: Option<u64>)
    ensures
        frequency_hz == named_carrier(name@),
{
    let chars: Vec<char> = characters(name);
    let (lo, hi) = trim_bounds(&chars);
    let ghost t = trimmed(name@);
    if lo == hi {
        return None;
    }
    assert(t[0] == chars@[lo as int]);
    assert(t.skip(1) =~= chars@.subrange(lo + 1, hi as int));
    match (band_with_code(upper_case(chars[lo])), parse_byte(&chars, lo + 1, hi)) {
        (Some(band), Some(n)) => {
            let freqs: Vec<u64> = band.frequencies();
            if 1 <= n && (n as usize) <= freqs.len() {
                Some(freqs[n as usize - 1])
            } else {
                None
            }
        },
        _ => None,
    }
}

/// Bands whose names come first where several share a carrier.
pub open spec fn leads(c: FpvChannel) -> bool {
    c.band == FpvBand::Raceband || c.band == FpvBand::UltraLow
}

/// All entries on one carrier: Raceband and ultra-low names first, catalog
/// order otherwise.
pub open spec fn aliases(frequency_hz: u64) -> Seq<FpvChannel> {
    catalog().filter(|c: FpvChannel| c.frequency_hz == frequency_hz && leads(c))
        + catalog().filter(|c: FpvChannel| c.frequency_hz == frequency_hz && !leads(c))
}

/// Display names joined by slashes.
pub open spec fn joined_names(channels: Seq<FpvChannel>) -> Seq<char>
    decreases channels.len(),
{
    if channels.len() == 0 {
        Seq::empty()
    } else if channels.len() == 1 {
        channels[0].display_text()
    } else {
        joined_names(channels.drop_last()) + "/"@ + channels.last().display_text()
    }
}

fn push_aliases(found: &mut Vec<FpvChannel>, all: &Vec<FpvChannel>, frequency_hz: u64, leading: bool)
    ensures
        final(found)@ == old(found)@ + all@.filter(
            |c: FpvChannel| c.frequency_hz == frequency_hz && leads(c) == leading,
        ),
{
    let ghost before = found@;
    let ghost p = |c: FpvChannel| c.frequency_hz == frequency_hz && leads(c) == leading;
    let mut i: usize = 0;
    proof {
        reveal(Seq::filter);
        assert(found@ =~= before + all@.take(0).filter(p));
    }
    while i < all.len()
        invariant
            i <= all.len(),
            p == (|c: FpvChannel| c.frequency_hz == frequency_hz && leads(c) == leading),
            found@ == before + all@.take(i as int).filter(p),
        decreases all.len() - i,
    {
        let c: FpvChannel = all[i];
        let first: bool = c.band == FpvBand::Raceband || c.band == FpvBand::UltraLow;
        proof {
            reveal(Seq::filter);
            assert(all@.take(i + 1).drop_last() =~= all@.take(i as int));
        }
        if c.frequency_hz == frequency_hz && first == leading {
            found.push(c);
        }
        i += 1;
        assert(found@ =~= before + all@.take(i as int).filter(p));
    }
    assert(all@.take(i as int) =~= all@);
}

/// Exact carrier label, including all aliases sharing that frequency.
pub fn channel_name(frequency_hz: u64) -> (label: Option<String>)
    ensures
        label is Some <==> aliases(frequency_hz).len() > 0,
        label matches Some(s) ==> s@ == joined_names(aliases(frequency_hz)),
{
    let all: Vec<FpvChannel> = channel_catalog();
    let mut found: Vec<FpvChannel> = Vec::new();
    push_aliases(&mut found, &all, frequency_hz, true);
    push_aliases(&mut found, &all, frequency_hz, false);
    proof {
        let p = |c: FpvChannel| c.frequency_hz == frequency_hz && leads(c);
        let p1 = |c: FpvChannel| c.frequency_hz == frequency_hz && leads(c) == true;
        assert(p =~= p1);
        let q = |c: FpvChannel| c.frequency_hz == frequency_hz && !leads(c);
        let q1 = |c: FpvChannel| c.frequency_hz == frequency_hz && leads(c) == false;
        assert(q =~= q1);
        assert(found@ =~= aliases(frequency_hz));
    }
    if found.len() == 0 {
        return None;
    }
    let mut s: String = found[0].display_name();
    let mut i: usize = 1;
    assert(found@.take(1) =~= seq![found@[0]]);
    while i < found.len()
        invariant
            1 <= i <= found.len(),
            s@ == joined_names(found@.take(i as int)),
        decreases found.len() - i,
    {
        s.append("/");
        s.append(found[i].display_name().as_str());
        assert(found@.take(i + 1).drop_last() =~= found@.take(i as int));
        i += 1;
    }
    assert(found@.take(i as int) =~= found@);
    Some(s)
}

/// The whole megahertz nearest to a frequency; halves round up.
pub open spec fn nearest_mhz_hz(freq_hz: u64) -> int {
    (freq_hz + 500_000) / 1_000_000 * 1_000_000
}

/// Label after rounding a display frequency to the nearest MHz.
pub fn get_fpv_channel_name(freq_hz: u64) -> (label: Option<String>)
    ensures
        label is Some <==> nearest_mhz_hz(freq_hz) <= u64::MAX && aliases(
            nearest_mhz_hz(freq_hz) as u64,
        ).len() > 0,
        label matches Some(s) ==> s@ == joined_names(aliases(nearest_mhz_hz(freq_hz) as u64)),
{
    let whole: u64 = freq_hz / 1_000_000;
    let rounded: u64 = if freq_hz % 1_000_000 >= 500_000 {
        whole + 1
    } else {
        whole
    };
    assert(nearest_mhz_hz(freq_hz) == rounded * 1_000_000);
    if rounded > u64::MAX / 1_000_000 {
        return None;
    }
    channel_name(rounded * 1_000_000)
}

/// How far a measured frequency may lie from the channel it stands for.
pub const CHANNEL_SNAP_TOLERANCE_MHZ: u64 = 15;

/// Distance of a carrier from a measured frequency.
pub open spec fn off(carrier_hz: u64, freq_hz: i64) -> int {
    if carrier_hz >= freq_hz {
        carrier_hz - freq_hz
    } else {
        freq_hz - carrier_hz
    }
}

/// The carriers of the catalog, entry by entry.
pub open spec fn carriers() -> Seq<u64> {
    catalog().map_values(|c: FpvChannel| c.frequency_hz)
}

/// Whether the first entry on carrier `f` stands before every entry on `g`.
pub open spec fn listed_before(s: Seq<u64>, f: u64, g: u64) -> bool {
    exists|k: int| 0 <= k < s.len() && #[trigger] s[k] == f && !s.take(k).contains(g)
}

/// Whether `f` ranks before `g` as a reading of a measured frequency: it is
/// nearer, or as near and listed first.
pub open spec fn ranks_before(s: Seq<u64>, f: u64, g: u64, freq_hz: i64) -> bool {
    off(f, freq_hz) < off(g, freq_hz) || (off(f, freq_hz) == off(g, freq_hz) && listed_before(
        s,
        f,
        g,
    ))
}

/// `found` holds each carrier of `s` within the tolerance once, best first.
pub open spec fn ranked_candidates(
    s: Seq<u64>,
    freq_hz: i64,
    tolerance_hz: int,
    found: Seq<u64>,
) -> bool {
    &&& found.no_duplicates()
    &&& forall|f: u64| #[trigger]
        found.contains(f) <==> s.contains(f) && off(f, freq_hz) <= tolerance_hz
    &&& forall|i: int, j: int|
        0 <= i < j < found.len() ==> ranks_before(s, #[trigger] found[i], #[trigger] found[j], freq_hz)
}

fn off_hz(carrier_hz: u64, freq_hz: i64) -> (d: i128)
    ensures
        d == off(carrier_hz, freq_hz),
{
    let c: i128 = carrier_hz as i128;
    let f: i128 = freq_hz as i128;
    if c >= f {
        c - f
    } else {
        f - c
    }
}

/// Ranking with respect to a longer list: entries that were ranked stay
/// ranked, and what is only in the new entry ranks after as near ones.
proof fn lemma_ranks_in_longer_list(s: Seq<u64>, n: int, freq_hz: i64)
    requires
        0 <= n < s.len(),
    ensures
        forall|f: u64, g: u64| #[trigger]
            ranks_before(s.take(n), f, g, freq_hz) ==> ranks_before(s.take(n + 1), f, g, freq_hz),
        forall|f: u64|
            s.take(n).contains(f) && !s.take(n).contains(s[n]) && off(f, freq_hz) <= off(
                s[n],
                freq_hz,
            ) ==> #[trigger] ranks_before(s.take(n + 1), f, s[n], freq_hz),
{
    let a = s.take(n);
    let b = s.take(n + 1);
    assert forall|f: u64, g: u64| #[trigger] ranks_before(a, f, g, freq_hz) implies ranks_before(
        b,
        f,
        g,
        freq_hz,
    ) by {
        if off(f, freq_hz) == off(g, freq_hz) {
            let k = choose|k: int| 0 <= k < a.len() && #[trigger] a[k] == f && !a.take(k).contains(g);
            assert(b[k] == f);
            assert(b.take(k) =~= a.take(k));
        }
    }
    assert forall|f: u64|
        a.contains(f) && !a.contains(s[n]) && off(f, freq_hz) <= off(
            s[n],
            freq_hz,
        ) implies #[trigger] ranks_before(b, f, s[n], freq_hz) by {
        let k = a.index_of(f);
        assert(b[k] == f);
        assert forall|m: int| 0 <= m < k implies b.take(k)[m] != s[n] by {
            assert(a[m] == b[m]);
        }
    }
}

/// Candidate carriers in Hz, ordered by distance, with aliases deduplicated.
/// The tolerance is inclusive; equal distances retain catalog order. None
/// stands for a frequency that is not a number, which has no candidates.
pub fn candidate_frequencies(freq_hz: Option<i64>, tolerance_hz: i64) -> (found: Vec<u64>)
    ensures
        match freq_hz {
            Some(f) => ranked_candidates(carriers(), f, tolerance_hz as int, found@),
            None => found.len() == 0,
        },
{
    let freq_hz: i64 = match freq_hz {
        Some(f) => f,
        None => {
            return Vec::new();
        },
    };
    let all: Vec<FpvChannel> = channel_catalog();
    let ghost s = carriers();
    let mut found: Vec<u64> = Vec::new();
    let mut i: usize = 0;
    while i < all.len()
        invariant
            i <= all.len(),
            all@ == catalog(),
            s == carriers(),
            ranked_candidates(s.take(i as int), freq_hz, tolerance_hz as int, found@),
        decreases all.len() - i,
    {
        let f: u64 = all[i].frequency_hz;
        let d: i128 = off_hz(f, freq_hz);
        let ghost before = s.take(i as int);
        let ghost after = s.take(i + 1);
        let ghost held = found@;
        assert(f == s[i as int]);
        assert(after =~= before.push(f));
        proof {
            lemma_ranks_in_longer_list(s, i as int, freq_hz);
            assert forall|x: u64| after.contains(x) <==> before.contains(x) || x == f by {
                if after.contains(x) {
                    let k = after.index_of(x);
                    if k < i {
                        assert(before[k] == x);
                    }
                }
                if before.contains(x) {
                    let k = before.index_of(x);
                    assert(after[k] == x);
                }
                assert(after[i as int] == f);
            }
        }
        let mut at: usize = 0;
        let mut known: bool = false;
        while at < found.len() && off_hz(found[at], freq_hz) <= d
            invariant
                at <= found.len(),
                found@ == held,
                d == off(f, freq_hz),
                forall|k: int| 0 <= k < at ==> off(#[trigger] held[k], freq_hz) <= d,
                known <==> exists|k: int| 0 <= k < at && #[trigger] held[k] == f,
            decreases found.len() - at,
        {
            if found[at] == f {
                known = true;
            }
            at += 1;
        }
        proof {
            assert forall|k: int| at <= k < held.len() implies off(#[trigger] held[k], freq_hz)
                > d by {
                assert(ranks_before(before, held[at as int], held[k], freq_hz) || k == at);
            }
            assert(known <==> held.contains(f));
        }
        if d <= tolerance_hz as i128 && !known {
            found.insert(at, f);
            proof {
                assert(!before.contains(f));
                assert(found@ =~= held.subrange(0, at as int).push(f) + held.subrange(
                    at as int,
                    held.len() as int,
                ));
                assert forall|x: u64| found@.contains(x) <==> held.contains(x) || x == f by {
                    if found@.contains(x) {
                        let k = found@.index_of(x);
                        if k < at {
                            assert(held[k] == x);
                        } else if k > at {
                            assert(held[k - 1] == x);
                        }
                    }
                    if held.contains(x) {
                        let k = held.index_of(x);
                        if k < at {
                            assert(found@[k] == x);
                        } else {
                            assert(found@[k + 1] == x);
                        }
                    }
                    assert(found@[at as int] == f);
                }
                assert forall|x: u64| #[trigger] found@.contains(x) <==> after.contains(x) && off(
                    x,
                    freq_hz,
                ) <= tolerance_hz by {
                    assert(found@.contains(x) <==> held.contains(x) || x == f);
                    assert(after.contains(x) <==> before.contains(x) || x == f);
                    assert(held.contains(x) <==> before.contains(x) && off(x, freq_hz)
                        <= tolerance_hz);
                }
                assert forall|a: int, b: int| 0 <= a < b < found@.len() implies ranks_before(
                    after,
                    #[trigger] found@[a],
                    #[trigger] found@[b],
                    freq_hz,
                ) by {
                    if a != at && b != at {
                        let x = if a < at { a } else { a - 1 };
                        let y = if b < at { b } else { b - 1 };
                        assert(ranks_before(before, held[x], held[y], freq_hz));
                    } else if b == at {
                        assert(held.contains(held[a]));
                        assert(before.contains(held[a]));
                    } else {
                        assert(off(held[b - 1], freq_hz) > d);
                    }
                }
                assert forall|a: int, b: int|
                    0 <= a < found@.len() && 0 <= b < found@.len() && a != b implies found@[a]
                    != found@[b] by {
                    let x = if a < at { a } else { a - 1 };
                    let y = if b < at { b } else { b - 1 };
                    if a == at {
                        assert(held.contains(held[y]));
                    } else if b == at {
                        assert(held.contains(held[x]));
                    }
                }
            }
        } else {
            proof {
                assert forall|x: u64| #[trigger] found@.contains(x) <==> after.contains(x) && off(
                    x,
                    freq_hz,
                ) <= tolerance_hz by {
                    assert(after.contains(x) <==> before.contains(x) || x == f);
                    assert(held.contains(x) <==> before.contains(x) && off(x, freq_hz)
                        <= tolerance_hz);
                    assert(known ==> held.contains(f));
                }
                assert forall|a: int, b: int| 0 <= a < b < found@.len() implies ranks_before(
                    after,
                    #[trigger] found@[a],
                    #[trigger] found@[b],
                    freq_hz,
                ) by {
                    assert(ranks_before(before, held[a], held[b], freq_hz));
                }
            }
        }
        assert(ranked_candidates(after, freq_hz, tolerance_hz as int, found@));
        i += 1;
    }
    assert(s.take(i as int) =~= s);
    found
}

/// Candidates within the snap tolerance.
pub fn get_candidate_fpv_channels(freq_hz: i64) -> (found: Vec<u64>)
    ensures
        ranked_candidates(
            carriers(),
            freq_hz,
            CHANNEL_SNAP_TOLERANCE_MHZ * 1_000_000,
            found@,
        ),
{
    candidate_frequencies(Some(freq_hz), CHANNEL_SNAP_TOLERANCE_MHZ as i64 * 1_000_000)
}

/// Whether `r` is the reading of a measured frequency: the best-ranked
/// carrier strictly inside the tolerance, or the measurement itself where no
/// carrier is that near.
pub open spec fn snaps_to(freq_hz: i64, r: i64) -> bool {
    if exists|f: u64|
        #![trigger carriers().contains(f)]
        carriers().contains(f) && off(f, freq_hz) < CHANNEL_SNAP_TOLERANCE_MHZ * 1_000_000 {
        &&& r >= 0
        &&& carriers().contains(r as u64)
        &&& off(r as u64, freq_hz) < CHANNEL_SNAP_TOLERANCE_MHZ * 1_000_000
        &&& forall|g: u64| #[trigger]
            carriers().contains(g) && g != r ==> off(r as u64, freq_hz) < off(g, freq_hz) || (off(
                r as u64,
                freq_hz,
            ) == off(g, freq_hz) && listed_before(carriers(), r as u64, g))
    } else {
        r == freq_hz
    }
}

/// Preserve an off-table measurement; snap only strictly inside the tolerance.
/// This is channel identification, not a recommendation to retune the decoder.
pub fn snap_to_nearest_fpv_channel(freq_hz: i64) -> (r: i64)
    ensures
        snaps_to(freq_hz, r),
{
    let found: Vec<u64> = get_candidate_fpv_channels(freq_hz);
    let limit: i128 = CHANNEL_SNAP_TOLERANCE_MHZ as i128 * 1_000_000;
    if found.len() > 0 && off_hz(found[0], freq_hz) < limit {
        let f: u64 = found[0];
        assert(found@.contains(f));
        proof {
            lemma_carrier_bounds(f);
            assert forall|g: u64| #[trigger] carriers().contains(g) && g != f implies off(
                f,
                freq_hz,
            ) < off(g, freq_hz) || (off(f, freq_hz) == off(g, freq_hz) && listed_before(
                carriers(),
                f,
                g,
            )) by {
                if off(g, freq_hz) <= limit {
                    assert(found@.contains(g));
                    let k = found@.index_of(g);
                    assert(ranks_before(carriers(), found@[0], found@[k], freq_hz));
                }
            }
        }
        f as i64
    } else {
        proof {
            assert forall|f: u64| #[trigger] carriers().contains(f) implies off(f, freq_hz)
                >= limit by {
                if off(f, freq_hz) < limit {
                    assert(found@.contains(f));
                    let k = found@.index_of(f);
                    assert(k != 0 ==> ranks_before(carriers(), found@[0], found@[k], freq_hz));
                }
            }
        }
        freq_hz
    }
}

/// Every entry sits in its band's grid, between 1080 and 5945 MHz.
proof fn lemma_catalog_entry(i: int)
    requires
        0 <= i < catalog().len(),
    ensures
        ({
            let c = catalog()[i];
            &&& 1 <= c.channel <= c.band.grid().len() <= 64
            &&& c.frequency_hz == c.band.grid()[c.channel - 1]
            &&& 1_080_000_000 <= c.frequency_hz <= 5_945_000_000
        }),
{
}

pub proof fn lemma_carrier_bounds(f: u64)
    requires
        carriers().contains(f),
    ensures
        1_080_000_000 <= f <= 5_945_000_000,
{
    let i = carriers().index_of(f);
    lemma_catalog_entry(i);
}

/// A band's letter stands for that band alone.
pub proof fn law_codes_are_unambiguous(band: FpvBand, code: char)
    ensures
        band_of(band.letter()) == Some(band),
        band_of(code) == Some(band) ==> code == band.letter(),
{
}

/// Every channel of the plan is found under its own short name.
pub proof fn law_names_resolve_to_their_carrier(i: int)
    requires
        0 <= i < catalog().len(),
    ensures
        named_carrier(catalog()[i].name_text()) == Some(catalog()[i].frequency_hz),
{
    let c = catalog()[i];
    lemma_catalog_entry(i);
    lemma_decimal_round_trip(c.channel as nat);
    let name = c.name_text();
    let number = decimal(c.channel as nat);
    assert(is_digit(number.last()));
    assert(name.last() == number.last());
    assert(!is_blank(name[0]));
    assert(trim_front(name) == name);
    assert(trim_back(name) == name);
    assert(name.skip(1) =~= number);
    assert(is_digit(number[0]));
    assert(without_plus(number) == number);
    assert(upper(name[0]) == c.band.letter());
}

proof fn lemma_upper_names_the_same(name: Seq<char>)
    ensures
        named_carrier(upper_text(name)) == named_carrier(name),
{
    let t = trimmed(name);
    lemma_upper_text(name);
    if t.len() > 0 {
        lemma_upper_text(t);
        lemma_upper_text(t.skip(1));
        assert(upper_text(t).skip(1) =~= upper_text(t.skip(1)));
    }
}

/// Names that differ only in case stand for the same carrier.
pub proof fn law_case_does_not_matter(a: Seq<char>, b: Seq<char>)
    requires
        upper_text(a) == upper_text(b),
    ensures
        named_carrier(a) == named_carrier(b),
{
    lemma_upper_names_the_same(a);
    lemma_upper_names_the_same(b);
}

/// Every channel of the plan is found under its own short name in lower case
/// too.
pub proof fn law_lower_case_names_resolve(i: int)
    requires
        0 <= i < catalog().len(),
    ensures
        named_carrier(lower_text(catalog()[i].name_text())) == Some(catalog()[i].frequency_hz),
{
    let name = catalog()[i].name_text();
    law_names_resolve_to_their_carrier(i);
    lemma_lower_text(name);
    law_case_does_not_matter(lower_text(name), name);
}

/// Where a band's entries start in the catalog.
pub open spec fn first_entry(band: FpvBand) -> int {
    match band {
        FpvBand::BandA => 0,
        FpvBand::BandB => 8,
        FpvBand::BandE => 16,
        FpvBand::Fatshark => 24,
        FpvBand::Raceband => 32,
        FpvBand::BandD => 40,
        FpvBand::Lowband => 48,
        FpvBand::UltraLow => 56,
        FpvBand::Band1200Wide => 64,
        FpvBand::Band1200 => 73,
        FpvBand::Band2400 => 81,
        FpvBand::Band3300 => 90,
    }
}

/// Each band's entries stand together in the catalog, numbered from one in
/// the order of its grid, and nowhere else.
pub proof fn law_catalog_lists_each_band_in_order(band: FpvBand)
    ensures
        0 <= first_entry(band),
        first_entry(band) + band.grid().len() <= catalog().len(),
        band.grid().len() > 0,
        forall|k: int|
            #![trigger band.grid()[k]]
            0 <= k < band.grid().len() ==> catalog()[first_entry(band) + k] == (FpvChannel {
                band,
                channel: (k + 1) as u8,
                frequency_hz: band.grid()[k],
            }) && 1 <= k + 1 <= u8::MAX,
        forall|i: int|
            0 <= i < catalog().len() && (#[trigger] catalog()[i]).band == band
                ==> first_entry(band) <= i < first_entry(band) + band.grid().len(),
{
    assert forall|k: int|
        #![trigger band.grid()[k]]
        0 <= k < band.grid().len() implies catalog()[first_entry(band) + k] == (FpvChannel {
        band,
        channel: (k + 1) as u8,
        frequency_hz: band.grid()[k],
    }) && 1 <= k + 1 <= u8::MAX by {
        assert(catalog()[first_entry(band) + k] == band.entries()[k]);
    }
}

/// No two entries of the catalog share a band and a number, and every carrier
/// is positive. Carriers may repeat.
pub proof fn law_catalog_entries_are_distinct(i: int, j: int)
    requires
        0 <= i < catalog().len(),
        0 <= j < catalog().len(),
        catalog()[i].band == catalog()[j].band,
        catalog()[i].channel == catalog()[j].channel,
    ensures
        i == j,
        catalog()[i].frequency_hz > 0,
{
    let band = catalog()[i].band;
    law_catalog_lists_each_band_in_order(band);
    lemma_catalog_entry(i);
    let k = i - first_entry(band);
    let m = j - first_entry(band);
    assert(catalog()[first_entry(band) + k].channel == k + 1) by {
        let f = band.grid()[k];
    }
    assert(catalog()[first_entry(band) + m].channel == m + 1) by {
        let f = band.grid()[m];
    }
}

/// A name resolves only to the carrier of an entry of the plan.
pub proof fn law_resolved_names_are_listed(name: Seq<char>)
    requires
        named_carrier(name) is Some,
    ensures
        carriers().contains(named_carrier(name)->0),
{
    let t = trimmed(name);
    let band = band_of(upper(t[0]))->0;
    let n = byte_number(t.skip(1))->0;
    let k = first_entry(band) + (n - 1);
    assert(catalog()[k] == band.entries()[n - 1]);
    assert(carriers()[k] == named_carrier(name)->0);
}

/// Each channel's name is part of the label of its carrier.
pub proof fn law_labels_name_every_alias(i: int)
    requires
        0 <= i < catalog().len(),
    ensures
        aliases(catalog()[i].frequency_hz).contains(catalog()[i]),
{
    let c = catalog()[i];
    let p = |x: FpvChannel| x.frequency_hz == c.frequency_hz && leads(x);
    let q = |x: FpvChannel| x.frequency_hz == c.frequency_hz && !leads(x);
    broadcast use vstd::seq_lib::group_filter_ensures;

    if leads(c) {
        assert(catalog().filter(p).contains(c));
        let k = catalog().filter(p).index_of(c);
        assert(aliases(c.frequency_hz)[k] == c);
    } else {
        assert(catalog().filter(q).contains(c));
        let k = catalog().filter(q).index_of(c);
        assert(aliases(c.frequency_hz)[catalog().filter(p).len() + k] == c);
    }
}

/// A frequency has a label only if the plan lists it.
pub proof fn law_only_listed_carriers_have_labels(frequency_hz: u64)
    requires
        aliases(frequency_hz).len() > 0,
    ensures
        carriers().contains(frequency_hz),
{
    broadcast use vstd::seq_lib::group_filter_ensures;

    let p = |x: FpvChannel| x.frequency_hz == frequency_hz && leads(x);
    let q = |x: FpvChannel| x.frequency_hz == frequency_hz && !leads(x);
    let kept = if catalog().filter(p).len() > 0 {
        p
    } else {
        q
    };
    let c = catalog().filter(kept)[0];
    lemma_filter_keeps_members(catalog(), kept, 0);
    let k = catalog().index_of(c);
    assert(carriers()[k] == frequency_hz);
}

/// With no tolerance, a listed carrier is its own and only candidate.
pub proof fn law_carrier_is_its_own_candidate(frequency_hz: u64, found: Seq<u64>)
    requires
        carriers().contains(frequency_hz),
        ranked_candidates(carriers(), frequency_hz as i64, 0, found),
    ensures
        found == seq![frequency_hz],
{
    lemma_carrier_bounds(frequency_hz);
    assert(found.contains(frequency_hz));
    assert forall|k: int| 0 <= k < found.len() implies found[k] == frequency_hz by {
        assert(found.contains(found[k]));
    }
    if found.len() > 1 {
        assert(found[0] == found[1]);
    }
    assert(found =~= seq![frequency_hz]);
}

/// A listed carrier is read as itself.
pub proof fn law_listed_carriers_are_kept(frequency_hz: u64, r: i64)
    requires
        carriers().contains(frequency_hz),
        snaps_to(frequency_hz as i64, r),
    ensures
        r == frequency_hz,
{
    lemma_carrier_bounds(frequency_hz);
    assert(off(frequency_hz, frequency_hz as i64) == 0);
}

/// Reading a frequency again changes nothing.
pub proof fn law_snapping_twice_is_snapping_once(freq_hz: i64, once: i64, twice: i64)
    requires
        snaps_to(freq_hz, once),
        snaps_to(once, twice),
    ensures
        twice == once,
{
    if exists|f: u64|
        #![trigger carriers().contains(f)]
        carriers().contains(f) && off(f, freq_hz) < CHANNEL_SNAP_TOLERANCE_MHZ * 1_000_000 {
        law_listed_carriers_are_kept(once as u64, twice);
    }
}

/// A measurement has one reading.
pub proof fn law_snapping_is_unique(freq_hz: i64, a: i64, b: i64)
    requires
        snaps_to(freq_hz, a),
        snaps_to(freq_hz, b),
    ensures
        a == b,
{
    let s = carriers();
    if a != b {
        let f = a as u64;
        let g = b as u64;
        assert(s.contains(f) && s.contains(g));
        assert(listed_before(s, f, g) && listed_before(s, g, f));
        let k = choose|k: int| 0 <= k < s.len() && #[trigger] s[k] == f && !s.take(k).contains(g);
        let m = choose|m: int| 0 <= m < s.len() && #[trigger] s[m] == g && !s.take(m).contains(f);
        if k < m {
            assert(s.take(m)[k] == f);
        } else if m < k {
            assert(s.take(k)[m] == g);
        }
    }
}

/// The even grids keep their spacing from channel to channel, in megahertz:
/// A downwards by 20 and B upwards by 19, F by 20, R and D by 37, L by 40, S
/// by 25.
pub proof fn law_even_grids_keep_their_spacing(i: int)
    ensures
        0 <= i < 7 ==> {
            &&& FpvBand::BandA.grid()[i] - FpvBand::BandA.grid()[i + 1] == 20_000_000
            &&& FpvBand::BandB.grid()[i + 1] - FpvBand::BandB.grid()[i] == 19_000_000
            &&& FpvBand::Fatshark.grid()[i + 1] - FpvBand::Fatshark.grid()[i] == 20_000_000
            &&& FpvBand::Raceband.grid()[i + 1] - FpvBand::Raceband.grid()[i] == 37_000_000
            &&& FpvBand::BandD.grid()[i + 1] - FpvBand::BandD.grid()[i] == 37_000_000
            &&& FpvBand::Lowband.grid()[i + 1] - FpvBand::Lowband.grid()[i] == 40_000_000
        },
        0 <= i < 63 ==> FpvBand::Band3300.grid()[i + 1] - FpvBand::Band3300.grid()[i]
            == 25_000_000,
        FpvBand::BandA.grid()[0] == 5_865_000_000,
        FpvBand::BandB.grid()[0] == 5_733_000_000,
        FpvBand::Fatshark.grid()[0] == 5_740_000_000,
        FpvBand::Raceband.grid()[0] == 5_658_000_000,
        FpvBand::BandD.grid()[0] == 5_362_000_000,
        FpvBand::Lowband.grid()[0] == 5_333_000_000,
        FpvBand::Band3300.grid()[0] == 3_300_000_000,
{
}

/// The 5.8 GHz coverage holds exactly the channels from 5645 to 5945 MHz; the
/// whole coverage holds every one.
pub proof fn law_coverage_is_by_frequency(c: FpvChannel)
    ensures
        BandSelection::All.covers(c),
        BandSelection::Band58.covers(c) <==> 5_645 * 1_000_000 <= c.frequency_hz <= 5_945
            * 1_000_000,
{
}

/// A reading is a listed carrier less than 15 MHz off, to which no other is
/// nearer, or the measurement itself where no carrier is that near.
pub proof fn law_snapping_is_to_the_nearest(freq_hz: i64, r: i64, g: u64)
    requires
        snaps_to(freq_hz, r),
        carriers().contains(g),
    ensures
        r == freq_hz || -15_000_000 < r - freq_hz < 15_000_000 && r >= 0 && carriers().contains(
            r as u64,
        ),
        -15_000_000 < g - freq_hz < 15_000_000 ==> carriers().contains(r as u64) && (if r
            >= freq_hz {
            r - freq_hz
        } else {
            freq_hz - r
        }) <= (if g >= freq_hz {
            g - freq_hz
        } else {
            freq_hz - g
        }),
{
    if -15_000_000 < g - freq_hz < 15_000_000 {
        assert(off(g, freq_hz) < CHANNEL_SNAP_TOLERANCE_MHZ * 1_000_000);
    }
}

/// A label is that of the whole megahertz at most half a megahertz away.
pub proof fn law_labels_are_of_the_nearest_megahertz(freq_hz: u64)
    ensures
        nearest_mhz_hz(freq_hz) % 1_000_000 == 0,
        -500_000 < nearest_mhz_hz(freq_hz) - freq_hz <= 500_000,
{
}

} // verus!
