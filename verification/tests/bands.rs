use orecchiette_fpv_analog::bands::{
    candidate_frequencies, channel_catalog, channel_name, get_all_channels,
    get_candidate_fpv_channels, get_fpv_channel_name, get_3300_freqs, lookup_channel_by_name,
    snap_to_nearest_fpv_channel, BandSelection, FpvBand, BAND_1200_WIDE_FREQS,
};
use std::collections::HashSet;

#[test]
fn lookup_known_channels() {
    assert_eq!(lookup_channel_by_name("A1"), Some(5_865_000_000));
    assert_eq!(lookup_channel_by_name("a1"), Some(5_865_000_000));
    assert_eq!(lookup_channel_by_name("A8"), Some(5_725_000_000));
    assert_eq!(lookup_channel_by_name("R1"), Some(5_658_000_000));
    assert_eq!(lookup_channel_by_name("R8"), Some(5_917_000_000));
    assert_eq!(lookup_channel_by_name("F1"), Some(5_740_000_000));
    assert_eq!(lookup_channel_by_name("F8"), Some(5_880_000_000));
    assert_eq!(lookup_channel_by_name("B4"), Some(5_790_000_000));
    assert_eq!(lookup_channel_by_name("E1"), Some(5_705_000_000));
    assert_eq!(lookup_channel_by_name("L1"), Some(5_333_000_000));
    assert_eq!(lookup_channel_by_name("L8"), Some(5_613_000_000));
    assert_eq!(lookup_channel_by_name("D1"), Some(5_362_000_000));
    assert_eq!(lookup_channel_by_name("D8"), Some(5_621_000_000));
}

#[test]
fn lookup_invalid_channels() {
    assert_eq!(lookup_channel_by_name("A0"), None);
    assert_eq!(lookup_channel_by_name("A9"), None);
    assert_eq!(lookup_channel_by_name("X1"), None);
    assert_eq!(lookup_channel_by_name(""), None);
    assert_eq!(lookup_channel_by_name("A"), None);
    assert_eq!(lookup_channel_by_name("1A"), None);
}

#[test]
fn lookup_non_ascii_safety() {
    assert_eq!(lookup_channel_by_name("你好"), None);
    assert_eq!(lookup_channel_by_name("A\u{301}"), None);
    assert_eq!(lookup_channel_by_name("東1"), None);
}

#[test]
fn lookup_whitespace_tolerance() {
    assert_eq!(lookup_channel_by_name(" A1 "), Some(5_865_000_000));
    assert_eq!(lookup_channel_by_name("  r4  "), Some(5_769_000_000));
}

#[test]
fn wide_1200_grid_matches_the_vtx_menu() {
    // CH1-CH8 step 40 MHz from 1080; CH9 is the odd 1258 slot.
    for (i, w) in BAND_1200_WIDE_FREQS[..8].windows(2).enumerate() {
        assert_eq!(w[1] - w[0], 40_000_000, "CH{} -> CH{}", i + 1, i + 2);
    }
    assert_eq!(BAND_1200_WIDE_FREQS[0], 1_080_000_000);
    assert_eq!(BAND_1200_WIDE_FREQS[7], 1_360_000_000);
    assert_eq!(BAND_1200_WIDE_FREQS[8], 1_258_000_000);
    let all = get_all_channels();
    let wide: Vec<_> = all
        .iter()
        .filter(|c| c.band == FpvBand::Band1200Wide)
        .collect();
    assert_eq!(wide.len(), 9);
    assert_eq!(wide[8].channel, 9);
    assert_eq!(wide[8].frequency_hz, 1_258_000_000);
    // The scan plan reaches the low end of the long-range band.
    assert!(all.iter().any(|c| c.frequency_hz == 1_080_000_000));
}

#[test]
fn all_channels_non_empty() {
    let channels = get_all_channels();
    assert!(!channels.is_empty());
    // Every channel should have a non-zero frequency
    for ch in &channels {
        assert!(ch.frequency_hz > 0);
    }
}

#[test]
fn every_catalog_entry_round_trips_and_is_a_snap_candidate() {
    for channel in channel_catalog() {
        assert_eq!(
            lookup_channel_by_name(&channel.name()),
            Some(channel.frequency_hz)
        );
        assert!(channel_name(channel.frequency_hz)
            .unwrap()
            .contains(&channel.display_name()));
        assert_eq!(
            candidate_frequencies(Some(channel.frequency_hz as i64), 0),
            vec![channel.frequency_hz]
        );
    }
    assert_eq!(lookup_channel_by_name("U4"), Some(5_373_000_000));
    assert_eq!(lookup_channel_by_name("T8"), Some(2_450_000_000));
    let aliases = candidate_frequencies(Some(2_460_000_000), 20_000_000);
    assert_eq!(
        aliases.len(),
        aliases.iter().copied().collect::<HashSet<_>>().len()
    );
    assert!(candidate_frequencies(None, 15_000_000).is_empty());
}

#[test]
fn the_3300_grid_is_even() {
    let freqs = get_3300_freqs();
    assert_eq!(freqs.first(), Some(&FpvBand::Band3300.frequencies()[0]));
    for w in freqs.windows(2) {
        assert!(w[1] > w[0]);
        assert_eq!(w[1] - w[0], freqs[1] - freqs[0]);
    }
}

#[test]
fn band_codes_are_distinct() {
    let codes: HashSet<char> = channel_catalog().iter().map(|c| c.band.code()).collect();
    let bands: HashSet<String> = channel_catalog()
        .iter()
        .map(|c| format!("{:?}", c.band))
        .collect();
    assert_eq!(codes.len(), bands.len());
}

#[test]
fn labels_name_every_alias_of_a_carrier() {
    let label = get_fpv_channel_name(5_880_000_000).unwrap();
    for c in channel_catalog() {
        if c.frequency_hz == 5_880_000_000 {
            assert!(label.contains(&c.display_name()), "{label}");
        }
    }
    assert_eq!(get_fpv_channel_name(5_801_234_567), None);
}

#[test]
fn candidates_are_ranked_by_distance() {
    let found = get_candidate_fpv_channels(5_801_000_000);
    assert_eq!(found[0], 5_800_000_000);
    for w in found.windows(2) {
        assert!(w[0].abs_diff(5_801_000_000) <= w[1].abs_diff(5_801_000_000));
    }
}

#[test]
fn snapping_keeps_off_table_measurements() {
    assert_eq!(snap_to_nearest_fpv_channel(5_866_400_000), 5_866_000_000);
    assert_eq!(snap_to_nearest_fpv_channel(7_000_000_000), 7_000_000_000);
    assert_eq!(snap_to_nearest_fpv_channel(-5), -5);
    let once = snap_to_nearest_fpv_channel(5_803_000_000);
    assert_eq!(snap_to_nearest_fpv_channel(once), once);
}

#[test]
fn selections_are_part_of_the_catalog() {
    let all = channel_catalog();
    for c in BandSelection::All.channels() {
        assert!(all.contains(&c));
    }
}

#[test]
fn snapping_twice_is_snapping_once() {
    for mhz in 5_300..5_960i64 {
        let once = snap_to_nearest_fpv_channel(mhz * 1_000_000);
        assert_eq!(snap_to_nearest_fpv_channel(once), once, "{mhz} MHz");
    }
}

#[test]
fn names_are_found_in_either_case() {
    for channel in channel_catalog() {
        let name = channel.name();
        let carrier = Some(channel.frequency_hz);
        assert_eq!(lookup_channel_by_name(&name.to_lowercase()), carrier, "{name}");
        assert_eq!(lookup_channel_by_name(&format!(" {} ", name.to_lowercase())), carrier);
    }
}

#[test]
fn each_band_is_listed_in_order_and_once() {
    let catalog = channel_catalog();
    assert_eq!(catalog.len(), 90 + get_3300_freqs().len());
    let mut seen = HashSet::new();
    let mut last: Option<(char, u8)> = None;
    for c in &catalog {
        let code = c.band.code();
        assert!(seen.insert((code, c.channel)));
        assert!(c.frequency_hz > 0);
        // A band starts with one and counts on.
        match last {
            Some((l, n)) if l == code => assert_eq!(c.channel, n + 1),
            _ => assert_eq!(c.channel, 1),
        }
        assert_eq!(c.band.frequencies()[c.channel as usize - 1], c.frequency_hz);
        last = Some((code, c.channel));
    }
}
