use splitstream::sample::{ChannelLayout, BL, BR, FC, FL, FR, LFE};

#[test]
fn default_for_count_matches_named_consts() {
    assert_eq!(ChannelLayout::default_for_count(1), ChannelLayout::mono());
    assert_eq!(ChannelLayout::default_for_count(2), ChannelLayout::stereo());
    assert_eq!(ChannelLayout::default_for_count(4), ChannelLayout::quad());
    assert_eq!(ChannelLayout::default_for_count(6), ChannelLayout::surround_5_1());
    assert_eq!(ChannelLayout::default_for_count(8), ChannelLayout::surround_7_1());
}

#[test]
fn count_matches_the_channel_count_it_was_built_from() {
    for n in 1..=16u16 {
        assert_eq!(ChannelLayout::default_for_count(n).count(), n, "count mismatch for {n}");
    }
}

#[test]
fn from_mask_falls_back_on_zero_mask() {
    assert_eq!(ChannelLayout::from_mask(0, 6), ChannelLayout::surround_5_1());
}

#[test]
fn from_mask_falls_back_when_popcount_disagrees_with_channels() {
    // Real drivers report this: the mask claims 2 channels, the device says 6.
    let stereo_mask = ChannelLayout::stereo().0;
    assert_eq!(
        ChannelLayout::from_mask(stereo_mask, 6),
        ChannelLayout::surround_5_1()
    );
}

#[test]
fn from_mask_accepts_a_consistent_mask() {
    let mask = ChannelLayout::quad().0;
    assert_eq!(ChannelLayout::from_mask(mask, 4), ChannelLayout::quad());
}

#[test]
fn speakers_are_in_ascending_bit_order_not_declaration_order() {
    assert_eq!(
        ChannelLayout::surround_5_1().speakers(),
        vec![FL, FR, FC, LFE, BL, BR]
    );
}

#[test]
fn beyond_seven_one_extra_channels_are_unknown_position_not_colliding_with_named_speakers() {
    let ten = ChannelLayout::default_for_count(10);
    assert_eq!(ten.count(), 10);
    let known = ChannelLayout::surround_7_1();
    // Every known 7.1 speaker bit is still set.
    for &s in &known.speakers() {
        assert!(ten.speakers().contains(&s));
    }
}

#[test]
fn the_widest_layout_has_every_channel() {
    assert_eq!(ChannelLayout::default_for_count(29).count(), 29);
    assert_eq!(ChannelLayout::default_for_count(0).count(), 0);
    // A mask has no room for more.
    for channels in [30, 31, 64, u16::MAX] {
        let full = ChannelLayout::default_for_count(channels);
        assert_eq!(full, ChannelLayout::default_for_count(29));
        assert_eq!(ChannelLayout::from_mask(0, channels), full);
    }
}

#[test]
fn named_layouts_have_the_masks_of_the_system() {
    assert_eq!(ChannelLayout::mono().0, 0x4);
    assert_eq!(ChannelLayout::stereo().0, 0x3);
    assert_eq!(ChannelLayout::quad().0, 0x33);
    assert_eq!(ChannelLayout::surround_5_1().0, 0x3f);
    assert_eq!(ChannelLayout::surround_7_1().0, 0x63f);
}
