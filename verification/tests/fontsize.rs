use commedit_gtk::fontsize::{css, index_of, level_at, restyled, DEFAULT_PCT, LABELS, LEVELS};

#[test]
fn labels_match_the_levels() {
    assert_eq!(LABELS.len(), LEVELS.len());
    for (label, level) in LABELS.iter().zip(LEVELS) {
        assert_eq!(label.trim_end_matches('%').parse::<u32>().unwrap(), level);
    }
}

#[test]
fn levels_round_trip_through_the_dropdown_position() {
    for level in LEVELS {
        assert_eq!(level_at(index_of(level)), level);
    }
}

#[test]
fn unknown_levels_and_positions_fall_back_to_the_default() {
    // A config file naming a level we no longer offer, and a position past the
    // end of the list, both land on 100%.
    assert_eq!(level_at(index_of(133)), DEFAULT_PCT);
    assert_eq!(level_at(LEVELS.len() as u32), DEFAULT_PCT);
}

#[test]
fn the_default_level_carries_no_rule() {
    assert!(css(DEFAULT_PCT).is_empty());
    assert_eq!(css(150), "window { font-size: 150%; }");
}

#[test]
fn the_font_is_measured_from_the_second_frame_on() {
    assert!(!restyled(0));
    assert!(!restyled(1));
    assert!(restyled(2));
}
