use commedit_gtk::window_state::{set_positive, WindowState};

#[test]
fn window_state_round_trips_through_text() {
    let s = WindowState {
        width: 1234,
        height: 567,
        maximized: true,
        list_width: 321,
        message_height: 89,
    };
    let back = WindowState::from_text(&s.to_text());
    assert_eq!(back.width, 1234);
    assert_eq!(back.height, 567);
    assert!(back.maximized);
    assert_eq!(back.list_width, 321);
    assert_eq!(back.message_height, 89);
}

#[test]
fn missing_keys_keep_defaults() {
    let d = WindowState::default();
    // Only the width is present; every other field falls back to its default.
    let s = WindowState::from_text("width=1000\n");
    assert_eq!(s.width, 1000);
    assert_eq!(s.height, d.height);
    assert_eq!(s.list_width, d.list_width);
    assert_eq!(s.message_height, d.message_height);
    assert_eq!(s.maximized, d.maximized);
}

#[test]
fn garbage_and_non_positive_values_are_ignored() {
    let d = WindowState::default();
    let s = WindowState::from_text(
        "width=oops\nheight=0\nlist_width=-5\nmessage_height=\nnonsense\n=42\n",
    );
    assert_eq!(s.width, d.width);
    assert_eq!(s.height, d.height);
    assert_eq!(s.list_width, d.list_width);
    assert_eq!(s.message_height, d.message_height);
}

#[test]
fn maximized_is_strict_about_true() {
    assert!(WindowState::from_text("maximized=true\n").maximized);
    assert!(!WindowState::from_text("maximized=false\n").maximized);
    assert!(!WindowState::from_text("maximized=1\n").maximized);
    assert!(!WindowState::default().maximized);
}

#[test]
fn the_text_lists_every_field() {
    assert_eq!(
        WindowState::default().to_text(),
        "width=1400\nheight=900\nmaximized=false\nlist_width=480\nmessage_height=200\n"
    );
    let s = WindowState { width: -1400, ..WindowState::default() };
    assert!(s.to_text().starts_with("width=-1400\n"));
}

#[test]
fn the_last_good_value_counts() {
    let s = WindowState::from_text(" width = 10 \r\nwidth=+20\nwidth=0\nwidth=99999999999\n");
    assert_eq!(s.width, 20);
}

#[test]
fn only_positive_numbers_are_taken() {
    let mut n = 5;
    set_positive(&mut n, "-1");
    assert_eq!(n, 5);
    set_positive(&mut n, "2147483648");
    assert_eq!(n, 5);
    set_positive(&mut n, "2147483647");
    assert_eq!(n, 2147483647);
}

#[test]
fn a_line_overrides_only_where_it_can_be_read() {
    let s = WindowState::from_text("width=1000\nmaximized=true\nwidth=oops\nmaximized=oops\n");
    assert_eq!(s.width, 1000);
    assert!(s.maximized);
    assert!(!WindowState::from_text("maximized=true\nmaximized= false \n").maximized);
    assert!(WindowState::from_text("maximized=true\nmaximized=\nmaximized=True\n").maximized);
}

#[test]
fn sizes_that_are_not_positive_come_back_as_defaults() {
    let d = WindowState::default();
    let s = WindowState {
        width: -1,
        height: 0,
        maximized: true,
        list_width: 7,
        message_height: i32::MIN,
    };
    let back = WindowState::from_text(&s.to_text());
    assert_eq!(
        back,
        WindowState {
            width: d.width,
            height: d.height,
            maximized: true,
            list_width: 7,
            message_height: d.message_height,
        }
    );
}
