use tuirunner::components::help_bar::HelpBar;

#[test]
fn test_estimate_height_interactive() {
    assert_eq!(HelpBar::estimate_height(true, 80), 1);
    assert_eq!(HelpBar::estimate_height(true, 30), 1);
    assert_eq!(HelpBar::estimate_height(true, 15), 3);
}

#[test]
fn test_estimate_height_standard() {
    assert_eq!(HelpBar::estimate_height(false, 160), 1);
    assert_eq!(HelpBar::estimate_height(false, 80), 2);
    assert_eq!(HelpBar::estimate_height(false, 50), 4);
    assert!(HelpBar::estimate_height(false, 20) >= 8);
}

#[test]
fn height_is_at_least_one_even_with_no_width() {
    assert!(HelpBar::estimate_height(false, 0) >= 1);
    assert!(HelpBar::estimate_height(true, 0) >= 1);
    assert_eq!(HelpBar::estimate_height(false, u16::MAX), 1);
}

#[test]
fn plain_text_is_the_segments_joined() {
    let joined: String = HelpBar::segments(false).iter().map(|(t, _)| *t).collect();
    assert_eq!(HelpBar::plain_text(false), joined);
    let joined_i: String = HelpBar::segments(true).iter().map(|(t, _)| *t).collect();
    assert_eq!(HelpBar::plain_text(true), joined_i);
    assert!(HelpBar::plain_text(true).contains("Esc"));
}

#[test]
fn one_row_exactly_from_the_text_width() {
    assert_eq!(HelpBar::estimate_height(false, 147), 1);
    assert!(HelpBar::estimate_height(false, 146) >= 2);
    assert_eq!(HelpBar::estimate_height(true, 29), 1);
    assert!(HelpBar::estimate_height(true, 28) >= 2);
    assert_eq!(HelpBar::estimate_height(false, 0), HelpBar::estimate_height(false, 1));
    assert_eq!(HelpBar::estimate_height(true, 0), HelpBar::estimate_height(true, 1));
}
