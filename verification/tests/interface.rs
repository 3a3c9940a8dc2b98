use unbox::text::{decimal, path_label};
use unbox::theme::Theme;

#[test]
fn theme_toggle_and_labels() {
    let mut t = Theme::default();
    assert_eq!(t, Theme::Dark);
    assert_eq!(t.label(), "🌙 Dark");
    t.toggle();
    assert_eq!(t, Theme::Light);
    assert_eq!(t.label(), "☀️ Light");
    t.toggle();
    assert_eq!(t, Theme::Dark);
}

#[test]
fn decimal_numbers() {
    assert_eq!(decimal(0), "0");
    assert_eq!(decimal(7), "7");
    assert_eq!(decimal(10), "10");
    assert_eq!(decimal(1234567890), "1234567890");
    assert_eq!(decimal(usize::MAX), usize::MAX.to_string());
}

#[test]
fn path_labels() {
    assert_eq!(path_label("/data/dssad_data"), "/data/dssad_data");
    let fifty = "a".repeat(50);
    assert_eq!(path_label(&fifty), fifty);
    let long = format!("/home/user/{}", "b".repeat(60));
    assert_eq!(path_label(&long), format!("...{}", &long[long.len() - 47..]));
    // two-byte characters: the last 47 bytes start at a character
    let wide = format!("x{}y", "é".repeat(30));
    assert_eq!(path_label(&wide), format!("...{}", &wide[wide.len() - 47..]));
}
