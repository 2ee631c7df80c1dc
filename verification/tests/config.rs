use selector::config::{config_path_from, resolve_path, Color, ColorError, Colors, Config, Layer};

#[test]
fn opaque_colors_survive_premultiplication() {
    let argb = Color::rgba(0x12, 0x34, 0x56, 0xff).to_argb8888();
    assert_eq!(argb, [0x56, 0x34, 0x12, 0xff]);
}

#[test]
fn half_alpha_scales_the_color_channels() {
    let argb = Color::rgba(0xff, 0xff, 0xff, 0x80).to_argb8888();
    assert_eq!(argb, [0x80, 0x80, 0x80, 0x80]);
}

#[test]
fn zero_alpha_clears_every_channel() {
    assert_eq!(Color::rgba(0xff, 0xff, 0xff, 0).to_argb8888(), [0, 0, 0, 0]);
}

#[test]
fn hex_parses_with_and_without_alpha() {
    assert_eq!(
        Color::from_hex("#4c9ed9").unwrap(),
        Color::rgba(0x4c, 0x9e, 0xd9, 0xff)
    );
    assert_eq!(
        Color::from_hex("#4c9ed940").unwrap(),
        Color::rgba(0x4c, 0x9e, 0xd9, 0x40)
    );
    assert_eq!(
        Color::from_hex("4c9ed9").unwrap(),
        Color::rgba(0x4c, 0x9e, 0xd9, 0xff)
    );
}

#[test]
fn hex_rejects_bad_input() {
    assert!(Color::from_hex("#abc").is_err(), "wrong digit count");
    assert!(Color::from_hex("#gggggg").is_err(), "not hex digits");
    assert!(Color::from_hex("").is_err(), "empty");
}

#[test]
fn hex_errors_say_why() {
    assert_eq!(Color::from_hex("#abc"), Err(ColorError::WrongLength));
    assert_eq!(Color::from_hex("#gggggg"), Err(ColorError::NotHex));
    assert_eq!(Color::from_hex(""), Err(ColorError::WrongLength));
    assert_eq!(Color::from_hex("##4c9ed9"), Err(ColorError::NotHex));
    assert_eq!(Color::from_hex("#4C9ED9ff"), Ok(Color::rgba(0x4c, 0x9e, 0xd9, 0xff)));
}

#[test]
fn premultiplication_rounds_to_nearest() {
    assert_eq!(Color::rgba(0x4c, 0x9e, 0xd9, 0x40).to_argb8888(), [0x36, 0x28, 0x13, 0x40]);
    assert!(Color::rgba(1, 2, 3, 0).is_transparent());
    assert!(!Color::rgba(1, 2, 3, 1).is_transparent());
}

#[test]
fn every_layer_name_is_known() {
    for (name, expected) in [
        ("background", Layer::Background),
        ("bottom", Layer::Bottom),
        ("top", Layer::Top),
        ("overlay", Layer::Overlay),
    ] {
        assert_eq!(Layer::from_name(name), Some(expected));
    }
}

#[test]
fn an_unknown_layer_name_is_refused() {
    assert_eq!(Layer::from_name("middle"), None);
    assert_eq!(Layer::from_name("Bottom"), None);
}

#[test]
fn defaults_match_the_documented_example() {
    let c = Config::default();
    assert_eq!(c.fill, Color::from_hex("#4c9ed940").unwrap());
    assert_eq!(c.border, Color::from_hex("#4c9ed9cc").unwrap());
    assert_eq!(c.border_width, 1);
    assert_eq!(c.corner_radius, 0);
    assert_eq!(c.layer, Layer::Bottom);
    assert_eq!(c.drag_threshold, 3 * 256);
    assert!(!c.blur);
    assert_eq!(c.colors, None);
}

fn colors(fill: Option<&str>, border: Option<&str>) -> Colors {
    Colors::new(
        fill.map(|t| Color::from_hex(t).unwrap()),
        border.map(|t| Color::from_hex(t).unwrap()),
    )
}

#[test]
fn a_colour_file_overrides_the_main_config() {
    let mut config = Config::default();
    config.apply_colors(colors(Some("#11223344"), Some("#556677")));

    assert_eq!(config.fill, Color::rgba(0x11, 0x22, 0x33, 0x44));
    assert_eq!(config.border, Color::rgba(0x55, 0x66, 0x77, 0xff));
}

#[test]
fn a_partial_colour_file_leaves_the_other_colour_alone() {
    let mut config = Config::default();
    let untouched = config.border;
    config.apply_colors(colors(Some("#11223344"), None));

    assert_eq!(config.fill, Color::rgba(0x11, 0x22, 0x33, 0x44));
    assert_eq!(config.border, untouched);
}

#[test]
fn an_empty_colour_file_changes_nothing() {
    let mut config = Config::default();
    config.apply_colors(colors(None, None));

    assert_eq!(config.fill, Config::default().fill);
    assert_eq!(config.border, Config::default().border);
}

#[test]
fn paths_expand_tilde_and_resolve_relative_against_the_base() {
    let home = "/home/someone";
    let base = "/etc/selector";

    assert_eq!(
        resolve_path("~/.config/c.toml", base, Some(home)),
        "/home/someone/.config/c.toml"
    );
    assert_eq!(resolve_path("c.toml", base, Some(home)), "/etc/selector/c.toml");
    assert_eq!(
        resolve_path("/absolute/c.toml", base, Some(home)),
        "/absolute/c.toml"
    );
}

#[test]
fn a_tilde_path_is_left_alone_without_a_home() {
    assert_eq!(resolve_path("~/c.toml", "/etc", None), "/etc/~/c.toml");
}

#[test]
fn a_tilde_must_be_a_whole_component() {
    assert_eq!(resolve_path("~x/c.toml", "/etc", Some("/home/a")), "/etc/~x/c.toml");
    assert_eq!(resolve_path("~", "/etc", Some("/home/a")), "/home/a/");
}

#[test]
fn the_config_lives_under_xdg_config_home_or_home() {
    assert_eq!(
        config_path_from(Some("/xdg"), Some("/home/a")),
        Some("/xdg/selector/config.toml".to_string())
    );
    assert_eq!(
        config_path_from(Some(""), Some("/home/a")),
        Some("/home/a/.config/selector/config.toml".to_string())
    );
    assert_eq!(
        config_path_from(None, Some("/home/a/")),
        Some("/home/a/.config/selector/config.toml".to_string())
    );
    assert_eq!(config_path_from(None, None), None);
    assert_eq!(config_path_from(Some(""), None), None);
}

#[test]
fn joining_adds_one_separator_only_where_needed() {
    assert_eq!(resolve_path("c.toml", "/etc/", None), "/etc/c.toml");
    assert_eq!(resolve_path("c.toml", "", None), "c.toml");
    assert_eq!(resolve_path("/abs", "", None), "/abs");
}
