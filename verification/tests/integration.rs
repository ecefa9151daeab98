use hyprparser::{parse_config, HyprlandConfig};

const TEST_CONFIG: &str = "envcursor {\n    no_hardware_cursors = true\n}\n\ninput {\n    accel_profile = flat\n}\n\ngeneral {\n    gaps_in = 5\n    gaps_out = 20\n    col.active_border = rgb(BDBDBD)\n    allow_tearing = false\n    layout = master\n}\n\n$terminal = kitty\n\n$mainMod = super\n\nbind = $mainMod, RETURN, exec, $terminal\n\nbind = $mainMod, 1, workspace, 1\n\nbind = $mainMod SHIFT, 1, movetoworkspacesilent, 1\n\nbindm = $mainMod, mouse:272, movewindow\nbindm = $mainMod, mouse:273, resizewindow";

#[test]
fn config_parsing() {
    // this will fail if parse_config fails
    let config = parse_config(TEST_CONFIG);
    assert_eq!(config.render(), TEST_CONFIG);
    assert_eq!(config.get_section("general"), Some((8, 14)));
    assert_eq!(config.get_section("input"), Some((4, 6)));
    assert_eq!(config.get_section("envcursor"), Some((0, 2)));
    assert_eq!(config.get_section("missing"), None);
}

#[test]
fn entry_adding() {
    let config_parsed = parse_config(TEST_CONFIG);
    let mut config = HyprlandConfig::new();

    config.add_entry("envcursor", "no_hardware_cursors = true");
    config.add_entry("input", "accel_profile = flat");
    config.add_entry("general", "gaps_in = 5");
    config.add_entry("general", "gaps_out = 20");
    config.add_entry("general", "col.active_border = rgb(BDBDBD)");
    config.add_entry("general", "allow_tearing = false");
    config.add_entry("general", "layout = master");
    config.add_entry_headless("$terminal", "kitty");
    config.add_entry_headless("", "");
    config.add_entry_headless("$mainMod", "super");
    config.add_entry_headless("", "");
    config.add_entry_headless("bind", "$mainMod, RETURN, exec, $terminal");
    config.add_entry_headless("", "");
    config.add_entry_headless("bind", "$mainMod, 1, workspace, 1");
    config.add_entry_headless("", "");
    config.add_entry_headless("bind", "$mainMod SHIFT, 1, movetoworkspacesilent, 1");
    config.add_entry_headless("", "");
    config.add_entry_headless("bindm", "$mainMod, mouse:272, movewindow");
    config.add_entry_headless("bindm", "$mainMod, mouse:273, resizewindow");

    assert_eq!(config_parsed.render(), config.render());
    assert_eq!(config.render(), TEST_CONFIG);
    for path in ["envcursor", "input", "general"] {
        assert_eq!(config_parsed.get_section(path), config.get_section(path));
    }
}

#[test]
fn color_parsing() {
    let config = HyprlandConfig::new();

    // the payloads of the `rgba(..)` and `rgb(..)` forms are plain hex
    // digits; comma/decimal-separated components are rejected
    assert_eq!(config.parse_color("rgba(30, 70, 50, 1.0)"), None);
    assert_eq!(config.parse_color("rgb(30, 70, 50)"), None);

    let expected = Some((30u8, 70u8, 50u8, 255u8));
    assert_eq!(config.parse_color("0xFF1E4632"), expected);
    assert_eq!(config.parse_color("rgba(1e4632ff)"), expected);
    assert_eq!(config.parse_color("rgb(1e4632)"), expected);
}

#[test]
fn color_parsing_errors() {
    let config = HyprlandConfig::new();
    assert_eq!(config.parse_color("hsl(120, 50, 50)"), None);
    assert_eq!(config.parse_color("rgba()"), None);
    assert_eq!(config.parse_color("rgb(xyz)"), None);
    assert_eq!(config.parse_color("0x"), None);
    assert_eq!(config.parse_color("0x1FF1E4632"), None); // overflows 32 bits
    assert_eq!(config.parse_color(""), None);
    // uppercase digits and a leading + are accepted, as from_str_radix does
    assert_eq!(config.parse_color("rgba(+1E4632FF)"), Some((30, 70, 50, 255)));
}

#[test]
fn color_formatting() {
    let config = HyprlandConfig::new();
    assert_eq!(config.format_color(30, 70, 50, 255), "rgba(1e4632ff)");
    assert_eq!(config.format_color(0, 0, 0, 0), "rgba(00000000)");
    assert_eq!(config.format_color(255, 255, 255, 255), "rgba(ffffffff)");
}

#[test]
fn color_round_trip() {
    let config = HyprlandConfig::new();
    // 0xAARRGGBB in, rgba(RRGGBBAA) out
    let parsed = config.parse_color("0xFF1E4632").unwrap();
    assert_eq!(parsed, (30, 70, 50, 255));
    let formatted = config.format_color(parsed.0, parsed.1, parsed.2, parsed.3);
    assert_eq!(formatted, "rgba(1e4632ff)");
    assert_eq!(config.parse_color(&formatted), Some(parsed));
    for &(r, g, b, a) in &[(0u8, 0u8, 0u8, 0u8), (1, 2, 3, 4), (171, 205, 239, 18)] {
        let s = config.format_color(r, g, b, a);
        assert_eq!(config.parse_color(&s), Some((r, g, b, a)));
    }
}

#[test]
fn nested_section_creation() {
    let mut config = HyprlandConfig::new();
    config.add_entry("general.sub.leaf", "k = v");
    let expected = "general {\n\n    sub {\n\n        leaf {\n            k = v\n        }\n\n    }\n\n}\n";
    assert_eq!(config.render(), expected);
    assert_eq!(config.get_section("general"), Some((0, 10)));
    assert_eq!(config.get_section("general.sub"), Some((2, 8)));
    assert_eq!(config.get_section("general.sub.leaf"), Some((4, 6)));
}

#[test]
fn same_key_overwrites() {
    let mut config = HyprlandConfig::new();
    config.add_entry("general", "gaps_in = 5");
    let first = config.render();
    config.add_entry("general", "gaps_in = 10");
    assert_eq!(config.render(), "general {\n    gaps_in = 10\n}\n");
    assert_eq!(config.render().lines().count(), first.lines().count());
    // the very same entry twice changes nothing the second time
    config.add_entry("general", "gaps_in = 10");
    assert_eq!(config.render(), "general {\n    gaps_in = 10\n}\n");
}

#[test]
fn headless_blank_not_deduplicated() {
    let mut config = HyprlandConfig::new();
    config.add_entry_headless("", "");
    config.add_entry_headless("", "");
    assert_eq!(config.render(), "\n");
}

#[test]
fn headless_entry_deduplicated() {
    let mut config = HyprlandConfig::new();
    config.add_entry_headless("$mainMod", "super");
    config.add_entry_headless("$mainMod", "super");
    assert_eq!(config.render(), "$mainMod = super");
}

#[test]
fn entry_into_parsed_section() {
    let mut config = parse_config("general {\n    gaps_in = 5\n}");
    config.add_entry("general", "gaps_out = 20");
    assert_eq!(
        config.render(),
        "general {\n    gaps_in = 5\n    gaps_out = 20\n}"
    );
    assert_eq!(config.get_section("general"), Some((0, 3)));
    assert_eq!(config.get_section("general.gaps_in"), None);
}

#[test]
fn parse_render_round_trip() {
    let text = "a {\n    x = 1\n    b {\n        y = 2\n    }\n}";
    let config = parse_config(text);
    assert_eq!(config.render(), text);
    // re-parsing the rendered text finds the same sections
    let again = parse_config(&config.render());
    assert_eq!(again.get_section("a"), config.get_section("a"));
    assert_eq!(again.get_section("a.b"), config.get_section("a.b"));
    assert_eq!(again.render(), config.render());
}

#[test]
fn malformed_braces_tolerated() {
    // an unmatched closer is ignored
    let config = parse_config("}\nx = 1");
    assert_eq!(config.render(), "}\nx = 1");
    // an unterminated section never reaches the index
    let config = parse_config("a {\nx = 1");
    assert_eq!(config.get_section("a"), None);
    assert_eq!(config.render(), "a {\nx = 1");
}

#[test]
fn nested_paths_indexed() {
    let config = parse_config("a {\n    b {\n    }\n}");
    assert_eq!(config.get_section("a"), Some((0, 3)));
    assert_eq!(config.get_section("a.b"), Some((1, 2)));
    assert_eq!(config.get_section("b"), None);
}

#[test]
fn empty_path_segment_is_literal() {
    let mut config = HyprlandConfig::new();
    config.add_entry("", "k = v");
    assert_eq!(config.get_section(""), Some((0, 2)));
    assert_eq!(config.render(), " {\n    k = v\n}\n");
}

#[test]
fn key_prefix_match_sharp_edge() {
    // locating an entry is a prefix test on the trimmed line: a key that
    // prefixes another key overwrites that other key's line
    let mut config = parse_config("general {\n    gaps_in_extra = 1\n}");
    config.add_entry("general", "gaps_in = 5");
    assert_eq!(config.render(), "general {\n    gaps_in = 5\n}");
}

#[test]
fn default_is_empty() {
    let config = HyprlandConfig::default();
    assert_eq!(config.render(), "");
    assert_eq!(config.get_section("anything"), None);
}

#[test]
fn crlf_line_endings_normalized() {
    let config = parse_config("a {\r\n    x = 1\r\n}");
    assert_eq!(config.render(), "a {\n    x = 1\n}");
    assert_eq!(config.get_section("a"), Some((0, 2)));
}

#[test]
fn duplicate_section_name_last_wins() {
    let config = parse_config("a {\n}\na {\n    x = 1\n}");
    assert_eq!(config.get_section("a"), Some((2, 4)));
    assert_eq!(config.render(), "a {\n}\na {\n    x = 1\n}");
}
