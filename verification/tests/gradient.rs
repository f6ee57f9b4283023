use niri_taskbar::gradient::{
    default_cycle_ms, default_fade_ms, Config, Gradient, Hue, Space,
};

fn config(space: Option<&str>) -> Config {
    Config {
        from: "#a0a".to_string(),
        to: "#0ec".to_string(),
        space: space.map(|s| s.to_string()),
        cycle_ms: default_cycle_ms(),
        fade_ms: default_fade_ms(),
    }
}

#[test]
fn rejects_unknown_space() {
    assert!(Space::parse("hsl").is_err());
}

#[test]
fn knows_every_space() {
    assert_eq!(Space::parse("srgb"), Ok(Space::Srgb));
    assert_eq!(Space::parse(" srgb-linear "), Ok(Space::SrgbLinear));
    assert_eq!(Space::parse("oklab"), Ok(Space::Oklab));
    assert_eq!(Space::parse("oklch"), Ok(Space::Oklch(Hue::Shorter)));
    assert_eq!(Space::parse("oklch shorter hue"), Ok(Space::Oklch(Hue::Shorter)));
    assert_eq!(Space::parse("oklch longer  hue"), Ok(Space::Oklch(Hue::Longer)));
    assert_eq!(Space::parse("oklch increasing hue"), Ok(Space::Oklch(Hue::Increasing)));
    assert_eq!(Space::parse("oklch decreasing hue"), Ok(Space::Oklch(Hue::Decreasing)));
}

#[test]
fn unknown_spaces_are_quoted_in_the_error() {
    assert_eq!(
        Space::parse("a \"b\""),
        Err("unknown colour space \"a \\\"b\\\"\"".to_string())
    );
    assert!(Space::parse("oklch longer").is_err());
    assert!(Space::parse("").is_err());
}

#[test]
fn a_gradient_takes_what_its_configuration_says() {
    let g = Gradient::parse(&config(Some("oklab")), Some(1u8), Some(2u8));
    assert_eq!(
        g,
        Ok(Gradient {
            from: 1u8,
            to: 2u8,
            space: Space::Oklab,
            cycle_ms: 2000,
            fade_ms: 250,
        })
    );
    let g = Gradient::parse(&config(None), Some(1u8), Some(2u8));
    assert_eq!(g.map(|g| g.space), Ok(Space::Srgb));
}

#[test]
fn a_gradient_says_what_is_wrong_with_it() {
    let c = config(Some("hsl"));
    assert_eq!(
        Gradient::parse(&c, None, Some(2u8)),
        Err("cannot parse colour \"#a0a\"".to_string())
    );
    assert_eq!(
        Gradient::parse(&c, Some(1u8), None),
        Err("cannot parse colour \"#0ec\"".to_string())
    );
    assert_eq!(
        Gradient::parse(&c, Some(1u8), Some(2u8)),
        Err("unknown colour space \"hsl\"".to_string())
    );
}

#[test]
fn the_default_space_is_srgb() {
    assert_eq!(Space::default(), Space::Srgb);
}
