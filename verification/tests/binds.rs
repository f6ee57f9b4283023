use niri_taskbar::binds::{bind, config_path, read_section, Bind, Binds, ConfigPath, Loader};
use niri_taskbar::kdl::{parse, try_parse};

fn binds(source: &str) -> Vec<Bind> {
    parse(source)
        .into_iter()
        .filter(|node| node.name == "binds")
        .flat_map(|node| node.children.iter().filter_map(bind).collect::<Vec<_>>())
        .collect()
}

#[test]
fn reads_binds() {
    let source = r#"
            input { keyboard { xkb { layout "us"; } } }
            // A comment { with braces }
            binds {
                Mod+Q repeat=false { close-window; }
                Mod+T hotkey-overlay-title="Open a Terminal: alacritty" { spawn "alacritty"; }
                /-Mod+X { quit; }
                /* Mod+Y { quit; } */
                Mod+Shift+1 { move-window-to-workspace 1; }
                Mod+V {
                    toggle-window-floating
                }
            }
        "#;

    let found = binds(source);
    let summary: Vec<_> = found
        .iter()
        .map(|b| (b.keys.as_str(), b.action.as_str(), b.args.clone()))
        .collect();
    assert_eq!(
        summary,
        vec![
            ("Mod+Q", "close-window", vec![]),
            ("Mod+T", "spawn", vec!["alacritty".to_string()]),
            (
                "Mod+Shift+1",
                "move-window-to-workspace",
                vec!["1".to_string()]
            ),
            ("Mod+V", "toggle-window-floating", vec![]),
        ]
    );
}

#[test]
fn finds_by_action_and_args() {
    let binds = Binds(binds(
        r#"binds {
                Mod+Shift+1 { move-window-to-workspace 1; }
                Mod+Shift+2 { move-window-to-workspace 2; }
                Mod+F { maximize-column; }
            }"#,
    ));
    assert_eq!(binds.find("maximize-column", &[]), Some("Mod+F"));
    assert_eq!(
        binds.find("move-window-to-workspace", &["2"]),
        Some("Mod+Shift+2")
    );
    assert_eq!(binds.find("move-window-to-workspace", &["3"]), None);
}

#[test]
fn raw_strings_and_escapes() {
    let nodes = parse(r##"a r#"x "quoted" y"# "b\"c"; b #"kdl2"#"##);
    assert_eq!(nodes[0].args, vec!["x \"quoted\" y", "b\"c"]);
    assert_eq!(nodes[1].args, vec!["kdl2"]);
}

#[test]
fn escapes_stand_for_characters() {
    let nodes = parse("a \"tab\\there\" \"line\\nbreak\" \"back\\\\slash\"");
    assert_eq!(nodes[0].args, vec!["tab\there", "line\nbreak", "back\\slash"]);
}

#[test]
fn comments_nest_and_lines_continue() {
    let nodes = parse("/* a /* b */ c */ one \\\n  1 2\n// two\nthree");
    assert_eq!(nodes.len(), 2);
    assert_eq!(nodes[0].name, "one");
    assert_eq!(nodes[0].args, vec!["1", "2"]);
    assert_eq!(nodes[1].name, "three");
}

#[test]
fn a_raw_string_that_runs_off_the_end_cannot_be_read() {
    assert!(try_parse("a r###").is_none());
    assert!(try_parse("a r#\"open").is_some());
    assert!(try_parse("a b c").is_some());
}

#[test]
fn the_first_bind_wins() {
    let binds = Binds(binds("binds { A { quit; }; B { quit; } }"));
    assert_eq!(binds.find("quit", &[]), Some("A"));
    assert_eq!(binds.find("quit", &["x"]), None);
}

#[test]
fn a_bind_without_an_action_is_left_out() {
    let nodes = parse("binds { A; B { quit; } }");
    let section = read_section(&nodes[0].children);
    assert_eq!(section.len(), 1);
    assert_eq!(section[0].keys, "B");
}

/// Reads every file the loader asks for, by the last of the names that led to it.
fn load(files: &[(&str, &str)]) -> (Binds, Vec<String>) {
    let mut asked = Vec::new();
    let mut loader = Loader::new();
    loop {
        let name = match loader.next() {
            Some(chain) => chain.last().cloned().unwrap_or_default(),
            None => break,
        };
        let source = files.iter().find(|(n, _)| *n == name).map(|(_, s)| *s);
        asked.push(name);
        loader = loader.supply(source);
    }
    (Binds::load(Some(loader)), asked)
}

#[test]
fn includes_are_read_where_they_stand() {
    let (binds, asked) = load(&[
        ("", "include \"a.kdl\"\nbinds { Mod+Q { quit; } }\ninclude \"missing.kdl\""),
        ("a.kdl", "binds { Mod+A { quit; } Mod+B { close-window; } }"),
    ]);
    assert_eq!(asked, vec!["", "a.kdl", "missing.kdl"]);
    assert_eq!(binds.find("quit", &[]), Some("Mod+A"));
    assert_eq!(binds.find("close-window", &[]), Some("Mod+B"));
    let keys: Vec<_> = binds.0.iter().map(|b| b.keys.as_str()).collect();
    assert_eq!(keys, vec!["Mod+A", "Mod+B", "Mod+Q"]);
}

#[test]
fn includes_that_go_round_come_to_an_end() {
    let (binds, asked) = load(&[
        ("", "include \"loop.kdl\""),
        ("loop.kdl", "binds { A { quit; } }\ninclude \"loop.kdl\""),
    ]);
    // The file at the root, and as many deep as includes go.
    assert_eq!(asked.len(), 9);
    assert_eq!(binds.0.len(), 8);
}

#[test]
fn no_config_means_no_binds() {
    assert!(Binds::load(None).0.is_empty());
}

#[test]
fn the_config_is_looked_for_in_order() {
    assert_eq!(config_path(true, None, None, false), Some(ConfigPath::Given));
    assert_eq!(config_path(true, Some(true), Some(true), true), Some(ConfigPath::Given));
    assert_eq!(config_path(false, Some(true), Some(true), true), Some(ConfigPath::ConfigHome));
    assert_eq!(config_path(false, None, Some(true), true), Some(ConfigPath::Home));
    // What's in the home directory doesn't count once there's another place for it.
    assert_eq!(config_path(false, Some(false), Some(true), true), Some(ConfigPath::System));
    assert_eq!(config_path(false, Some(false), Some(true), false), None);
    assert_eq!(config_path(false, None, Some(false), true), Some(ConfigPath::System));
    assert_eq!(config_path(false, None, Some(false), false), None);
    assert_eq!(config_path(false, None, None, true), None);
}

#[test]
fn space_is_skipped_whole() {
    let nodes = parse(" \t/* a */ // b\n\r\n \\\n /* c */one \\ // d\n\t/* e */ 1 /* f */\n2");
    assert_eq!(nodes.len(), 2);
    assert_eq!(nodes[0].name, "one");
    assert_eq!(nodes[0].args, vec!["1"]);
    assert_eq!(nodes[1].name, "2");
}
