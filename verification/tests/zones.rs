use hypr_tools::{
    active_window, cmd_cycle, config_path, current_layout, default_config, DEFAULT_CONFIG,
    choose_zone, focused_position, hyprctl_json, layout_exists, layout_names, load_config, parse_command,
    layout_zones, select_zone, snap_to_zone, state_path, usable_area, usable_area_fits, Command, Json,
    JsonNumber, SnapError, SnapPlan,
};

fn doc(text: &str) -> Json {
    let v = hyprctl_json(true, text.as_bytes());
    assert_ne!(v, Json::Null);
    v
}

fn args(v: &[&str]) -> Vec<String> {
    v.iter().map(|s| s.to_string()).collect()
}

#[test]
fn paths_under_home() {
    assert_eq!(config_path("/home/ana"), "/home/ana/.config/hypr/fancyzones.json");
    assert_eq!(state_path("/root"), "/root/.cache/hypr/fancyzones-current");
}

#[test]
fn default_config_is_what_its_text_parses_to() {
    assert_eq!(load_config(Some(DEFAULT_CONFIG)), (default_config(), false));
}

#[test]
fn load_config_prefers_the_file() {
    let (cfg, write) = load_config(Some(r#"{"default":"x","layouts":{"x":[[0,0,1,1]]}}"#));
    assert!(!write);
    assert_eq!(layout_names(&cfg), vec!["x".to_string()]);
}

#[test]
fn load_config_keeps_a_broken_file() {
    // A file that does not parse gives the built-in configuration and is not overwritten.
    let (cfg, write) = load_config(Some("{"));
    assert!(!write);
    assert_eq!(cfg, default_config());
}

#[test]
fn load_config_writes_a_missing_file() {
    let (cfg, write) = load_config(None);
    assert!(write);
    assert_eq!(cfg, default_config());
    // Reading back what was written gives the same and writes nothing.
    assert_eq!(load_config(Some(DEFAULT_CONFIG)), (cfg, false));
}

#[test]
fn built_in_layouts_and_zones() {
    let cfg = default_config();
    assert_eq!(current_layout(&cfg, None), "halves");
    let counts: Vec<usize> = layout_names(&cfg)
        .iter()
        .map(|n| layout_zones(&cfg, n).expect("zones").len())
        .collect();
    assert_eq!(counts, vec![6, 2, 3, 4, 3]);
    let z = select_zone(&cfg, "thirds", 2).expect("zone");
    let texts: Vec<String> = z
        .iter()
        .map(|v| match v {
            Json::Number(n) => n.text.clone(),
            _ => String::new(),
        })
        .collect();
    assert_eq!(texts, vec!["0.3333", "0.0", "0.3334", "1.0"]);
}

#[test]
fn layout_names_are_sorted() {
    let cfg = default_config();
    assert_eq!(layout_names(&cfg), args(&["grid6", "halves", "main-side", "quad", "thirds"]));
    let cfg = doc(r#"{"layouts": {"b": [], "B": [], "a": [], "ä": [], "": []}}"#);
    assert_eq!(layout_names(&cfg), args(&["", "B", "a", "b", "ä"]));
    assert!(layout_names(&doc(r#"{"layouts": [1, 2]}"#)).is_empty());
    assert!(layout_names(&Json::Null).is_empty());
}

#[test]
fn current_layout_reads_the_saved_name() {
    let cfg = default_config();
    assert_eq!(current_layout(&cfg, Some("quad\n")), "quad");
    assert_eq!(current_layout(&cfg, Some("  thirds  ")), "thirds");
    assert_eq!(current_layout(&cfg, Some("nope")), "halves");
    assert_eq!(current_layout(&cfg, None), "halves");
}

#[test]
fn current_layout_falls_back_to_first_name_then_empty() {
    let cfg = doc(r#"{"layouts": {"zeta": [], "alpha": []}}"#);
    assert_eq!(current_layout(&cfg, None), "alpha");
    let cfg = doc(r#"{"default": 3, "layouts": {"zeta": []}}"#);
    assert_eq!(current_layout(&cfg, Some("")), "zeta");
    assert_eq!(current_layout(&doc("{}"), None), "");
    // The default is taken as it is, whether or not such a layout exists.
    let cfg = doc(r#"{"default": "ghost", "layouts": {"a": []}}"#);
    assert_eq!(current_layout(&cfg, None), "ghost");
}

#[test]
fn saved_layout_reads_back() {
    let cfg = default_config();
    for name in layout_names(&cfg) {
        assert!(layout_exists(&cfg, &name));
        assert_eq!(current_layout(&cfg, Some(&name)), name);
    }
    assert!(!layout_exists(&cfg, "nope"));
}

#[test]
fn only_layout_names_count_as_saved() {
    let cfg = default_config();
    // "halves/0" names the first zone of "halves", not a layout.
    assert!(!layout_exists(&cfg, "halves/0"));
    assert_eq!(current_layout(&cfg, Some("halves/0")), "halves");
    assert_eq!(current_layout(&cfg, Some("/")), "halves");
    // A layout whose name holds a slash is found by its name.
    let cfg = doc(r#"{"layouts": {"a/b": [[0, 0, 1, 1]], "a": {"b": [1]}}}"#);
    assert_eq!(current_layout(&cfg, Some("a/b")), "a/b");
    assert_eq!(select_zone(&cfg, "a/b", 1).map(|z| z.len()), Ok(4));
    assert_eq!(select_zone(&cfg, "a", 1).unwrap_err(), SnapError::NoZones);
}

#[test]
fn cycle_walks_sorted_names_and_wraps() {
    let cfg = default_config();
    assert_eq!(cmd_cycle(&cfg, Some("grid6")), Some("halves".to_string()));
    assert_eq!(cmd_cycle(&cfg, Some("quad")), Some("thirds".to_string()));
    assert_eq!(cmd_cycle(&cfg, Some("thirds")), Some("grid6".to_string()));
    // No state: the default "halves" is current.
    assert_eq!(cmd_cycle(&cfg, None), Some("main-side".to_string()));
    // A current layout that is not among the names counts as the first.
    let cfg2 = doc(r#"{"default": "ghost", "layouts": {"a": [], "b": [], "c": []}}"#);
    assert_eq!(cmd_cycle(&cfg2, None), Some("b".to_string()));
    assert_eq!(cmd_cycle(&doc(r#"{"layouts": {}}"#), None), None);
    // Cycling as many times as there are layouts comes back to the start.
    let mut cur = "quad".to_string();
    for _ in 0..5 {
        cur = cmd_cycle(&cfg, Some(&cur)).unwrap();
    }
    assert_eq!(cur, "quad");
}

#[test]
fn active_window_reads_address_and_floating() {
    let w = doc(r#"{"address": "0x55aa", "floating": true}"#);
    assert_eq!(active_window(&w), Some(("0x55aa".to_string(), true)));
    let w = doc(r#"{"address": "0x1", "floating": "yes"}"#);
    assert_eq!(active_window(&w), Some(("0x1".to_string(), false)));
    assert_eq!(active_window(&doc(r#"{"address": ""}"#)), None);
    assert_eq!(active_window(&doc(r#"{"address": 5}"#)), None);
    assert_eq!(active_window(&doc("{}")), None);
}

#[test]
fn usable_area_of_the_focused_monitor() {
    let mons = doc(
        r#"[{"name":"A","focused":false,"x":0,"y":0},
            {"name":"B","focused":true,"x":1920,"y":-10,"width":2732,"height":1536,"scale":2.0,"reserved":[5,30,7,11]},
            {"name":"C","focused":true,"x":5}]"#,
    );
    assert_eq!(focused_position(&mons), Some(1));
    let sizes = vec![(1920, 1080), (1366, 768), (800, 600)];
    assert!(usable_area_fits(&mons, &sizes));
    assert_eq!(usable_area(&mons, &sizes), Some((1925, 20, 1354, 727)));
}

#[test]
fn usable_area_none_without_focused_monitor() {
    let mons = doc(r#"[{"focused": "true"}, {"x": 1}]"#);
    let sizes = vec![(10, 10), (10, 10)];
    assert_eq!(focused_position(&mons), None);
    assert!(usable_area_fits(&mons, &sizes));
    assert_eq!(usable_area(&mons, &sizes), None);
    assert_eq!(usable_area(&doc(r#"{"focused": true}"#), &vec![]), None);
    assert_eq!(usable_area(&Json::Null, &vec![]), None);
}

#[test]
fn usable_area_defaults_missing_fields_to_zero() {
    let mons = doc(r#"[{"focused": true, "reserved": [1, "x"]}]"#);
    assert_eq!(usable_area(&mons, &vec![(100, 50)]), Some((1, 0, 99, 50)));
    let mons = doc(r#"[{"focused": true, "x": 9223372036854775807, "reserved": [1]}]"#);
    assert!(!usable_area_fits(&mons, &vec![(100, 50)]));
    let mons = doc(r#"[{"focused": true, "reserved": [1, 0, 2]}]"#);
    assert!(!usable_area_fits(&mons, &vec![(-9223372036854775807, 0)]));
}

#[test]
fn choose_zone_decides_before_any_query() {
    let cfg = default_config();
    let (layout, zone) = choose_zone(&cfg, None, 0);
    assert_eq!(layout, "halves");
    assert_eq!(zone.unwrap_err(), SnapError::OutOfRange { zone: 0, count: 2 });
    let (layout, zone) = choose_zone(&cfg, Some("quad\n"), 5);
    assert_eq!(layout, "quad");
    assert_eq!(zone.unwrap_err(), SnapError::OutOfRange { zone: 5, count: 4 });
    let (layout, zone) = choose_zone(&cfg, Some("grid6"), 6);
    assert_eq!(layout, "grid6");
    assert_eq!(zone.map(|z| z.len()), Ok(4));
    let cfg = doc(r#"{"default": "nope", "layouts": {}}"#);
    let (layout, zone) = choose_zone(&cfg, None, 1);
    assert_eq!(layout, "nope");
    assert_eq!(zone.unwrap_err(), SnapError::NoZones);
}

#[test]
fn select_zone_checks_range() {
    let cfg = default_config();
    let z = select_zone(&cfg, "halves", 2).expect("zone");
    assert_eq!(z.len(), 4);
    assert_eq!(z[0], Json::Number(JsonNumber { as_i64: None, text: "0.5".to_string() }));
    assert_eq!(select_zone(&cfg, "halves", 0).unwrap_err(), SnapError::OutOfRange { zone: 0, count: 2 });
    assert_eq!(select_zone(&cfg, "halves", 3).unwrap_err(), SnapError::OutOfRange { zone: 3, count: 2 });
    assert_eq!(select_zone(&cfg, "nope", 1).unwrap_err(), SnapError::NoZones);
    let cfg = doc(r#"{"layouts": {"odd": [5]}}"#);
    assert_eq!(select_zone(&cfg, "odd", 1).unwrap_err(), SnapError::ZoneNotArray);
}

#[test]
fn snap_plan_moves_and_resizes() {
    let w = doc(r#"{"address": "0xabc", "floating": false}"#);
    let plan = snap_to_zone((0, 30, 1366, 738), (683, 0, 683, 738), &w).expect("plan");
    assert_eq!(
        plan,
        SnapPlan {
            toggle_floating: Some("address:0xabc".to_string()),
            batch: "dispatch resizewindowpixel exact 683 738,address:0xabc ; dispatch movewindowpixel exact 683 30,address:0xabc".to_string(),
        }
    );
    let w = doc(r#"{"address": "0x1", "floating": true}"#);
    let plan = snap_to_zone((-1920, 0, 1920, 1080), (-5, 0, 960, 540), &w).expect("plan");
    assert_eq!(plan.toggle_floating, None);
    assert_eq!(
        plan.batch,
        "dispatch resizewindowpixel exact 960 540,address:0x1 ; dispatch movewindowpixel exact -1925 0,address:0x1"
    );
    assert_eq!(snap_to_zone((0, 0, 1, 1), (0, 0, 1, 1), &doc("{}")).unwrap_err(), SnapError::NoActiveWindow);
}

#[test]
fn commands_from_arguments() {
    assert_eq!(parse_command(&args(&["fz"])), Command::List);
    assert_eq!(parse_command(&args(&["fz", "list"])), Command::List);
    assert_eq!(parse_command(&args(&["fz", "snap", "2"])), Command::Snap(2));
    assert_eq!(parse_command(&args(&["fz", "snap", "+3"])), Command::Snap(3));
    assert_eq!(parse_command(&args(&["fz", "snap", "x"])), Command::Snap(0));
    assert_eq!(parse_command(&args(&["fz", "snap"])), Command::Snap(0));
    assert_eq!(parse_command(&args(&["fz", "layout", "quad"])), Command::Layout(Some("quad".to_string())));
    assert_eq!(parse_command(&args(&["fz", "layout"])), Command::Layout(None));
    assert_eq!(parse_command(&args(&["fz", "cycle"])), Command::Cycle);
    assert_eq!(parse_command(&args(&["fz", "Cycle"])), Command::Unknown("Cycle".to_string()));
}
