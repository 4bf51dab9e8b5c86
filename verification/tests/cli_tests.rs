use emend_lt::cli::{config_from, parse_argv, parse_u16};

fn args(v: &[&str]) -> Vec<String> {
    v.iter().map(|s| s.to_string()).collect()
}

fn chars(s: &str) -> Vec<char> {
    s.chars().collect()
}

#[test]
fn no_arguments_give_the_defaults() {
    let a = parse_argv(&args(&[])).unwrap();
    assert!(!a.help);
    assert_eq!(a.port, 8010);
    assert!(a.dict.is_none() && a.allow_origin.is_none() && a.data_dir.is_none());
    assert!(a.spell_ignore.is_empty());
}

#[test]
fn flags_take_their_values() {
    let a = parse_argv(&args(&[
        "--port",
        "9000",
        "--dict",
        "e.dict",
        "--allow-origin",
        "*",
        "--spell-ignore",
        "a.txt",
        "--spell-ignore",
        "b.txt",
        "--prohibit",
        "p.txt",
    ]))
    .unwrap();
    assert_eq!(a.port, 9000);
    assert_eq!(a.dict.as_deref(), Some("e.dict"));
    assert_eq!(a.allow_origin.as_deref(), Some("*"));
    assert_eq!(a.spell_ignore, vec!["a.txt".to_string(), "b.txt".to_string()]);
    assert_eq!(a.prohibit.as_deref(), Some("p.txt"));
}

#[test]
fn help_stops_the_reading() {
    let a = parse_argv(&args(&["-h", "--bogus"])).unwrap();
    assert!(a.help);
    let a = parse_argv(&args(&["--dict", "x", "--help"])).unwrap();
    assert!(a.help);
}

#[test]
fn argument_errors() {
    assert_eq!(parse_argv(&args(&["--bogus"])).err(), Some("unknown argument: --bogus".to_string()));
    assert_eq!(parse_argv(&args(&["--dict"])).err(), Some("--dict needs a value".to_string()));
    assert_eq!(parse_argv(&args(&["--port", "70000"])).err(), Some("invalid --port".to_string()));
    assert_eq!(parse_argv(&args(&["--port", "-1"])).err(), Some("invalid --port".to_string()));
}

#[test]
fn port_numbers() {
    assert_eq!(parse_u16(&chars("8010")), Some(8010));
    assert_eq!(parse_u16(&chars("+80")), Some(80));
    assert_eq!(parse_u16(&chars("65535")), Some(65535));
    assert_eq!(parse_u16(&chars("65536")), None);
    assert_eq!(parse_u16(&chars("")), None);
    assert_eq!(parse_u16(&chars("+")), None);
    assert_eq!(parse_u16(&chars("12a")), None);
}

#[test]
fn configuration_needs_the_four_files() {
    let a = parse_argv(&args(&[])).unwrap();
    assert_eq!(config_from(a).err(), Some("--dict (or --data-dir) is required".to_string()));
    let a = parse_argv(&args(&["--dict", "d"])).unwrap();
    assert_eq!(config_from(a).err(), Some("--disambiguation (or --data-dir) is required".to_string()));
    let a = parse_argv(&args(&["--dict", "d", "--disambiguation", "x"])).unwrap();
    assert_eq!(config_from(a).err(), Some("--grammar (or --data-dir) is required".to_string()));
    let a = parse_argv(&args(&["--dict", "d", "--disambiguation", "x", "--grammar", "g"])).unwrap();
    assert_eq!(config_from(a).err(), Some("--srx (or --data-dir) is required".to_string()));
}

#[test]
fn configuration_carries_the_paths() {
    let a = parse_argv(&args(&[
        "--dict",
        "d",
        "--disambiguation",
        "x",
        "--grammar",
        "g",
        "--srx",
        "s",
        "--spell-dict",
        "sp",
        "--multiwords",
        "m",
    ]))
    .unwrap();
    let c = config_from(a).unwrap();
    assert_eq!(c.dict, "d");
    assert_eq!(c.disambiguation_xml, "x");
    assert_eq!(c.grammar_xml, "g");
    assert_eq!(c.srx, "s");
    assert_eq!(c.spell_dict.as_deref(), Some("sp"));
    assert_eq!(c.spell_multiwords.as_deref(), Some("m"));
    assert!(c.synth_dict.is_none() && c.spell_prohibit.is_none());
}
