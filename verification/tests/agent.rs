use ferricula::agent::{extract_toml_string, identity_entropy, parse_agent_toml};

#[test]
fn toml_value_forms() {
    assert_eq!(extract_toml_string("name = \"Ada\"", "name"), Some("Ada".to_string()));
    assert_eq!(extract_toml_string("  role='scribe'  ", "role"), Some("scribe".to_string()));
    assert_eq!(extract_toml_string("voice = calm", "voice"), Some("calm".to_string()));
    assert_eq!(extract_toml_string("nickname = \"x\"", "name"), None);
    assert_eq!(extract_toml_string("name: x", "name"), None);
}

#[test]
fn agent_config_defaults_and_overrides() {
    let c = parse_agent_toml("# agent\nname = \"Weaver\"\r\nvoice = 'soft'\nname = \"Scribe\"\n").unwrap();
    assert_eq!(c.name, "Scribe");
    assert_eq!(c.role, "general agent");
    assert_eq!(c.voice, "soft");
    let d = parse_agent_toml("").unwrap();
    assert_eq!(d.name, "unnamed");
    assert_eq!(d.role, "general agent");
    assert_eq!(d.voice, "default");
}

#[test]
fn identity_entropy_bytes_follow_shifts() {
    let nanos: u128 = 0x0123_4567_89ab_cdef_fedc_ba98_7654_3210;
    let e = identity_entropy(nanos);
    assert_eq!(e.len(), 32);
    for (i, b) in e.iter().enumerate() {
        assert_eq!(*b, ((nanos >> (i * 4)) & 0xff) as u8);
    }
    assert_eq!(e[0], 0x10);
    assert_eq!(e[1], 0x21);
}

#[test]
fn dotenv_reads_settings_in_order() {
    let text = "# comment\n\nSHIVVR_URL = http://localhost:8080\nNAME=\"quoted\"\r\nSINGLE='one'\nno equals here\n  SPACED =  a=b  \n";
    let got = ferricula::agent::parse_dotenv(text);
    let want: Vec<(String, String)> = vec![
        ("SHIVVR_URL".into(), "http://localhost:8080".into()),
        ("NAME".into(), "quoted".into()),
        ("SINGLE".into(), "one".into()),
        ("SPACED".into(), "a=b".into()),
    ];
    assert_eq!(got, want);
}

#[test]
fn dotenv_strips_double_then_single_quotes() {
    let got = ferricula::agent::parse_dotenv("K=\"'v'\"\nE=");
    assert_eq!(got, vec![("K".to_string(), "v".to_string()), ("E".to_string(), String::new())]);
}
