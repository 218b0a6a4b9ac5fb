use kot::config::{Config, ConfigError};

#[test]
fn config_defaults() {
    let c = Config::new();
    assert!(!c.version);
    assert!(!c.cache);
    assert!(!c.require_i64);
    assert!(!c.unsafe_inject);
    assert!(c.children >= 1);
}

#[test]
fn config_bare_name_sets_true() {
    let mut c = Config::new();
    c.configure("version").unwrap();
    assert!(c.version);
}

#[test]
fn config_name_value_pairs() {
    let mut c = Config::new();
    c.configure("version=true").unwrap();
    assert!(c.version);
    c.configure("version=false").unwrap();
    assert!(!c.version);
    c.configure("children=4").unwrap();
    assert_eq!(c.children, 4);
    c.configure("children=+12").unwrap();
    assert_eq!(c.children, 12);
}

#[test]
fn config_comma_separated_list() {
    let mut c = Config::new();
    c.configure(" version , cache=true ,require_i64").unwrap();
    assert!(c.version);
    assert!(c.cache);
    assert!(c.require_i64);
    assert!(!c.unsafe_inject);
}

#[test]
fn config_unknown_option() {
    let mut c = Config::new();
    assert_eq!(
        c.configure("nonsense"),
        Err(ConfigError::UnknownConfig("nonsense".to_string()))
    );
}

#[test]
fn config_wrong_values() {
    let mut c = Config::new();
    assert_eq!(
        c.configure("version=maybe"),
        Err(ConfigError::WrongConfigValue {
            name: "version".to_string(),
            found: "maybe".to_string(),
            required_type: "boolean: true/false".to_string(),
        })
    );
    assert_eq!(
        c.configure("children=abc"),
        Err(ConfigError::WrongConfigValue {
            name: "children".to_string(),
            found: "abc".to_string(),
            required_type: "number: 0 - usize::MAX".to_string(),
        })
    );
    assert_eq!(
        c.configure("children=18446744073709551616"),
        Err(ConfigError::WrongConfigValue {
            name: "children".to_string(),
            found: "18446744073709551616".to_string(),
            required_type: "number: 0 - usize::MAX".to_string(),
        })
    );
}

#[test]
fn config_multiple_equals_is_malformed() {
    let mut c = Config::new();
    assert_eq!(
        c.configure("children=1=2"),
        Err(ConfigError::MalformedConfigString {
            option: "children=1=2".to_string()
        })
    );
}

#[test]
fn config_from_config() {
    let c = Config::from_config("cache, children=3").unwrap();
    assert!(c.cache);
    assert_eq!(c.children, 3);
    assert!(Config::from_config("nonsense").is_err());
}

#[test]
fn config_from_config_slice() {
    let parts = vec!["version".to_string(), "children=2".to_string()];
    let c = Config::from_config_slice(&parts).unwrap();
    assert!(c.version);
    assert_eq!(c.children, 2);

    let bad = vec!["version".to_string(), "nope".to_string()];
    assert!(Config::from_config_slice(&bad).is_err());
}

#[test]
fn config_configure_slice_applies_in_order() {
    let mut c = Config::new();
    let parts = vec!["children=9".to_string(), "children=5".to_string()];
    c.configure_slice(&parts).unwrap();
    assert_eq!(c.children, 5);
}
