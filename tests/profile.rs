use waiter_di::config::{Layer, PropValue};
use waiter_di::profile::{profile_name_of, select_profile};

fn args(a: &[&str]) -> Vec<String> {
    a.iter().map(|s| s.to_string()).collect()
}

#[test]
fn profile_name_is_last_segment_lowercased() {
    assert_eq!(profile_name_of("waiter_di::profiles::Dev"), "dev");
    assert_eq!(profile_name_of("Test"), "test");
    assert_eq!(profile_name_of("a:::B"), "b");
}

#[test]
fn profile_from_command_line_first() {
    let file = Layer { entries: vec![("profile".to_string(), PropValue::Str("file".to_string()))] };
    let r = select_profile(&args(&["prog", "--profile", "cli"]), Some("env".to_string()), &file);
    assert_eq!(r, "cli");
}

#[test]
fn profile_from_environment_second() {
    let file = Layer { entries: vec![("profile".to_string(), PropValue::Str("file".to_string()))] };
    let r = select_profile(&args(&["prog", "--profile"]), Some("env".to_string()), &file);
    assert_eq!(r, "env");
}

#[test]
fn profile_from_default_file_third() {
    let file = Layer { entries: vec![("profile".to_string(), PropValue::Str("file".to_string()))] };
    assert_eq!(select_profile(&args(&["prog"]), None, &file), "file");
}

#[test]
fn profile_falls_back_to_default() {
    assert_eq!(select_profile(&args(&["prog", "--x", "1"]), None, &Layer::empty()), "default");
}

#[test]
fn only_named_profiles_have_their_own_file() {
    assert!(!waiter_di::profile::uses_profile_file("default"));
    assert!(waiter_di::profile::uses_profile_file("dev"));
}
