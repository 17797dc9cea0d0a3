use waiter_di::config::{parse_args, ConfigStore, Layer, PropValue};
use waiter_di::property::{coerce_int, resolve_property, PropKind, PropertyAttr, PropertyFault, PropertyValue};

fn layer(entries: &[(&str, PropValue)]) -> Layer {
    Layer { entries: entries.iter().map(|(k, v)| (k.to_string(), v.duplicate())).collect() }
}

fn x_layer(v: PropValue) -> Layer {
    layer(&[("x", v)])
}

fn int_attr(field: &str, kind: PropKind) -> PropertyAttr {
    PropertyAttr { name: None, field: field.to_string(), kind, default_value: None, optional: false }
}

#[test]
fn precedence_cli_wins() {
    let store = ConfigStore::new(
        x_layer(PropValue::Int(1)),
        x_layer(PropValue::Int(2)),
        x_layer(PropValue::Str("3".to_string())),
        x_layer(PropValue::Str("4".to_string())),
    );
    assert_eq!(store.get_int("x"), Ok(Some(4)));
}

#[test]
fn precedence_environment_without_cli() {
    let store = ConfigStore::new(
        x_layer(PropValue::Int(1)),
        x_layer(PropValue::Int(2)),
        x_layer(PropValue::Str("3".to_string())),
        Layer::empty(),
    );
    assert_eq!(store.get_int("x"), Ok(Some(3)));
}

#[test]
fn precedence_profile_file_without_cli_and_environment() {
    let store = ConfigStore::new(
        x_layer(PropValue::Int(1)),
        x_layer(PropValue::Int(2)),
        Layer::empty(),
        Layer::empty(),
    );
    assert_eq!(store.get_int("x"), Ok(Some(2)));
}

#[test]
fn precedence_default_file_alone() {
    let store = ConfigStore::new(x_layer(PropValue::Int(1)), Layer::empty(), Layer::empty(), Layer::empty());
    assert_eq!(store.get_int("x"), Ok(Some(1)));
}

#[test]
fn precedence_nothing_present_fails_without_default() {
    let store = ConfigStore::new(Layer::empty(), Layer::empty(), Layer::empty(), Layer::empty());
    assert_eq!(store.lookup("x"), None);
    assert_eq!(store.get_int("x"), Ok(None));
    assert_eq!(resolve_property(&store, &int_attr("x", PropKind::I64)), Err(PropertyFault::Missing));
}

#[test]
fn missing_key_takes_declared_default() {
    let store = ConfigStore::new(Layer::empty(), Layer::empty(), Layer::empty(), Layer::empty());
    let mut attr = int_attr("x", PropKind::I32);
    attr.default_value = Some(PropValue::Int(9));
    assert_eq!(resolve_property(&store, &attr), Ok(PropertyValue::Int(9)));
}

#[test]
fn optional_missing_key_is_absent() {
    let store = ConfigStore::new(Layer::empty(), Layer::empty(), Layer::empty(), Layer::empty());
    let mut attr = int_attr("x", PropKind::I32);
    attr.optional = true;
    assert_eq!(resolve_property(&store, &attr), Ok(PropertyValue::Absent));
}

#[test]
fn explicit_name_overrides_field_name() {
    let store = ConfigStore::new(layer(&[("port", PropValue::Int(80))]), Layer::empty(), Layer::empty(), Layer::empty());
    let mut attr = int_attr("listen", PropKind::U16);
    attr.name = Some("port".to_string());
    assert_eq!(resolve_property(&store, &attr), Ok(PropertyValue::Int(80)));
}

#[test]
fn value_300_does_not_fit_i8() {
    let store = ConfigStore::new(x_layer(PropValue::Int(300)), Layer::empty(), Layer::empty(), Layer::empty());
    assert_eq!(resolve_property(&store, &int_attr("x", PropKind::I8)), Err(PropertyFault::Coercion));
}

#[test]
fn value_300_fits_i32() {
    let store = ConfigStore::new(x_layer(PropValue::Int(300)), Layer::empty(), Layer::empty(), Layer::empty());
    assert_eq!(resolve_property(&store, &int_attr("x", PropKind::I32)), Ok(PropertyValue::Int(300)));
}

#[test]
fn coercion_bounds() {
    assert_eq!(coerce_int(PropKind::I8, 127), Some(127));
    assert_eq!(coerce_int(PropKind::I8, 128), None);
    assert_eq!(coerce_int(PropKind::I8, -128), Some(-128));
    assert_eq!(coerce_int(PropKind::U8, -1), None);
    assert_eq!(coerce_int(PropKind::U8, 255), Some(255));
    assert_eq!(coerce_int(PropKind::U16, 65536), None);
    assert_eq!(coerce_int(PropKind::U32, 4294967295), Some(4294967295));
    assert_eq!(coerce_int(PropKind::U64, -5), None);
    assert_eq!(coerce_int(PropKind::U128, -1), None);
    assert_eq!(coerce_int(PropKind::I64, i64::MIN), Some(i64::MIN as i128));
    assert_eq!(coerce_int(PropKind::I128, i64::MAX), Some(i64::MAX as i128));
}

#[test]
fn text_is_parsed_only_by_typed_reader() {
    let store = ConfigStore::new(
        layer(&[("n", PropValue::Str("42".to_string())), ("w", PropValue::Str("abc".to_string())), ("b", PropValue::Int(1))]),
        Layer::empty(),
        Layer::empty(),
        Layer::empty(),
    );
    assert_eq!(store.get_int("n"), Ok(Some(42)));
    assert_eq!(store.get_int("w"), Err(()));
    assert_eq!(store.get_string("b"), Err(()));
    assert_eq!(store.get_bool("b"), Err(()));
    assert_eq!(store.get_string("n"), Ok(Some("42".to_string())));
}

#[test]
fn text_integers_with_signs_and_overflow() {
    assert_eq!(PropValue::Str("-17".to_string()).as_int(), Some(-17));
    assert_eq!(PropValue::Str("+5".to_string()).as_int(), Some(5));
    assert_eq!(PropValue::Str("9223372036854775808".to_string()).as_int(), None);
    assert_eq!(PropValue::Str("".to_string()).as_int(), None);
}

#[test]
fn booleans_read_from_text() {
    assert_eq!(PropValue::Str("true".to_string()).as_bool(), Some(true));
    assert_eq!(PropValue::Str("false".to_string()).as_bool(), Some(false));
    assert_eq!(PropValue::Str("yes".to_string()).as_bool(), None);
    assert_eq!(PropValue::Bool(false).as_bool(), Some(false));
}

#[test]
fn bool_and_text_properties() {
    let store = ConfigStore::new(
        layer(&[("debug", PropValue::Bool(true)), ("name", PropValue::Str("svc".to_string()))]),
        Layer::empty(),
        Layer::empty(),
        Layer::empty(),
    );
    assert_eq!(resolve_property(&store, &int_attr("debug", PropKind::Bool)), Ok(PropertyValue::Bool(true)));
    assert_eq!(resolve_property(&store, &int_attr("name", PropKind::Text)), Ok(PropertyValue::Text("svc".to_string())));
    assert_eq!(resolve_property(&store, &int_attr("name", PropKind::I32)), Err(PropertyFault::Coercion));
}

#[test]
fn last_entry_of_a_layer_wins() {
    let l = layer(&[("x", PropValue::Int(1)), ("x", PropValue::Int(2))]);
    assert_eq!(l.lookup("x"), Some(PropValue::Int(2)));
}

#[test]
fn command_line_options_and_flags() {
    let args: Vec<String> = ["prog", "--x", "4", "--verbose", "--name", "svc", "plain", "--last"]
        .iter()
        .map(|s| s.to_string())
        .collect();
    let l = parse_args(&args);
    assert_eq!(
        l.entries,
        vec![
            ("x".to_string(), PropValue::Str("4".to_string())),
            ("verbose".to_string(), PropValue::Bool(true)),
            ("name".to_string(), PropValue::Str("svc".to_string())),
            ("last".to_string(), PropValue::Bool(true)),
        ]
    );
}

#[test]
fn command_line_without_options_is_empty() {
    let args: Vec<String> = vec!["prog".to_string(), "-x".to_string()];
    assert!(parse_args(&args).entries.is_empty());
}
