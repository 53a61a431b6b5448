use ai_slop::tomlv::{copy_value, entry};
use ai_slop::TomlValue;

fn sample() -> TomlValue {
    TomlValue::Table(vec![
        ("name".to_string(), TomlValue::String("x".to_string())),
        ("n".to_string(), TomlValue::Integer(-4)),
        (
            "list".to_string(),
            TomlValue::Array(vec![TomlValue::Boolean(true), TomlValue::Float("1.5".to_string())]),
        ),
        ("when".to_string(), TomlValue::Datetime("1979-05-27".to_string())),
        ("name".to_string(), TomlValue::String("shadowed".to_string())),
    ])
}

#[test]
fn accessors_read_the_first_entry() {
    let v = sample();
    assert_eq!(v.get("name").and_then(|x| x.as_str()), Some("x"));
    assert_eq!(v.get("n").and_then(|x| x.as_integer()), Some(-4));
    assert_eq!(v.get("list").and_then(|x| x.as_array()).map(|a| a.len()), Some(2));
    assert!(v.get("missing").is_none());
    assert!(v.get("n").and_then(|x| x.as_str()).is_none());
    assert!(TomlValue::Integer(1).get("n").is_none());
    assert_eq!(v.as_table().map(|t| t.len()), Some(5));
    if let TomlValue::Table(t) = &v {
        assert!(matches!(entry(t, "when"), Some(TomlValue::Datetime(d)) if d == "1979-05-27"));
    }
}

#[test]
fn copy_value_keeps_the_structure() {
    let v = sample();
    let c = copy_value(&v);
    assert_eq!(format!("{:?}", v), format!("{:?}", c));
}
