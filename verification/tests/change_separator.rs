use jvars::PathSeparator;
use jvars::Value;

fn text(s: &str) -> Value {
    Value::Text(s.to_string())
}

fn obj(entries: Vec<(&str, Value)>) -> Value {
    Value::Object(entries.into_iter().map(|(k, v)| (k.to_string(), v)).collect())
}

fn friend(id: i64, name: &str) -> Value {
    obj(vec![("id", Value::Number(id)), ("name", text(name))])
}

#[test]
fn use_arrow_separator() {
    let mut sep = PathSeparator::new();
    sep.change("->");
    let mut data = obj(vec![(
        "friends",
        Value::Array(vec![friend(0, "Holt Stewart"), friend(1, "Fuentes Carroll")]),
    )]);
    assert_eq!(&data, jvars::get(&data, "", &sep).unwrap());
    let id = jvars::get(&data, "friends->0->id", &sep).unwrap();
    assert_eq!(0, id.as_i64().unwrap());
    let name = jvars::get_mut(&mut data, "friends->1->name", &sep).unwrap();
    *name = Value::Number(42);
    assert_eq!(
        42,
        jvars::get(&data, "friends->1->name", &sep).unwrap().as_i64().unwrap()
    );
    jvars::update_or_create(&mut data, "friends->3->name", text("Марго"), &sep).unwrap();
    assert_eq!(
        &Value::Null,
        jvars::get(&data, "friends->2", &sep).unwrap()
    );
    assert!(jvars::get(&data, "friends->3->id", &sep).is_none());
    assert_eq!(
        Some(Value::Null),
        jvars::delete(&mut data, "friends->2", &sep)
    );
    assert_eq!(
        Some("Марго"),
        jvars::get(&data, "friends->2->name", &sep).unwrap().as_str()
    );
}
