use jvars::DataPathExt;
use jvars::PathSeparator;
use jvars::Value;

fn text(s: &str) -> Value {
    Value::Text(s.to_string())
}

fn obj(entries: Vec<(&str, Value)>) -> Value {
    Value::Object(entries.into_iter().map(|(k, v)| (k.to_string(), v)).collect())
}

fn friend(id: i64, name: &str) -> Value {
    obj(vec![("id", Value::Number(id)), ("name", text(name))])
}

fn three_friends() -> Value {
    obj(vec![(
        "friends",
        Value::Array(vec![
            friend(0, "Holt Stewart"),
            friend(1, "Fuentes Carroll"),
            friend(2, "Greta Kane"),
        ]),
    )])
}

fn two_friends() -> Value {
    obj(vec![(
        "friends",
        Value::Array(vec![friend(0, "Holt Stewart"), friend(1, "Fuentes Carroll")]),
    )])
}

#[test]
fn it_works() {
    let sep = PathSeparator::new();
    let mut data = three_friends();
    let id = jvars::get(&data, "friends.0.id", &sep).unwrap();
    assert_eq!(0, id.as_i64().unwrap());
    let name = jvars::get_mut(&mut data, "friends.1.name", &sep).unwrap();
    *name = Value::Number(42);
    assert_eq!(
        42,
        jvars::get(&data, "friends.1.name", &sep).unwrap().as_i64().unwrap()
    );
}

#[test]
fn update_and_create() {
    let sep = PathSeparator::new();
    let mut data = three_friends();
    jvars::update_or_create(&mut data, "friends.2.name", text("Мама"), &sep).unwrap();
    assert_eq!(
        Some("Мама"),
        jvars::get(&data, "friends.2.name", &sep).unwrap().as_str()
    );
    jvars::update_or_create(&mut data, "friends.3.id", Value::Number(42), &sep).unwrap();
    jvars::update_or_create(&mut data, "friends.3.name", text("Юлия"), &sep).unwrap();
    assert_eq!(
        &obj(vec![("id", Value::Number(42)), ("name", text("Юлия"))]),
        jvars::get(&data, "friends.3", &sep).unwrap()
    );
    jvars::update_or_create(&mut data, "", Value::Bool(true), &sep).unwrap();
    assert!(data.as_bool().unwrap());
}

#[test]
fn access_via_path() {
    let sep = PathSeparator::new();
    let mut data = two_friends();
    let id = data.path("friends.0.id", &sep).unwrap();
    assert_eq!(0, id.as_i64().unwrap());
    let name = data.path_mut("friends.1.name", &sep).unwrap();
    *name = Value::Number(42);
    assert_eq!(
        42,
        data.path("friends.1.name", &sep).unwrap().as_i64().unwrap()
    );
}

#[test]
fn extend_json() {
    let sep = PathSeparator::new();
    let mut data = three_friends();
    data.update_or_create("friends.2.name", text("Мама"), &sep).unwrap();
    assert_eq!(
        Some("Мама"),
        data.path("friends.2.name", &sep).unwrap().as_str()
    );
    data.update_or_create("friends.3.id", Value::Number(42), &sep).unwrap();
    data.update_or_create("friends.3.name", text("Юлия"), &sep).unwrap();
    assert_eq!(
        &obj(vec![("id", Value::Number(42)), ("name", text("Юлия"))]),
        data.path("friends.3", &sep).unwrap()
    );
    data.update_or_create("", Value::Bool(true), &sep).unwrap();
    assert!(data.as_bool().unwrap());
}

#[test]
fn insert_new_objects() {
    let sep = PathSeparator::new();
    let mut data = obj(vec![]);
    data.update_or_create("a.b.c.d.e.f", Value::Number(543), &sep).unwrap();
    assert_eq!(
        543,
        data.path("a.b.c.d.e.f", &sep).unwrap().as_i64().unwrap()
    );
}

#[test]
fn add_enough_elements() {
    let sep = PathSeparator::new();
    let mut data = obj(vec![]);
    data.update_or_create("array1", Value::Array(vec![]), &sep).unwrap();
    assert!(data.path("array1", &sep).unwrap().is_array());
    let n = 501;
    data.update_or_create(&format!("array1.{}", n), Value::Bool(true), &sep)
        .unwrap();
    for i in 0..(n - 1) {
        assert!(data.path(&format!("array1.{}", i), &sep).unwrap().is_null());
    }
    assert!(data
        .path(&format!("array1.{}", n), &sep)
        .unwrap()
        .as_bool()
        .unwrap());
}
