use jvars::DataPathExt;
use jvars::Error;
use jvars::PathSeparator;
use jvars::Value;

fn text(s: &str) -> Value {
    Value::Text(s.to_string())
}

fn obj(entries: Vec<(&str, Value)>) -> Value {
    Value::Object(entries.into_iter().map(|(k, v)| (k.to_string(), v)).collect())
}

#[test]
fn roundtrip_after_update() {
    let sep = PathSeparator::new();
    let mut data = obj(vec![("a", Value::Array(vec![Value::Number(9)]))]);
    jvars::update_or_create(&mut data, "a.2.deep", text("x"), &sep).unwrap();
    assert_eq!(Some(&text("x")), jvars::get(&data, "a.2.deep", &sep));
}

#[test]
fn delete_is_not_repeatable_on_objects() {
    let sep = PathSeparator::new();
    let mut data = obj(vec![("x", Value::Number(1)), ("y", Value::Number(2))]);
    assert_eq!(Some(Value::Number(1)), jvars::delete(&mut data, "x", &sep));
    assert_eq!(None, jvars::delete(&mut data, "x", &sep));
    assert_eq!(obj(vec![("y", Value::Number(2))]), data);
}

#[test]
fn empty_path_is_the_root() {
    let sep = PathSeparator::new();
    let mut data = obj(vec![("k", Value::Number(3))]);
    assert_eq!(&obj(vec![("k", Value::Number(3))]), jvars::get(&data, "", &sep).unwrap());
    jvars::update_or_create(&mut data, "", Value::Number(7), &sep).unwrap();
    assert_eq!(Value::Number(7), data);
    assert_eq!(Some(Value::Number(7)), jvars::delete(&mut data, "", &sep));
    assert_eq!(Value::Null, data);
}

#[test]
fn vivifying_an_index_extends_an_empty_array() {
    let sep = PathSeparator::new();
    let mut data = Value::Array(vec![]);
    jvars::update_or_create(&mut data, "3", Value::Bool(true), &sep).unwrap();
    assert_eq!(
        Value::Array(vec![Value::Null, Value::Null, Value::Null, Value::Bool(true)]),
        data
    );
}

#[test]
fn read_a_nested_number() {
    let sep = PathSeparator::new();
    let data = obj(vec![("a", obj(vec![("b", Value::Number(1))]))]);
    assert_eq!(1, jvars::get(&data, "a.b", &sep).unwrap().as_i64().unwrap());
}

#[test]
fn vivify_a_chain_of_objects() {
    let sep = PathSeparator::new();
    let mut data = obj(vec![]);
    jvars::update_or_create(&mut data, "a.b.c", Value::Number(5), &sep).unwrap();
    assert_eq!(
        obj(vec![("a", obj(vec![("b", obj(vec![("c", Value::Number(5))]))]))]),
        data
    );
}

#[test]
fn vivify_an_index_inside_an_existing_array() {
    let sep = PathSeparator::new();
    let mut data = obj(vec![("arr", Value::Array(vec![]))]);
    jvars::update_or_create(&mut data, "arr.3", Value::Bool(true), &sep).unwrap();
    assert_eq!(
        obj(vec![(
            "arr",
            Value::Array(vec![Value::Null, Value::Null, Value::Null, Value::Bool(true)])
        )]),
        data
    );
}

#[test]
fn delete_shifts_later_elements_down() {
    let sep = PathSeparator::new();
    let mut data = obj(vec![(
        "x",
        Value::Array(vec![Value::Number(1), Value::Number(2), Value::Number(3)]),
    )]);
    assert_eq!(Some(Value::Number(2)), jvars::delete(&mut data, "x.1", &sep));
    assert_eq!(
        obj(vec![("x", Value::Array(vec![Value::Number(1), Value::Number(3)]))]),
        data
    );
}

#[test]
fn scalars_are_not_descended_into() {
    let sep = PathSeparator::new();
    let data = obj(vec![("k", text("v"))]);
    assert_eq!(None, jvars::get(&data, "k.sub", &sep));
}

#[test]
fn a_changed_separator_reads_like_the_default_one() {
    let data = obj(vec![("a", obj(vec![("b", Value::Number(7))]))]);
    let default_sep = PathSeparator::new();
    let before = jvars::get(&data, "a.b", &default_sep).unwrap();
    let mut sep = PathSeparator::new();
    sep.change("->");
    let after = jvars::get(&data, "a->b", &sep).unwrap();
    assert_eq!(before, after);
    assert_eq!(7, after.as_i64().unwrap());
}

#[test]
fn a_non_index_segment_on_an_array_is_the_one_error() {
    let sep = PathSeparator::new();
    let mut data = obj(vec![("arr", Value::Array(vec![Value::Number(1)]))]);
    let err = jvars::update_or_create(&mut data, "arr.x", Value::Number(5), &sep).unwrap_err();
    let Error::InvalidDataPath(p) = err;
    assert_eq!("arr.x", p);
    assert_eq!(obj(vec![("arr", Value::Array(vec![Value::Number(1)]))]), data);
}

#[test]
fn the_error_carries_the_full_path() {
    let sep = PathSeparator::new();
    let mut data = obj(vec![("a", obj(vec![("b", Value::Array(vec![]))]))]);
    let err = jvars::update_or_create(&mut data, "a.b.not-a-number", Value::Null, &sep)
        .unwrap_err();
    assert_eq!("a.b.not-a-number", err.data_path().as_str());
}

#[test]
fn consecutive_separators_make_an_empty_key() {
    let sep = PathSeparator::new();
    let mut data = obj(vec![]);
    jvars::update_or_create(&mut data, "a..b", Value::Number(1), &sep).unwrap();
    assert_eq!(
        obj(vec![("a", obj(vec![("", obj(vec![("b", Value::Number(1))]))]))]),
        data
    );
    assert_eq!(1, jvars::get(&data, "a..b", &sep).unwrap().as_i64().unwrap());
}

#[test]
fn numeric_looking_keys_address_objects_literally() {
    let sep = PathSeparator::new();
    let data = obj(vec![("0", Value::Number(5))]);
    assert_eq!(5, jvars::get(&data, "0", &sep).unwrap().as_i64().unwrap());
}

#[test]
fn indices_are_bare_digits_only() {
    let sep = PathSeparator::new();
    let data = Value::Array(vec![Value::Number(1), Value::Number(2)]);
    assert_eq!(None, jvars::get(&data, "+1", &sep));
    assert_eq!(None, jvars::get(&data, " 1", &sep));
    assert_eq!(None, jvars::get(&data, "5", &sep));
    assert_eq!(
        2,
        jvars::get(&data, "001", &sep).unwrap().as_i64().unwrap()
    );
}

#[test]
fn an_update_keeps_siblings_and_their_order() {
    let sep = PathSeparator::new();
    let mut data = obj(vec![("a", Value::Number(1)), ("b", Value::Number(2))]);
    jvars::update_or_create(&mut data, "b", Value::Number(3), &sep).unwrap();
    assert_eq!(obj(vec![("a", Value::Number(1)), ("b", Value::Number(3))]), data);
    jvars::update_or_create(&mut data, "c", Value::Number(4), &sep).unwrap();
    assert_eq!(
        obj(vec![
            ("a", Value::Number(1)),
            ("b", Value::Number(3)),
            ("c", Value::Number(4))
        ]),
        data
    );
}

#[test]
fn deleting_an_object_key_keeps_the_order_of_the_rest() {
    let sep = PathSeparator::new();
    let mut data = obj(vec![
        ("a", Value::Number(1)),
        ("b", Value::Number(2)),
        ("c", Value::Number(3)),
    ]);
    assert_eq!(Some(Value::Number(2)), jvars::delete(&mut data, "b", &sep));
    assert_eq!(
        obj(vec![("a", Value::Number(1)), ("c", Value::Number(3))]),
        data
    );
}

#[test]
fn a_scalar_in_the_way_is_replaced_by_a_container() {
    let sep = PathSeparator::new();
    let mut data = obj(vec![("k", text("v"))]);
    jvars::update_or_create(&mut data, "k.sub", Value::Number(1), &sep).unwrap();
    assert_eq!(obj(vec![("k", obj(vec![("sub", Value::Number(1))]))]), data);
}

#[test]
fn a_multi_character_separator_splits_literally() {
    let sep_conf = {
        let mut s = PathSeparator::new();
        s.change("->");
        s
    };
    let data = obj(vec![("a->b", Value::Number(1))]);
    // Under "->" the path "a->b" means the key "a" then the key "b", not
    // the literal key "a->b"; the literal key is reachable with another
    // separator.
    assert_eq!(None, jvars::get(&data, "a->b", &sep_conf));
    let dot = PathSeparator::new();
    assert_eq!(1, jvars::get(&data, "a->b", &dot).unwrap().as_i64().unwrap());
}

#[test]
fn out_of_range_deletes_change_nothing() {
    let sep = PathSeparator::new();
    let mut data = obj(vec![("x", Value::Array(vec![Value::Number(1)]))]);
    assert_eq!(None, jvars::delete(&mut data, "x.7", &sep));
    assert_eq!(None, jvars::delete(&mut data, "x.y", &sep));
    assert_eq!(None, jvars::delete(&mut data, "missing", &sep));
    assert_eq!(obj(vec![("x", Value::Array(vec![Value::Number(1)]))]), data);
}
