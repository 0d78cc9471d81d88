use task_graph::{ExtendedContext, GraphError, Kind, Value};

#[test]
fn get_after_set_returns_the_value() {
    let mut ctx = ExtendedContext::new();
    ctx.set("counter", 42i32);
    ctx.set("name", "hello".to_string());
    ctx.set("flag", true);
    ctx.set("big", 7u64);
    ctx.set("size", 3usize);
    ctx.set("list", vec!["a".to_string(), "b".to_string()]);
    assert_eq!(ctx.get::<i32>("counter"), Some(&42));
    assert_eq!(ctx.get::<String>("name"), Some(&"hello".to_string()));
    assert_eq!(ctx.get::<bool>("flag"), Some(&true));
    assert_eq!(ctx.get::<u64>("big"), Some(&7));
    assert_eq!(ctx.get::<usize>("size"), Some(&3));
    assert_eq!(ctx.get::<Vec<String>>("list"), Some(&vec!["a".to_string(), "b".to_string()]));
}

#[test]
fn get_with_another_type_is_none() {
    let mut ctx = ExtendedContext::new();
    ctx.set("counter", 42i32);
    assert_eq!(ctx.get::<i64>("counter"), None);
    assert_eq!(ctx.get::<bool>("counter"), None);
    assert_eq!(ctx.get::<String>("counter"), None);
    assert_eq!(ctx.get::<i32>("missing"), None);
}

#[test]
fn set_replaces_and_keeps_other_keys() {
    let mut ctx = ExtendedContext::new();
    ctx.set("a", 1i32);
    ctx.set("b", 2i32);
    ctx.set("a", true);
    assert_eq!(ctx.get::<i32>("a"), None);
    assert_eq!(ctx.get::<bool>("a"), Some(&true));
    assert_eq!(ctx.get::<i32>("b"), Some(&2));
    assert_eq!(ctx.keys().len(), 2);
}

#[test]
fn get_mut_changes_the_stored_value() {
    let mut ctx = ExtendedContext::new();
    ctx.set("order", vec!["A".to_string()]);
    ctx.get_mut::<Vec<String>>("order").unwrap().push("B".to_string());
    assert_eq!(ctx.get::<Vec<String>>("order"), Some(&vec!["A".to_string(), "B".to_string()]));
    assert!(ctx.get_mut::<i32>("n").is_none());
    assert_eq!(ctx.get::<i32>("n"), None);
    assert!(ctx.get_mut::<bool>("order").is_none());
}

#[test]
fn remove_returns_the_value_and_drops_the_key() {
    let mut ctx = ExtendedContext::new();
    ctx.set("x", 5i64);
    assert_eq!(ctx.remove::<i64>("x"), Some(5));
    assert!(!ctx.contains_key("x"));
    assert_eq!(ctx.remove::<i64>("x"), None);
}

#[test]
fn remove_with_another_type_still_drops_the_key() {
    let mut ctx = ExtendedContext::new();
    ctx.set("x", 5i64);
    assert_eq!(ctx.remove::<i32>("x"), None);
    assert!(!ctx.contains_key("x"));
}

#[test]
fn contains_keys_and_clear() {
    let mut ctx = ExtendedContext::new();
    assert!(!ctx.contains_key("k"));
    ctx.set("k", 1u32);
    ctx.set("j", 2u32);
    assert!(ctx.contains_key("k"));
    let mut keys: Vec<String> = ctx.keys().into_iter().cloned().collect();
    keys.sort();
    assert_eq!(keys, vec!["j".to_string(), "k".to_string()]);
    let mut list = ctx.key_list();
    list.sort();
    assert_eq!(list, keys);
    ctx.clear();
    assert!(!ctx.contains_key("k"));
    assert!(ctx.keys().is_empty());
}

#[test]
fn legacy_data_is_kept_under_its_key() {
    let mut ctx = ExtendedContext::with_data(99i32);
    assert_eq!(ctx.get_data::<i32>(), Some(&99));
    assert_eq!(ctx.get::<i32>("__legacy_data"), Some(&99));
    *ctx.get_data_mut::<i32>().unwrap() = 100;
    assert_eq!(ctx.get_data::<i32>(), Some(&100));
    assert_eq!(ctx.get_data::<bool>(), None);
    let empty = ExtendedContext::default();
    assert_eq!(empty.get_data::<i32>(), None);
}

#[test]
fn get_cloned_and_get_or() {
    let mut ctx = ExtendedContext::new();
    ctx.set("s", "text".to_string());
    assert_eq!(ctx.get_cloned::<String>("s"), Some("text".to_string()));
    assert_eq!(ctx.get_cloned::<i32>("s"), None);
    assert_eq!(ctx.get_or::<String>("s", "default".to_string()), "text");
    assert_eq!(ctx.get_or::<i32>("s", 7), 7);
    assert_eq!(ctx.get_or::<i32>("missing", 8), 8);
}

#[test]
fn update_applies_the_updater() {
    let mut ctx = ExtendedContext::new();
    ctx.set("counter", 1i32);
    ctx.update::<i32, _>("counter", |v| v + 1).unwrap();
    assert_eq!(ctx.get::<i32>("counter"), Some(&2));
}

#[test]
fn update_of_missing_key_fails_and_changes_nothing() {
    let mut ctx = ExtendedContext::new();
    ctx.set("counter", 1i32);
    match ctx.update::<i32, _>("nope", |v| v + 1) {
        Err(GraphError::TaskExecutionFailed(m)) => assert_eq!(m, "Key 'nope' not found"),
        other => panic!("unexpected result {:?}", other),
    }
    // A value of another type counts as missing too.
    assert!(ctx.update::<bool, _>("counter", |v| !v).is_err());
    assert_eq!(ctx.get::<i32>("counter"), Some(&1));
    assert!(!ctx.contains_key("nope"));
}

#[test]
fn update_or_insert_uses_default_when_missing() {
    let mut ctx = ExtendedContext::new();
    ctx.update_or_insert::<i32, _>("hits", 10, |v| v + 1);
    assert_eq!(ctx.get::<i32>("hits"), Some(&11));
    ctx.update_or_insert::<i32, _>("hits", 10, |v| v + 1);
    assert_eq!(ctx.get::<i32>("hits"), Some(&12));
}

#[test]
fn stored_values_carry_their_kind() {
    let mut ctx = ExtendedContext::new();
    ctx.set("u", 1u32);
    assert_eq!(ctx.get::<u32>("u"), Some(&1));
    assert_eq!(ctx.get::<u64>("u"), None);
    let v = Value::U32(3);
    assert!(matches!(v, Value::U32(3)));
    assert_ne!(Kind::U32, Kind::U64);
}

#[test]
fn static_str_is_kept_apart_from_string() {
    let mut ctx = ExtendedContext::new();
    ctx.set("my_string", "hello world");
    ctx.set("my_number", 42i32);
    assert_eq!(ctx.get::<String>("my_string"), None);
    assert_eq!(ctx.get::<&'static str>("my_string"), Some(&"hello world"));
    assert_eq!(ctx.get::<i32>("my_number"), Some(&42));
    assert_eq!(ctx.get::<i32>("missing"), None);
}

#[test]
fn integer_lists_and_bytes_are_stored() {
    let mut ctx = ExtendedContext::new();
    ctx.set("my_vec", vec![1, 2, 3]);
    ctx.set("byte", 7u8);
    assert_eq!(ctx.get_or::<Vec<i32>>("my_vec", vec![]), vec![1, 2, 3]);
    assert_eq!(ctx.get_or::<Vec<i32>>("absent", vec![9]), vec![9]);
    assert_eq!(ctx.get_or::<i32>("my_vec", 4), 4);
    assert_eq!(ctx.get::<u8>("byte"), Some(&7));
    assert_eq!(ctx.get::<u32>("byte"), None);
    ctx.get_mut::<Vec<i32>>("my_vec").unwrap().push(4);
    assert_eq!(ctx.get_cloned::<Vec<i32>>("my_vec"), Some(vec![1, 2, 3, 4]));
}
