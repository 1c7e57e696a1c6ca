use audion::environment::Environment;

#[test]
fn define_then_get() {
    let mut env: Environment<i32> = Environment::new();
    env.define("x".to_string(), 1);
    assert_eq!(env.get("x"), Some(&1));
    assert_eq!(env.get("y"), None);
    env.define("x".to_string(), 2);
    assert_eq!(env.get("x"), Some(&2));
    assert_eq!(env.values().len(), 1);
}

#[test]
fn inner_binding_shadows_and_lookup_falls_through() {
    let mut outer: Environment<i32> = Environment::new();
    outer.define("a".to_string(), 1);
    outer.define("b".to_string(), 2);
    let mut inner = Environment::new_child(outer);
    inner.define("a".to_string(), 10);
    assert_eq!(inner.get("a"), Some(&10));
    assert_eq!(inner.get("b"), Some(&2));
    assert_eq!(inner.parent().unwrap().get("a"), Some(&1));
}

#[test]
fn set_updates_the_nearest_binding() {
    let mut outer: Environment<i32> = Environment::new();
    outer.define("a".to_string(), 1);
    let mut inner = Environment::new_child(outer);
    assert!(inner.set("a", 5));
    assert_eq!(inner.get("a"), Some(&5));
    assert_eq!(inner.parent().unwrap().get("a"), Some(&5));
    assert!(!inner.set("zzz", 1));
    assert_eq!(inner.get("zzz"), None);
}
