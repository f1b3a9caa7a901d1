use fastdi::container::Container;
use fastdi::errors::DiError;
use fastdi::factory::BasicFactory;
use fastdi::value::Value;

fn s(x: &str) -> String {
    String::from(x)
}

#[test]
fn override_takes_precedence_and_pop_restores_base() {
    let mut c: Container<BasicFactory> = Container::new();
    c.register_provider(
        s("A"),
        BasicFactory::Const(Value::new(1)),
        false,
        false,
        Vec::new(),
    );
    assert_eq!(c.resolve(&s("A")).unwrap(), Value::new(1));
    c.begin_override_layer();
    c.set_override(
        s("A"),
        BasicFactory::Const(Value::new(2)),
        false,
        false,
        Vec::new(),
    );
    assert_eq!(c.resolve(&s("A")).unwrap(), Value::new(2));
    c.end_override_layer();
    assert_eq!(c.resolve(&s("A")).unwrap(), Value::new(1));
}

#[test]
fn dangling_override_without_layer_is_discarded() {
    let mut c: Container<BasicFactory> = Container::new();
    c.register_provider(
        s("A"),
        BasicFactory::Const(Value::new(1)),
        false,
        false,
        Vec::new(),
    );
    // no layer was pushed: the override has no observable effect
    c.set_override(
        s("A"),
        BasicFactory::Const(Value::new(2)),
        false,
        false,
        Vec::new(),
    );
    assert_eq!(c.resolve(&s("A")).unwrap(), Value::new(1));
    let (factory, _, _, _) = c.get_provider_info(&s("A")).unwrap();
    assert_eq!(factory, BasicFactory::Const(Value::new(1)));
}

#[test]
fn nested_layers_shadow_in_order() {
    let mut c: Container<BasicFactory> = Container::new();
    c.register_provider(
        s("A"),
        BasicFactory::Const(Value::new(1)),
        false,
        false,
        Vec::new(),
    );
    c.begin_override_layer();
    c.set_override(
        s("A"),
        BasicFactory::Const(Value::new(2)),
        false,
        false,
        Vec::new(),
    );
    c.begin_override_layer();
    c.set_override(
        s("A"),
        BasicFactory::Const(Value::new(3)),
        false,
        false,
        Vec::new(),
    );
    assert_eq!(c.resolve(&s("A")).unwrap(), Value::new(3));
    c.end_override_layer();
    assert_eq!(c.resolve(&s("A")).unwrap(), Value::new(2));
    c.end_override_layer();
    assert_eq!(c.resolve(&s("A")).unwrap(), Value::new(1));
}

#[test]
fn popping_with_no_layers_is_a_safe_noop() {
    let mut c: Container<BasicFactory> = Container::new();
    c.end_override_layer();
    c.register_provider(
        s("A"),
        BasicFactory::Const(Value::new(1)),
        false,
        false,
        Vec::new(),
    );
    c.end_override_layer();
    assert_eq!(c.resolve(&s("A")).unwrap(), Value::new(1));
}

#[test]
fn overriding_a_singleton_starts_a_fresh_cache() {
    let mut c: Container<BasicFactory> = Container::new();
    c.register_provider(
        s("S"),
        BasicFactory::Counter { next: 1 },
        true,
        false,
        Vec::new(),
    );
    assert_eq!(c.resolve(&s("S")).unwrap(), Value::new(1));
    c.begin_override_layer();
    c.set_override(
        s("S"),
        BasicFactory::Counter { next: 10 },
        true,
        false,
        Vec::new(),
    );
    // the override's cache is its own, independent of the base entry's
    assert_eq!(c.resolve(&s("S")).unwrap(), Value::new(10));
    assert_eq!(c.resolve(&s("S")).unwrap(), Value::new(10));
    c.end_override_layer();
    // the base entry's cache survived the override scope
    assert_eq!(c.resolve(&s("S")).unwrap(), Value::new(1));
}

#[test]
fn set_cached_rejects_transient_and_missing_keys() {
    let mut c: Container<BasicFactory> = Container::new();
    c.register_provider(
        s("T"),
        BasicFactory::Const(Value::new(1)),
        false,
        false,
        Vec::new(),
    );
    let r = c.set_cached(&s("T"), Value::new(5));
    assert!(matches!(r, Err(DiError::InvalidCacheTarget(k)) if k == "T"));
    let r = c.set_cached(&s("nope"), Value::new(5));
    assert!(matches!(r, Err(DiError::InvalidCacheTarget(k)) if k == "nope"));
}

#[test]
fn set_cached_on_singleton_preempts_the_factory() {
    let mut c: Container<BasicFactory> = Container::new();
    c.register_provider(
        s("S"),
        BasicFactory::Counter { next: 7 },
        true,
        false,
        Vec::new(),
    );
    c.set_cached(&s("S"), Value::new(42)).unwrap();
    assert_eq!(c.resolve(&s("S")).unwrap(), Value::new(42));
    // the factory was never invoked
    let (factory, _, _, _) = c.get_provider_info(&s("S")).unwrap();
    assert_eq!(factory, BasicFactory::Counter { next: 7 });
}

#[test]
fn get_cached_reports_only_populated_slots() {
    let mut c: Container<BasicFactory> = Container::new();
    c.register_provider(
        s("S"),
        BasicFactory::Counter { next: 0 },
        true,
        false,
        Vec::new(),
    );
    c.register_provider(
        s("T"),
        BasicFactory::Counter { next: 0 },
        false,
        false,
        Vec::new(),
    );
    assert_eq!(c.get_cached(&s("S")), None);
    assert_eq!(c.get_cached(&s("missing")), None);
    c.resolve(&s("S")).unwrap();
    assert_eq!(c.get_cached(&s("S")), Some(Value::new(0)));
    c.resolve(&s("T")).unwrap();
    assert_eq!(c.get_cached(&s("T")), None);
}

#[test]
fn get_cached_searches_past_uncached_override_entries() {
    let mut c: Container<BasicFactory> = Container::new();
    c.register_provider(
        s("S"),
        BasicFactory::Counter { next: 1 },
        true,
        false,
        Vec::new(),
    );
    c.resolve(&s("S")).unwrap();
    c.begin_override_layer();
    c.set_override(
        s("S"),
        BasicFactory::Counter { next: 10 },
        true,
        false,
        Vec::new(),
    );
    // the override entry has no cache yet; the base entry's cache is found
    assert_eq!(c.get_cached(&s("S")), Some(Value::new(1)));
    c.resolve(&s("S")).unwrap();
    assert_eq!(c.get_cached(&s("S")), Some(Value::new(10)));
    c.end_override_layer();
    assert_eq!(c.get_cached(&s("S")), Some(Value::new(1)));
}

#[test]
fn get_provider_info_reports_the_effective_entry() {
    let mut c: Container<BasicFactory> = Container::new();
    let r = c.get_provider_info(&s("A"));
    assert!(matches!(r, Err(DiError::NotFound(k)) if k == "A"));
    c.register_provider(
        s("A"),
        BasicFactory::Const(Value::new(1)),
        true,
        false,
        vec![s("B"), s("C")],
    );
    let (factory, singleton, is_async, deps) = c.get_provider_info(&s("A")).unwrap();
    assert_eq!(factory, BasicFactory::Const(Value::new(1)));
    assert!(singleton);
    assert!(!is_async);
    assert_eq!(deps, vec![s("B"), s("C")]);
    c.begin_override_layer();
    c.set_override(
        s("A"),
        BasicFactory::Const(Value::new(2)),
        false,
        true,
        Vec::new(),
    );
    let (factory, singleton, is_async, deps) = c.get_provider_info(&s("A")).unwrap();
    assert_eq!(factory, BasicFactory::Const(Value::new(2)));
    assert!(!singleton);
    assert!(is_async);
    assert!(deps.is_empty());
}
