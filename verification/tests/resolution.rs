use fastdi::container::Container;
use fastdi::errors::DiError;
use fastdi::factory::BasicFactory;
use fastdi::value::Value;

fn s(x: &str) -> String {
    String::from(x)
}

fn keys(xs: &[&str]) -> Vec<String> {
    xs.iter().map(|x| s(x)).collect()
}

#[test]
fn resolve_missing_key_fails_not_found() {
    let mut c: Container<BasicFactory> = Container::new();
    let r = c.resolve(&s("nope"));
    match r {
        Err(DiError::NotFound(k)) => {
            assert_eq!(k, "nope");
            assert_eq!(
                DiError::NotFound(k).describe(),
                "no provider registered for key"
            );
        }
        other => panic!("expected NotFound, got {:?}", other),
    }
}

#[test]
fn singleton_resolves_to_identical_value() {
    let mut c: Container<BasicFactory> = Container::new();
    c.register_provider(
        s("S"),
        BasicFactory::Counter { next: 0 },
        true,
        false,
        Vec::new(),
    );
    let v1 = c.resolve(&s("S")).unwrap();
    let v2 = c.resolve(&s("S")).unwrap();
    assert_eq!(v1, Value::new(0));
    assert_eq!(v2, v1);
}

#[test]
fn transient_resolves_to_fresh_values() {
    let mut c: Container<BasicFactory> = Container::new();
    c.register_provider(
        s("T"),
        BasicFactory::Counter { next: 0 },
        false,
        false,
        Vec::new(),
    );
    let v1 = c.resolve(&s("T")).unwrap();
    let v2 = c.resolve(&s("T")).unwrap();
    assert_eq!(v1, Value::new(0));
    assert_eq!(v2, Value::new(1));
    assert_ne!(v1, v2);
}

#[test]
fn two_key_cycle_is_detected() {
    let mut c: Container<BasicFactory> = Container::new();
    c.register_provider(
        s("A"),
        BasicFactory::Const(Value::new(1)),
        false,
        false,
        keys(&["B"]),
    );
    c.register_provider(
        s("B"),
        BasicFactory::Const(Value::new(2)),
        false,
        false,
        keys(&["A"]),
    );
    let r = c.resolve(&s("A"));
    match r {
        Err(DiError::Cycle(k)) => assert_eq!(k, "A"),
        other => panic!("expected Cycle, got {:?}", other),
    }
}

#[test]
fn self_cycle_is_detected() {
    let mut c: Container<BasicFactory> = Container::new();
    c.register_provider(
        s("A"),
        BasicFactory::Const(Value::new(1)),
        false,
        false,
        keys(&["A"]),
    );
    let r = c.resolve(&s("A"));
    assert!(matches!(r, Err(DiError::Cycle(k)) if k == "A"));
}

#[test]
fn async_provider_rejected_without_invocation() {
    let mut c: Container<BasicFactory> = Container::new();
    c.register_provider(
        s("X"),
        BasicFactory::Counter { next: 5 },
        false,
        true,
        Vec::new(),
    );
    let r = c.resolve(&s("X"));
    assert!(matches!(r, Err(DiError::AsyncUnsupported(k)) if k == "X"));
    // the factory's counter is untouched: it was never invoked
    let (factory, singleton, is_async, deps) = c.get_provider_info(&s("X")).unwrap();
    assert_eq!(factory, BasicFactory::Counter { next: 5 });
    assert!(!singleton);
    assert!(is_async);
    assert!(deps.is_empty());
}

#[test]
fn async_dependency_aborts_chain() {
    let mut c: Container<BasicFactory> = Container::new();
    c.register_provider(
        s("B"),
        BasicFactory::Const(Value::new(2)),
        false,
        true,
        Vec::new(),
    );
    c.register_provider(
        s("A"),
        BasicFactory::Select {
            index: 0,
            missing: Value::new(0),
        },
        false,
        false,
        keys(&["B"]),
    );
    let r = c.resolve(&s("A"));
    assert!(matches!(r, Err(DiError::AsyncUnsupported(k)) if k == "B"));
}

#[test]
fn missing_dependency_aborts_chain() {
    let mut c: Container<BasicFactory> = Container::new();
    c.register_provider(
        s("A"),
        BasicFactory::Select {
            index: 0,
            missing: Value::new(0),
        },
        false,
        false,
        keys(&["B"]),
    );
    let r = c.resolve(&s("A"));
    assert!(matches!(r, Err(DiError::NotFound(k)) if k == "B"));
}

#[test]
fn dependencies_are_passed_in_declared_order() {
    let mut c: Container<BasicFactory> = Container::new();
    c.register_provider(
        s("B"),
        BasicFactory::Const(Value::new(10)),
        false,
        false,
        Vec::new(),
    );
    c.register_provider(
        s("C"),
        BasicFactory::Const(Value::new(20)),
        false,
        false,
        Vec::new(),
    );
    c.register_provider(
        s("first"),
        BasicFactory::Select {
            index: 0,
            missing: Value::new(0),
        },
        false,
        false,
        keys(&["B", "C"]),
    );
    c.register_provider(
        s("second"),
        BasicFactory::Select {
            index: 1,
            missing: Value::new(0),
        },
        false,
        false,
        keys(&["B", "C"]),
    );
    assert_eq!(c.resolve(&s("first")).unwrap(), Value::new(10));
    assert_eq!(c.resolve(&s("second")).unwrap(), Value::new(20));
}

#[test]
fn singleton_dependency_is_built_once_in_a_chain() {
    let mut c: Container<BasicFactory> = Container::new();
    c.register_provider(
        s("C"),
        BasicFactory::Counter { next: 0 },
        true,
        false,
        Vec::new(),
    );
    c.register_provider(
        s("B"),
        BasicFactory::Select {
            index: 0,
            missing: Value::new(0),
        },
        false,
        false,
        keys(&["C"]),
    );
    c.register_provider(
        s("A"),
        BasicFactory::Select {
            index: 1,
            missing: Value::new(0),
        },
        false,
        false,
        keys(&["B", "C"]),
    );
    // A's second argument is C itself; C was cached while building B
    assert_eq!(c.resolve(&s("A")).unwrap(), Value::new(0));
    let (factory, _, _, _) = c.get_provider_info(&s("C")).unwrap();
    assert_eq!(factory, BasicFactory::Counter { next: 1 });
}

#[test]
fn factory_error_propagates_verbatim() {
    let mut c: Container<BasicFactory> = Container::new();
    c.register_provider(
        s("B"),
        BasicFactory::Fail(Value::new(9)),
        false,
        false,
        Vec::new(),
    );
    c.register_provider(
        s("A"),
        BasicFactory::Select {
            index: 0,
            missing: Value::new(0),
        },
        false,
        false,
        keys(&["B"]),
    );
    assert!(matches!(c.resolve(&s("B")), Err(DiError::Factory(v)) if v == Value::new(9)));
    assert!(matches!(c.resolve(&s("A")), Err(DiError::Factory(v)) if v == Value::new(9)));
}

#[test]
fn select_with_too_few_arguments_fails() {
    let mut c: Container<BasicFactory> = Container::new();
    c.register_provider(
        s("B"),
        BasicFactory::Const(Value::new(1)),
        false,
        false,
        Vec::new(),
    );
    c.register_provider(
        s("A"),
        BasicFactory::Select {
            index: 2,
            missing: Value::new(77),
        },
        false,
        false,
        keys(&["B"]),
    );
    assert!(matches!(c.resolve(&s("A")), Err(DiError::Factory(v)) if v == Value::new(77)));
}

#[test]
fn batch_transient_invokes_factory_per_occurrence() {
    let mut c: Container<BasicFactory> = Container::new();
    c.register_provider(
        s("T"),
        BasicFactory::Counter { next: 0 },
        false,
        false,
        Vec::new(),
    );
    let vs = c.resolve_many(&keys(&["T", "T"])).unwrap();
    assert_eq!(vs, vec![Value::new(0), Value::new(1)]);
}

#[test]
fn batch_singleton_invokes_factory_once() {
    let mut c: Container<BasicFactory> = Container::new();
    c.register_provider(
        s("S"),
        BasicFactory::Counter { next: 0 },
        true,
        false,
        Vec::new(),
    );
    let vs = c.resolve_many(&keys(&["S", "S"])).unwrap();
    assert_eq!(vs, vec![Value::new(0), Value::new(0)]);
    let (factory, _, _, _) = c.get_provider_info(&s("S")).unwrap();
    assert_eq!(factory, BasicFactory::Counter { next: 1 });
}

#[test]
fn batch_result_order_matches_input_order() {
    let mut c: Container<BasicFactory> = Container::new();
    c.register_provider(
        s("A"),
        BasicFactory::Const(Value::new(1)),
        false,
        false,
        Vec::new(),
    );
    c.register_provider(
        s("B"),
        BasicFactory::Const(Value::new(2)),
        false,
        false,
        Vec::new(),
    );
    let vs = c.resolve_many(&keys(&["B", "A", "B"])).unwrap();
    assert_eq!(vs, vec![Value::new(2), Value::new(1), Value::new(2)]);
}

#[test]
fn batch_failure_aborts_but_keeps_earlier_caches() {
    let mut c: Container<BasicFactory> = Container::new();
    c.register_provider(
        s("S"),
        BasicFactory::Counter { next: 3 },
        true,
        false,
        Vec::new(),
    );
    let r = c.resolve_many(&keys(&["S", "missing"]));
    assert!(matches!(r, Err(DiError::NotFound(k)) if k == "missing"));
    // the singleton cache populated before the failure remains
    assert_eq!(c.get_cached(&s("S")), Some(Value::new(3)));
}

#[test]
fn batch_of_no_keys_succeeds_empty() {
    let mut c: Container<BasicFactory> = Container::new();
    let vs = c.resolve_many(&Vec::new()).unwrap();
    assert!(vs.is_empty());
}

#[test]
fn reregistering_a_key_discards_its_cache() {
    let mut c: Container<BasicFactory> = Container::new();
    c.register_provider(
        s("S"),
        BasicFactory::Counter { next: 5 },
        true,
        false,
        Vec::new(),
    );
    assert_eq!(c.resolve(&s("S")).unwrap(), Value::new(5));
    assert_eq!(c.resolve(&s("S")).unwrap(), Value::new(5));
    c.register_provider(
        s("S"),
        BasicFactory::Counter { next: 9 },
        true,
        false,
        Vec::new(),
    );
    assert_eq!(c.resolve(&s("S")).unwrap(), Value::new(9));
}
