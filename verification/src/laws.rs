use vstd::prelude::*;
use crate::container::{
    batch_post, chain_args, deps_post, invoked_err, invoked_ok, resolve_post, slot_updated,
    step_wf, Container, Slot, lemma_layer_level_none, lemma_layer_level_unique,
};
use crate::errors::ErrV;
use crate::factory::{BasicFactory, Factory};
use crate::store::{lemma_has_dom, lemma_key_set, EntryV};
use crate::value::Value;

verus! {

/// A transient constant provider with no dependencies, as an entry view.
pub open spec fn const_entry(v: Value) -> EntryV<BasicFactory> {
    EntryV {
        factory: BasicFactory::Const(v),
        singleton: false,
        is_async: false,
        deps: Seq::empty(),
        cache: None,
    }
}

/// Precedence, override side: when the topmost override layer holds a key,
/// lookup resolves to that layer's entry, whatever the base store or lower
/// layers hold.
pub proof fn lemma_override_precedence<F>(c: Container<F>, k: Seq<char>)
    requires
        c.layers@.len() > 0,
        c.layers@.last().has(k),
    ensures
        c.eff_level(k) == c.layers@.len() - 1,
        c.effective(k) == Some(c.layers@.last().view_map()[k]),
{
    lemma_layer_level_unique(c.layers@, k, c.layers@.len() - 1);
}

/// Precedence, base side: when no override layer holds a key, lookup falls
/// back to the base store's entry.
pub proof fn lemma_base_fallback<F>(c: Container<F>, k: Seq<char>)
    requires
        forall|j: int| 0 <= j < c.layers@.len() ==> !(#[trigger] c.layers@[j].has(k)),
        c.base.has(k),
    ensures
        c.eff_level(k) == -1,
        c.effective(k) == Some(c.base.view_map()[k]),
{
    lemma_layer_level_none(c.layers@, k);
}

/// Singleton idempotence: once a resolution of a singleton key has returned
/// a value, a second resolution of that key returns the identical value and
/// leaves the container untouched — the cache is served, the factory is not
/// invoked again.
pub proof fn lemma_singleton_idempotent<F: Factory>(
    c0: Container<F>,
    c1: Container<F>,
    c2: Container<F>,
    k: Seq<char>,
    v1: Value,
    r2: Result<Value, ErrV>,
    f1: nat,
    f2: nat,
)
    requires
        c0.effective(k) is Some,
        c0.effective(k).unwrap().singleton,
        resolve_post(c0, k, Set::<Seq<char>>::empty(), Ok::<Value, ErrV>(v1), c1, f1),
        resolve_post(c1, k, Set::<Seq<char>>::empty(), r2, c2, f2),
    ensures
        r2 == Ok::<Value, ErrV>(v1),
        c2 == c1,
{
    reveal_with_fuel(resolve_post, 2);
    reveal_with_fuel(deps_post, 2);
    let e = c0.effective(k).unwrap();
    if e.cache is Some {
        assert(c1 == c0);
        assert(v1 == e.cache.unwrap());
    } else {
        assert(!e.is_async);
        let (mid, args): (Container<F>, Seq<Value>) = choose|mid: Container<F>, args: Seq<Value>|
            deps_post(
                c0,
                e.deps,
                Set::<Seq<char>>::empty().insert(k),
                Ok::<Seq<Value>, ErrV>(args),
                mid,
                f1,
            ) && #[trigger] chain_args(mid, args) && invoked_ok(mid, e, k, v1, args, c1);
        assert(invoked_ok(mid, e, k, v1, args, c1));
        let fac2 = choose|fac2: F|
            #[trigger] F::post(e.factory, args, fac2, Ok(v1)) && c1.effective(k) == Some(
                (EntryV {
                    factory: fac2,
                    singleton: e.singleton,
                    is_async: e.is_async,
                    deps: e.deps,
                    cache: if e.singleton {
                        Some(v1)
                    } else {
                        e.cache
                    },
                }),
            ) && (exists|sl: Slot|
                #[trigger] mid.slot_for(sl, k) && slot_updated(mid, c1, sl, c1.entry_at(sl)));
        assert(c1.effective(k).unwrap().cache == Some(v1));
    }
    assert(c1.effective(k).unwrap().singleton);
    assert(c1.effective(k).unwrap().cache == Some(v1));
}

/// Transient freshness: a transient counter provider is invoked anew on
/// every resolution, so two consecutive resolutions return distinct values —
/// the counter's consecutive handles.
pub proof fn lemma_transient_counter_fresh(
    c0: Container<BasicFactory>,
    c1: Container<BasicFactory>,
    c2: Container<BasicFactory>,
    k: Seq<char>,
    v1: Value,
    v2: Value,
    n: u64,
    f1: nat,
    f2: nat,
)
    requires
        n < u64::MAX,
        c0.effective(k) == Some(
            (EntryV {
                factory: BasicFactory::Counter { next: n },
                singleton: false,
                is_async: false,
                deps: Seq::<Seq<char>>::empty(),
                cache: None::<Value>,
            }),
        ),
        resolve_post(c0, k, Set::<Seq<char>>::empty(), Ok::<Value, ErrV>(v1), c1, f1),
        resolve_post(c1, k, Set::<Seq<char>>::empty(), Ok::<Value, ErrV>(v2), c2, f2),
    ensures
        v1 == (Value { handle: n }),
        v2 == (Value { handle: (n + 1) as u64 }),
        v1 != v2,
{
    reveal_with_fuel(resolve_post, 2);
    reveal_with_fuel(deps_post, 2);
    let e = c0.effective(k).unwrap();
    let (mid, args): (Container<BasicFactory>, Seq<Value>) = choose|
        mid: Container<BasicFactory>,
        args: Seq<Value>,
    |
        deps_post(
            c0,
            e.deps,
            Set::<Seq<char>>::empty().insert(k),
            Ok::<Seq<Value>, ErrV>(args),
            mid,
            f1,
        ) && #[trigger] chain_args(mid, args) && invoked_ok(mid, e, k, v1, args, c1);
    assert(invoked_ok(mid, e, k, v1, args, c1));
    let fac2 = choose|fac2: BasicFactory|
        #[trigger] BasicFactory::post(e.factory, args, fac2, Ok(v1)) && c1.effective(k) == Some(
            (EntryV {
                factory: fac2,
                singleton: e.singleton,
                is_async: e.is_async,
                deps: e.deps,
                cache: if e.singleton {
                    Some(v1)
                } else {
                    e.cache
                },
            }),
        ) && (exists|sl: Slot|
            #[trigger] mid.slot_for(sl, k) && slot_updated(mid, c1, sl, c1.entry_at(sl)));
    assert(v1 == (Value { handle: n }));
    assert(fac2 == (BasicFactory::Counter { next: (n + 1) as u64 }));
    let e1 = c1.effective(k).unwrap();
    let (mid2, args2): (Container<BasicFactory>, Seq<Value>) = choose|
        mid2: Container<BasicFactory>,
        args2: Seq<Value>,
    |
        deps_post(
            c1,
            e1.deps,
            Set::<Seq<char>>::empty().insert(k),
            Ok::<Seq<Value>, ErrV>(args2),
            mid2,
            f2,
        ) && #[trigger] chain_args(mid2, args2) && invoked_ok(mid2, e1, k, v2, args2, c2);
    assert(invoked_ok(mid2, e1, k, v2, args2, c2));
    let fac3 = choose|fac3: BasicFactory|
        #[trigger] BasicFactory::post(e1.factory, args2, fac3, Ok(v2)) && c2.effective(k) == Some(
            (EntryV {
                factory: fac3,
                singleton: e1.singleton,
                is_async: e1.is_async,
                deps: e1.deps,
                cache: if e1.singleton {
                    Some(v2)
                } else {
                    e1.cache
                },
            }),
        ) && (exists|sl: Slot|
            #[trigger] mid2.slot_for(sl, k) && slot_updated(mid2, c2, sl, c2.entry_at(sl)));
    assert(v2 == (Value { handle: (n + 1) as u64 }));
}

/// Missing key: resolving a key with no effective entry fails with
/// `NotFound` and leaves the container exactly as it was.
pub proof fn lemma_missing_key<F: Factory>(
    c0: Container<F>,
    c1: Container<F>,
    k: Seq<char>,
    r: Result<Value, ErrV>,
    fuel: nat,
)
    requires
        c0.effective(k) is None,
        resolve_post(c0, k, Set::<Seq<char>>::empty(), r, c1, fuel),
    ensures
        r == Err::<Value, ErrV>(ErrV::NotFound(k)),
        c1 == c0,
{
}

/// Async rejection: an entry marked async (and not served from cache) fails
/// on the synchronous path with `AsyncUnsupported`, with no side effect at
/// all — no dependency is resolved and no factory is invoked.
pub proof fn lemma_async_rejected<F: Factory>(
    c0: Container<F>,
    c1: Container<F>,
    k: Seq<char>,
    r: Result<Value, ErrV>,
    fuel: nat,
)
    requires
        c0.effective(k) is Some,
        c0.effective(k).unwrap().is_async,
        !(c0.effective(k).unwrap().singleton && c0.effective(k).unwrap().cache is Some),
        resolve_post(c0, k, Set::<Seq<char>>::empty(), r, c1, fuel),
    ensures
        r == Err::<Value, ErrV>(ErrV::AsyncUnsupported(k)),
        c1 == c0,
{
}

/// Resolving an effective transient constant provider always succeeds with
/// its constant, touches only that entry's slot, and leaves the entry equal
/// to itself.
pub proof fn lemma_resolve_const(
    c0: Container<BasicFactory>,
    c1: Container<BasicFactory>,
    k: Seq<char>,
    v: Value,
    r: Result<Value, ErrV>,
    fuel: nat,
)
    requires
        c0.effective(k) == Some(const_entry(v)),
        resolve_post(c0, k, Set::<Seq<char>>::empty(), r, c1, fuel),
    ensures
        r == Ok::<Value, ErrV>(v),
        c1.effective(k) == Some(const_entry(v)),
        exists|sl: Slot|
            #[trigger] c0.slot_for(sl, k) && slot_updated(c0, c1, sl, c1.entry_at(sl)),
{
    reveal_with_fuel(resolve_post, 2);
    reveal_with_fuel(deps_post, 2);
    let e = const_entry(v);
    let s1 = Set::<Seq<char>>::empty().insert(k);
    match r {
        Ok(v1) => {
            let (mid, args): (Container<BasicFactory>, Seq<Value>) = choose|
                mid: Container<BasicFactory>,
                args: Seq<Value>,
            |
                deps_post(c0, e.deps, s1, Ok::<Seq<Value>, ErrV>(args), mid, fuel)
                    && #[trigger] chain_args(mid, args) && invoked_ok(mid, e, k, v1, args, c1);
            assert(mid == c0);
            assert(invoked_ok(mid, e, k, v1, args, c1));
            let fac2 = choose|fac2: BasicFactory|
                #[trigger] BasicFactory::post(e.factory, args, fac2, Ok(v1)) && c1.effective(k)
                    == Some(
                    (EntryV {
                        factory: fac2,
                        singleton: e.singleton,
                        is_async: e.is_async,
                        deps: e.deps,
                        cache: if e.singleton {
                            Some(v1)
                        } else {
                            e.cache
                        },
                    }),
                ) && (exists|sl: Slot|
                    #[trigger] mid.slot_for(sl, k) && slot_updated(mid, c1, sl, c1.entry_at(sl)));
            assert(v1 == v);
            assert(fac2 == BasicFactory::Const(v));
            let sl = choose|sl: Slot|
                #[trigger] mid.slot_for(sl, k) && slot_updated(mid, c1, sl, c1.entry_at(sl));
            assert(c0.slot_for(sl, k) && slot_updated(c0, c1, sl, c1.entry_at(sl)));
        },
        Err(ev) => {
            if exists|mid: Container<BasicFactory>|
                deps_post(c0, e.deps, s1, Err::<Seq<Value>, ErrV>(ev), mid, fuel) && (
                #[trigger] mid.wf()) && c1 == mid {
                let mid = choose|mid: Container<BasicFactory>|
                    deps_post(c0, e.deps, s1, Err::<Seq<Value>, ErrV>(ev), mid, fuel) && (
                    #[trigger] mid.wf()) && c1 == mid;
                assert(false);
            } else {
                match ev {
                    ErrV::Factory(p) => {
                        let (mid, args): (Container<BasicFactory>, Seq<Value>) = choose|
                            mid: Container<BasicFactory>,
                            args: Seq<Value>,
                        |
                            deps_post(
                                c0,
                                e.deps,
                                s1,
                                Ok::<Seq<Value>, ErrV>(args),
                                mid,
                                fuel,
                            ) && #[trigger] chain_args(mid, args) && invoked_err(
                                mid,
                                e,
                                k,
                                p,
                                args,
                                c1,
                            );
                        assert(invoked_err(mid, e, k, p, args, c1));
                        let fac2 = choose|fac2: BasicFactory|
                            #[trigger] BasicFactory::post(e.factory, args, fac2, Err(p))
                                && c1.effective(k) == Some(
                                (EntryV {
                                    factory: fac2,
                                    singleton: e.singleton,
                                    is_async: e.is_async,
                                    deps: e.deps,
                                    cache: e.cache,
                                }),
                            ) && (exists|sl: Slot|
                                #[trigger] mid.slot_for(sl, k) && slot_updated(
                                    mid,
                                    c1,
                                    sl,
                                    c1.entry_at(sl),
                                ));
                        assert(false);
                    },
                    _ => {
                        assert(false);
                    },
                }
            }
        },
    }
}

/// Cycle detection, first-dependency case: an entry whose first declared
/// dependency is its own key, or any key already in progress, can never
/// resolve — the cycle is detected before any factory is invoked, and the
/// container is left exactly as it was.
pub proof fn lemma_direct_cycle<F: Factory>(
    c0: Container<F>,
    c1: Container<F>,
    k: Seq<char>,
    r: Result<Value, ErrV>,
    seen: Set<Seq<char>>,
    fuel: nat,
)
    requires
        !seen.contains(k),
        c0.effective(k) is Some,
        !(c0.effective(k).unwrap().singleton && c0.effective(k).unwrap().cache is Some),
        !c0.effective(k).unwrap().is_async,
        c0.effective(k).unwrap().deps.len() > 0,
        seen.insert(k).contains(c0.effective(k).unwrap().deps[0]),
        resolve_post(c0, k, seen, r, c1, fuel),
    ensures
        r == Err::<Value, ErrV>(ErrV::Cycle(c0.effective(k).unwrap().deps[0])),
        c1 == c0,
{
    reveal_with_fuel(resolve_post, 2);
    reveal_with_fuel(deps_post, 2);
    let e = c0.effective(k).unwrap();
    let d0 = e.deps[0];
    let s1 = seen.insert(k);
    match r {
        Ok(v) => {
            let (mid, args): (Container<F>, Seq<Value>) = choose|
                mid: Container<F>,
                args: Seq<Value>,
            |
                deps_post(c0, e.deps, s1, Ok::<Seq<Value>, ErrV>(args), mid, fuel)
                    && #[trigger] chain_args(mid, args) && invoked_ok(mid, e, k, v, args, c1);
            lemma_deps_first_in_progress(c0, e.deps, s1, Ok::<Seq<Value>, ErrV>(args), mid, fuel);
            assert(false);
        },
        Err(ev) => {
            if exists|mid: Container<F>|
                deps_post(c0, e.deps, s1, Err::<Seq<Value>, ErrV>(ev), mid, fuel) && (
                #[trigger] mid.wf()) && c1 == mid {
                let mid = choose|mid: Container<F>|
                    deps_post(c0, e.deps, s1, Err::<Seq<Value>, ErrV>(ev), mid, fuel) && (
                    #[trigger] mid.wf()) && c1 == mid;
                lemma_deps_first_in_progress(
                    c0,
                    e.deps,
                    s1,
                    Err::<Seq<Value>, ErrV>(ev),
                    mid,
                    fuel,
                );
                assert(ev == ErrV::Cycle(d0));
                assert(mid == c0);
            } else {
                match ev {
                    ErrV::Factory(p) => {
                        let (mid, args): (Container<F>, Seq<Value>) = choose|
                            mid: Container<F>,
                            args: Seq<Value>,
                        |
                            deps_post(
                                c0,
                                e.deps,
                                s1,
                                Ok::<Seq<Value>, ErrV>(args),
                                mid,
                                fuel,
                            ) && #[trigger] chain_args(mid, args) && invoked_err(
                                mid,
                                e,
                                k,
                                p,
                                args,
                                c1,
                            );
                        lemma_deps_first_in_progress(
                            c0,
                            e.deps,
                            s1,
                            Ok::<Seq<Value>, ErrV>(args),
                            mid,
                            fuel,
                        );
                        assert(false);
                    },
                    _ => {
                        assert(false);
                    },
                }
            }
        },
    }
}

/// A dependency chain whose first key is already in progress fails at once
/// with that key's cycle error, leaving the container untouched.
pub proof fn lemma_deps_first_in_progress<F: Factory>(
    pre: Container<F>,
    ds: Seq<Seq<char>>,
    seen: Set<Seq<char>>,
    r: Result<Seq<Value>, ErrV>,
    post: Container<F>,
    fuel: nat,
)
    requires
        ds.len() > 0,
        seen.contains(ds[0]),
        deps_post(pre, ds, seen, r, post, fuel),
    ensures
        r == Err::<Seq<Value>, ErrV>(ErrV::Cycle(ds[0])),
        post == pre,
{
    reveal_with_fuel(resolve_post, 2);
    reveal_with_fuel(deps_post, 2);
    let (r1, mid1): (Result<Value, ErrV>, Container<F>) = choose|
        r1: Result<Value, ErrV>,
        mid1: Container<F>,
    |
        resolve_post(pre, ds[0], seen, r1, mid1, (fuel - 1) as nat) && #[trigger] step_wf(
            r1,
            mid1,
        ) && match r1 {
            Ok(v) => match r {
                Ok(vs) => vs.len() == ds.len() && vs[0] == v && deps_post(
                    mid1,
                    ds.drop_first(),
                    seen,
                    Ok(vs.drop_first()),
                    post,
                    fuel,
                ),
                Err(e2) => deps_post(mid1, ds.drop_first(), seen, Err(e2), post, fuel),
            },
            Err(e2) => r == Err::<Seq<Value>, ErrV>(e2) && post == mid1,
        };
    assert(r1 == Err::<Value, ErrV>(ErrV::Cycle(ds[0])));
    assert(mid1 == pre);
}

/// Cycle detection, mutual case: with `A`'s first dependency naming `B` and
/// `B`'s first dependency naming `A`, resolving `A` must fail with the cycle
/// error at `A`; neither factory is invoked and no cache is written — the
/// container is left exactly as it was.
pub proof fn lemma_two_key_cycle<F: Factory>(
    c0: Container<F>,
    c1: Container<F>,
    a: Seq<char>,
    b: Seq<char>,
    r: Result<Value, ErrV>,
    fuel: nat,
)
    requires
        a != b,
        c0.effective(a) is Some,
        !(c0.effective(a).unwrap().singleton && c0.effective(a).unwrap().cache is Some),
        !c0.effective(a).unwrap().is_async,
        c0.effective(a).unwrap().deps.len() > 0,
        c0.effective(a).unwrap().deps[0] == b,
        c0.effective(b) is Some,
        !(c0.effective(b).unwrap().singleton && c0.effective(b).unwrap().cache is Some),
        !c0.effective(b).unwrap().is_async,
        c0.effective(b).unwrap().deps.len() > 0,
        c0.effective(b).unwrap().deps[0] == a,
        resolve_post(c0, a, Set::<Seq<char>>::empty(), r, c1, fuel),
    ensures
        r == Err::<Value, ErrV>(ErrV::Cycle(a)),
        c1 == c0,
{
    reveal_with_fuel(resolve_post, 2);
    reveal_with_fuel(deps_post, 2);
    let ea = c0.effective(a).unwrap();
    let s1 = Set::<Seq<char>>::empty().insert(a);
    match r {
        Ok(v) => {
            let (mid, args): (Container<F>, Seq<Value>) = choose|
                mid: Container<F>,
                args: Seq<Value>,
            |
                deps_post(c0, ea.deps, s1, Ok::<Seq<Value>, ErrV>(args), mid, fuel)
                    && #[trigger] chain_args(mid, args) && invoked_ok(mid, ea, a, v, args, c1);
            lemma_deps_first_is_mutual_cycle(c0, ea.deps, a, b, Ok::<Seq<Value>, ErrV>(args), mid, fuel);
            assert(false);
        },
        Err(ev) => {
            if exists|mid: Container<F>|
                deps_post(c0, ea.deps, s1, Err::<Seq<Value>, ErrV>(ev), mid, fuel) && (
                #[trigger] mid.wf()) && c1 == mid {
                let mid = choose|mid: Container<F>|
                    deps_post(c0, ea.deps, s1, Err::<Seq<Value>, ErrV>(ev), mid, fuel) && (
                    #[trigger] mid.wf()) && c1 == mid;
                lemma_deps_first_is_mutual_cycle(
                    c0,
                    ea.deps,
                    a,
                    b,
                    Err::<Seq<Value>, ErrV>(ev),
                    mid,
                    fuel,
                );
                assert(ev == ErrV::Cycle(a));
                assert(mid == c0);
            } else {
                match ev {
                    ErrV::Factory(p) => {
                        let (mid, args): (Container<F>, Seq<Value>) = choose|
                            mid: Container<F>,
                            args: Seq<Value>,
                        |
                            deps_post(
                                c0,
                                ea.deps,
                                s1,
                                Ok::<Seq<Value>, ErrV>(args),
                                mid,
                                fuel,
                            ) && #[trigger] chain_args(mid, args) && invoked_err(
                                mid,
                                ea,
                                a,
                                p,
                                args,
                                c1,
                            );
                        lemma_deps_first_is_mutual_cycle(
                            c0,
                            ea.deps,
                            a,
                            b,
                            Ok::<Seq<Value>, ErrV>(args),
                            mid,
                            fuel,
                        );
                        assert(false);
                    },
                    _ => {
                        assert(false);
                    },
                }
            }
        },
    }
}

/// Helper for the mutual cycle: a dependency chain for `a` whose first key
/// is `b`, where `b`'s own first dependency is `a`, fails at once with
/// `Cycle(a)` and leaves the container untouched.
proof fn lemma_deps_first_is_mutual_cycle<F: Factory>(
    c0: Container<F>,
    ds: Seq<Seq<char>>,
    a: Seq<char>,
    b: Seq<char>,
    r: Result<Seq<Value>, ErrV>,
    post: Container<F>,
    fuel: nat,
)
    requires
        a != b,
        ds.len() > 0,
        ds[0] == b,
        c0.effective(b) is Some,
        !(c0.effective(b).unwrap().singleton && c0.effective(b).unwrap().cache is Some),
        !c0.effective(b).unwrap().is_async,
        c0.effective(b).unwrap().deps.len() > 0,
        c0.effective(b).unwrap().deps[0] == a,
        deps_post(c0, ds, Set::<Seq<char>>::empty().insert(a), r, post, fuel),
    ensures
        r == Err::<Seq<Value>, ErrV>(ErrV::Cycle(a)),
        post == c0,
{
    reveal_with_fuel(resolve_post, 2);
    reveal_with_fuel(deps_post, 2);
    let s1 = Set::<Seq<char>>::empty().insert(a);
    let (r1, mid1): (Result<Value, ErrV>, Container<F>) = choose|
        r1: Result<Value, ErrV>,
        mid1: Container<F>,
    |
        resolve_post(c0, ds[0], s1, r1, mid1, (fuel - 1) as nat) && #[trigger] step_wf(r1, mid1)
            && match r1 {
            Ok(v) => match r {
                Ok(vs) => vs.len() == ds.len() && vs[0] == v && deps_post(
                    mid1,
                    ds.drop_first(),
                    s1,
                    Ok(vs.drop_first()),
                    post,
                    fuel,
                ),
                Err(e2) => deps_post(mid1, ds.drop_first(), s1, Err(e2), post, fuel),
            },
            Err(e2) => r == Err::<Seq<Value>, ErrV>(e2) && post == mid1,
        };
    assert(s1.insert(b).contains(c0.effective(b).unwrap().deps[0]));
    lemma_direct_cycle(c0, mid1, b, r1, s1, (fuel - 1) as nat);
    assert(r1 == Err::<Value, ErrV>(ErrV::Cycle(a)));
    assert(mid1 == c0);
}

/// Batch independence, transient side: a batch of the same transient counter
/// key twice invokes the factory twice and returns two distinct values.
pub proof fn lemma_batch_transient_pair(
    c0: Container<BasicFactory>,
    c2: Container<BasicFactory>,
    k: Seq<char>,
    vs: Seq<Value>,
    n: u64,
    fuel: nat,
)
    requires
        n < u64::MAX,
        c0.effective(k) == Some(
            (EntryV {
                factory: BasicFactory::Counter { next: n },
                singleton: false,
                is_async: false,
                deps: Seq::<Seq<char>>::empty(),
                cache: None::<Value>,
            }),
        ),
        batch_post(c0, seq![k, k], Ok::<Seq<Value>, ErrV>(vs), c2, fuel),
    ensures
        vs.len() == 2,
        vs[0] == (Value { handle: n }),
        vs[1] == (Value { handle: (n + 1) as u64 }),
        vs[0] != vs[1],
{
    let ks = seq![k, k];
    let (r1, mid): (Result<Value, ErrV>, Container<BasicFactory>) = choose|
        r1: Result<Value, ErrV>,
        mid: Container<BasicFactory>,
    |
        resolve_post(c0, ks[0], Set::<Seq<char>>::empty(), r1, mid, fuel) && #[trigger] step_wf(
            r1,
            mid,
        ) && match r1 {
            Ok(v) => vs.len() == ks.len() && vs[0] == v && batch_post(
                mid,
                ks.drop_first(),
                Ok::<Seq<Value>, ErrV>(vs.drop_first()),
                c2,
                fuel,
            ),
            Err(e) => Ok::<Seq<Value>, ErrV>(vs) == Err::<Seq<Value>, ErrV>(e) && c2 == mid,
        };
    match r1 {
        Ok(v1) => {
            let ks1 = ks.drop_first();
            assert(ks1.len() == 1);
            assert(ks1[0] == k);
            let (r2, mid2): (Result<Value, ErrV>, Container<BasicFactory>) = choose|
                r2: Result<Value, ErrV>,
                mid2: Container<BasicFactory>,
            |
                resolve_post(mid, ks1[0], Set::<Seq<char>>::empty(), r2, mid2, fuel)
                    && #[trigger] step_wf(r2, mid2) && match r2 {
                    Ok(v) => vs.drop_first().len() == ks1.len() && vs.drop_first()[0] == v
                        && batch_post(
                        mid2,
                        ks1.drop_first(),
                        Ok::<Seq<Value>, ErrV>(vs.drop_first().drop_first()),
                        c2,
                        fuel,
                    ),
                    Err(e) => Ok::<Seq<Value>, ErrV>(vs.drop_first()) == Err::<
                        Seq<Value>,
                        ErrV,
                    >(e) && c2 == mid2,
                };
            match r2 {
                Ok(v2) => {
                    lemma_transient_counter_fresh(c0, mid, mid2, k, v1, v2, n, fuel, fuel);
                },
                Err(_e) => {},
            }
        },
        Err(_e) => {},
    }
}

/// Batch independence, singleton side: a batch of the same uncached
/// singleton key twice invokes the factory once and returns the identical
/// value twice.
pub proof fn lemma_batch_singleton_pair<F: Factory>(
    c0: Container<F>,
    c2: Container<F>,
    k: Seq<char>,
    vs: Seq<Value>,
    fuel: nat,
)
    requires
        c0.effective(k) is Some,
        c0.effective(k).unwrap().singleton,
        batch_post(c0, seq![k, k], Ok::<Seq<Value>, ErrV>(vs), c2, fuel),
    ensures
        vs.len() == 2,
        vs[1] == vs[0],
{
    let ks = seq![k, k];
    let (r1, mid): (Result<Value, ErrV>, Container<F>) = choose|
        r1: Result<Value, ErrV>,
        mid: Container<F>,
    |
        resolve_post(c0, ks[0], Set::<Seq<char>>::empty(), r1, mid, fuel) && #[trigger] step_wf(
            r1,
            mid,
        ) && match r1 {
            Ok(v) => vs.len() == ks.len() && vs[0] == v && batch_post(
                mid,
                ks.drop_first(),
                Ok::<Seq<Value>, ErrV>(vs.drop_first()),
                c2,
                fuel,
            ),
            Err(e) => Ok::<Seq<Value>, ErrV>(vs) == Err::<Seq<Value>, ErrV>(e) && c2 == mid,
        };
    match r1 {
        Ok(v1) => {
            let ks1 = ks.drop_first();
            assert(ks1.len() == 1);
            assert(ks1[0] == k);
            let (r2, mid2): (Result<Value, ErrV>, Container<F>) = choose|
                r2: Result<Value, ErrV>,
                mid2: Container<F>,
            |
                resolve_post(mid, ks1[0], Set::<Seq<char>>::empty(), r2, mid2, fuel)
                    && #[trigger] step_wf(r2, mid2) && match r2 {
                    Ok(v) => vs.drop_first().len() == ks1.len() && vs.drop_first()[0] == v
                        && batch_post(
                        mid2,
                        ks1.drop_first(),
                        Ok::<Seq<Value>, ErrV>(vs.drop_first().drop_first()),
                        c2,
                        fuel,
                    ),
                    Err(e) => Ok::<Seq<Value>, ErrV>(vs.drop_first()) == Err::<
                        Seq<Value>,
                        ErrV,
                    >(e) && c2 == mid2,
                };
            match r2 {
                Ok(v2) => {
                    lemma_singleton_idempotent(c0, mid, mid2, k, v1, r2, fuel, fuel);
                    assert(vs[1] == vs.drop_first()[0]);
                },
                Err(_e) => {
                    lemma_singleton_idempotent(c0, mid, mid2, k, v1, r2, fuel, fuel);
                },
            }
        },
        Err(_e) => {},
    }
}

/// Cache write guard, success side: after an explicit cache write to a
/// singleton key, resolving that key returns the written value without
/// invoking the factory, and the container is untouched by the resolution.
pub proof fn lemma_set_cached_then_resolve<F: Factory>(
    c1: Container<F>,
    c2: Container<F>,
    k: Seq<char>,
    v: Value,
    r: Result<Value, ErrV>,
    fuel: nat,
)
    requires
        c1.effective(k) is Some,
        c1.effective(k).unwrap().singleton,
        c1.effective(k).unwrap().cache == Some(v),
        resolve_post(c1, k, Set::<Seq<char>>::empty(), r, c2, fuel),
    ensures
        r == Ok::<Value, ErrV>(v),
        c2 == c1,
{
}

} // verus!
