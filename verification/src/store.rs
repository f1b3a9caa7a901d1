use vstd::prelude::*;
use crate::factory::Factory;
use crate::value::Value;

verus! {

/// One registered provider: a factory, its immutable metadata, and the
/// optional cached value (used only when `singleton` is true).
pub struct StoreEntry<F> {
    pub key: String,
    pub factory: F,
    pub singleton: bool,
    pub is_async: bool,
    pub deps: Vec<String>,
    pub cache: Option<Value>,
}

/// The mathematical shape of one provider entry.
pub ghost struct EntryV<F> {
    pub factory: F,
    pub singleton: bool,
    pub is_async: bool,
    pub deps: Seq<Seq<char>>,
    pub cache: Option<Value>,
}

/// A provider store: a mapping from string keys to provider entries. Keys are
/// unique; re-registering a key overwrites its whole entry (and thus discards
/// any prior cache).
pub struct Store<F> {
    pub entries: Vec<StoreEntry<F>>,
}

/// The view of one entry.
pub open spec fn entry_v<F>(e: StoreEntry<F>) -> EntryV<F> {
    EntryV {
        factory: e.factory,
        singleton: e.singleton,
        is_async: e.is_async,
        deps: e.deps@.map_values(|d: String| d@),
        cache: e.cache,
    }
}

/// Whether some entry of `s` bears the key `k`.
pub open spec fn has_key<F>(s: Seq<StoreEntry<F>>, k: Seq<char>) -> bool {
    exists|i: int| 0 <= i < s.len() && s[i].key@ == k
}

/// The index of the entry bearing `k` (unique when keys are distinct).
pub open spec fn idx_of<F>(s: Seq<StoreEntry<F>>, k: Seq<char>) -> int {
    choose|i: int| 0 <= i < s.len() && s[i].key@ == k
}

/// Key uniqueness: no two entries bear the same key.
pub open spec fn distinct_keys<F>(s: Seq<StoreEntry<F>>) -> bool {
    forall|i: int, j: int| 0 <= i < j < s.len() ==> s[i].key@ != s[j].key@
}

/// The set of keys present in `s`.
pub open spec fn key_set<F>(s: Seq<StoreEntry<F>>) -> Set<Seq<char>> {
    s.map_values(|e: StoreEntry<F>| e.key@).to_set()
}

/// The store as a mapping from keys to entry views.
pub open spec fn to_map<F>(s: Seq<StoreEntry<F>>) -> Map<Seq<char>, EntryV<F>> {
    Map::new(|k: Seq<char>| has_key(s, k), |k: Seq<char>| entry_v(s[idx_of(s, k)]))
}

/// `key_set` and the view's domain agree, and both are finite.
pub proof fn lemma_key_set<F>(s: Seq<StoreEntry<F>>)
    ensures
        to_map(s).dom() =~= key_set(s),
        key_set(s).finite(),
        to_map(s).dom().finite(),
{
    broadcast use vstd::seq_lib::seq_to_set_is_finite;

    let mapped = s.map_values(|e: StoreEntry<F>| e.key@);
    assert forall|k: Seq<char>| has_key(s, k) implies key_set(s).contains(k) by {
        let i = choose|i: int| 0 <= i < s.len() && s[i].key@ == k;
        assert(mapped[i] == k);
    }
    assert forall|k: Seq<char>| key_set(s).contains(k) implies has_key(s, k) by {
        let i = choose|i: int| 0 <= i < mapped.len() && mapped[i] == k;
        assert(s[i].key@ == k);
    }
}

/// With distinct keys, the view at the key of entry `i` is that entry.
pub proof fn lemma_view_at<F>(s: Seq<StoreEntry<F>>, i: int)
    requires
        distinct_keys(s),
        0 <= i < s.len(),
    ensures
        has_key(s, s[i].key@),
        idx_of(s, s[i].key@) == i,
        to_map(s)[s[i].key@] == entry_v(s[i]),
{
    let k = s[i].key@;
    assert(has_key(s, k));
    let j = idx_of(s, k);
    assert(0 <= j < s.len() && s[j].key@ == k);
    if i != j {
        assert(s[i].key@ != s[j].key@);
    }
}

/// Replacing entry `i` by one bearing the same key updates the view at that
/// key and nothing else.
pub proof fn lemma_update_entry<F>(s: Seq<StoreEntry<F>>, i: int, e: StoreEntry<F>)
    requires
        distinct_keys(s),
        0 <= i < s.len(),
        e.key@ == s[i].key@,
    ensures
        distinct_keys(s.update(i, e)),
        key_set(s.update(i, e)) =~= key_set(s),
        to_map(s.update(i, e)) =~= to_map(s).insert(e.key@, entry_v(e)),
{
    let t = s.update(i, e);
    let k = e.key@;
    assert forall|m: int, n: int| 0 <= m < n < t.len() implies t[m].key@ != t[n].key@ by {
        assert(s[m].key@ != s[n].key@);
    }
    assert forall|k2: Seq<char>| has_key(t, k2) implies has_key(s, k2) by {
        let j = choose|j: int| 0 <= j < t.len() && t[j].key@ == k2;
        assert(s[j].key@ == k2);
    }
    assert forall|k2: Seq<char>| has_key(s, k2) implies has_key(t, k2) by {
        let j = choose|j: int| 0 <= j < s.len() && s[j].key@ == k2;
        assert(t[j].key@ == k2);
    }
    assert forall|k2: Seq<char>| has_key(t, k2) implies to_map(t)[k2] == to_map(s).insert(
        k,
        entry_v(e),
    )[k2] by {
        lemma_view_at(t, idx_of(t, k2));
        if k2 == k {
            lemma_view_at(t, i);
        } else {
            let j = idx_of(t, k2);
            assert(j != i);
            assert(s[j].key@ == k2);
            lemma_view_at(s, j);
        }
    }
    lemma_key_set(s);
    lemma_key_set(t);
    assert forall|k2: Seq<char>| key_set(t).contains(k2) implies key_set(s).contains(k2) by {
        assert(has_key(t, k2));
    }
    assert forall|k2: Seq<char>| key_set(s).contains(k2) implies key_set(t).contains(k2) by {
        assert(has_key(s, k2));
    }
    assert(to_map(t).dom() =~= to_map(s).insert(k, entry_v(e)).dom());
}

/// Appending an entry with a fresh key inserts it into the view.
pub proof fn lemma_push_entry<F>(s: Seq<StoreEntry<F>>, e: StoreEntry<F>)
    requires
        distinct_keys(s),
        !has_key(s, e.key@),
    ensures
        distinct_keys(s.push(e)),
        key_set(s.push(e)) =~= key_set(s).insert(e.key@),
        to_map(s.push(e)) =~= to_map(s).insert(e.key@, entry_v(e)),
{
    let t = s.push(e);
    let k = e.key@;
    assert forall|m: int, n: int| 0 <= m < n < t.len() implies t[m].key@ != t[n].key@ by {
        if n < s.len() {
            assert(s[m].key@ != s[n].key@);
        } else {
            assert(t[n].key@ == k);
            assert(t[m].key@ == s[m].key@);
            if s[m].key@ == k {
                assert(has_key(s, k));
            }
        }
    }
    assert forall|k2: Seq<char>| has_key(t, k2) implies (k2 == k || has_key(s, k2)) by {
        let j = choose|j: int| 0 <= j < t.len() && t[j].key@ == k2;
        if j < s.len() {
            assert(s[j].key@ == k2);
        }
    }
    assert forall|k2: Seq<char>| has_key(s, k2) implies has_key(t, k2) by {
        let j = choose|j: int| 0 <= j < s.len() && s[j].key@ == k2;
        assert(t[j].key@ == k2);
    }
    assert(t[s.len() as int].key@ == k);
    assert(has_key(t, k));
    assert forall|k2: Seq<char>| has_key(t, k2) implies to_map(t)[k2] == to_map(s).insert(
        k,
        entry_v(e),
    )[k2] by {
        lemma_view_at(t, idx_of(t, k2));
        if k2 == k {
            lemma_view_at(t, s.len() as int);
        } else {
            let j = idx_of(t, k2);
            assert(j < s.len());
            assert(s[j].key@ == k2);
            lemma_view_at(s, j);
        }
    }
    lemma_key_set(s);
    lemma_key_set(t);
    assert(to_map(t).dom() =~= to_map(s).insert(k, entry_v(e)).dom());
}

/// A key is in the view's domain exactly when some entry bears it.
pub proof fn lemma_has_dom<F>(s: Seq<StoreEntry<F>>)
    ensures
        forall|k: Seq<char>| has_key(s, k) <==> #[trigger] to_map(s).dom().contains(k),
{
}

/// Copies a list of keys.
pub fn clone_strings(v: &Vec<String>) -> (r: Vec<String>)
    ensures
        r@ =~= v@,
{
    let mut r: Vec<String> = Vec::new();
    let n = v.len();
    let mut i: usize = 0;
    while i < n
        invariant
            i <= n,
            n == v@.len(),
            r@.len() == i,
            forall|m: int| 0 <= m < i ==> r@[m] == v@[m],
        decreases n - i,
    {
        r.push(v[i].clone());
        i += 1;
    }
    r
}

impl<F> Store<F> {
    /// The store's well-formedness: keys unique.
    pub open spec fn wf(self) -> bool {
        distinct_keys(self.entries@)
    }

    /// The store as a mapping from keys to entry views.
    pub open spec fn view_map(self) -> Map<Seq<char>, EntryV<F>> {
        to_map(self.entries@)
    }

    /// Whether the store holds an entry for `k`.
    pub open spec fn has(self, k: Seq<char>) -> bool {
        has_key(self.entries@, k)
    }

    /// The keys present in the store.
    pub open spec fn keys(self) -> Set<Seq<char>> {
        key_set(self.entries@)
    }

    /// Creates an empty store.
    pub fn new() -> (s: Store<F>)
        ensures
            s.wf(),
            s.entries@.len() == 0,
            s.view_map() =~= Map::<Seq<char>, EntryV<F>>::empty(),
            s.keys() =~= Set::<Seq<char>>::empty(),
    {
        let s = Store { entries: Vec::new() };
        proof {
            lemma_key_set(s.entries@);
            assert forall|k: Seq<char>| !has_key(s.entries@, k) by {}
        }
        s
    }

    /// Plain map lookup: the index of the entry for `key`, if any.
    pub fn find(&self, key: &String) -> (r: Option<usize>)
        ensures
            match r {
                Some(i) => i < self.entries@.len() && self.entries@[i as int].key@ == key@,
                None => !self.has(key@),
            },
    {
        let n = self.entries.len();
        let mut i: usize = 0;
        while i < n
            invariant
                n == self.entries@.len(),
                i <= n,
                forall|j: int| 0 <= j < i ==> self.entries@[j].key@ != key@,
            decreases n - i,
        {
            if self.entries[i].key == *key {
                return Some(i);
            }
            i += 1;
        }
        None
    }

    /// Inserts or overwrites the entry for `key` with a fresh, uncached
    /// entry built from the given factory and metadata.
    pub fn put(&mut self, key: String, factory: F, singleton: bool, is_async: bool, deps: Vec<
        String,
    >)
        requires
            old(self).wf(),
        ensures
            final(self).wf(),
            final(self).view_map() =~= old(self).view_map().insert(
                key@,
                (EntryV {
                    factory,
                    singleton,
                    is_async,
                    deps: deps@.map_values(|d: String| d@),
                    cache: None,
                }),
            ),
            final(self).keys() =~= old(self).keys().insert(key@),
    {
        let entry = StoreEntry { key, factory, singleton, is_async, deps, cache: None };
        let found = self.find(&entry.key);
        match found {
            Some(i) => {
                let ghost pre = self.entries@;
                let ghost ev = entry_v(entry);
                let ghost k = entry.key@;
                self.entries[i] = entry;
                proof {
                    lemma_update_entry(pre, i as int, self.entries@[i as int]);
                    lemma_key_set(pre);
                    assert(has_key(pre, k));
                    assert(key_set(pre).insert(k) =~= key_set(pre));
                }
            },
            None => {
                let ghost pre = self.entries@;
                let ghost k = entry.key@;
                self.entries.push(entry);
                proof {
                    lemma_push_entry(pre, self.entries@.last());
                    assert(self.entries@.drop_last() =~= pre);
                    assert(self.entries@ =~= pre.push(self.entries@.last()));
                }
            },
        }
    }

    /// Fills the cache slot of entry `i`, leaving everything else untouched.
    pub fn write_cache_at(&mut self, i: usize, v: Value)
        requires
            old(self).wf(),
            (i as int) < old(self).entries@.len(),
        ensures
            final(self).wf(),
            final(self).entries@ =~= old(self).entries@.update(
                i as int,
                (StoreEntry { cache: Some(v), ..old(self).entries@[i as int] }),
            ),
            final(self).view_map() =~= old(self).view_map().insert(
                old(self).entries@[i as int].key@,
                (EntryV { cache: Some(v), ..entry_v(old(self).entries@[i as int]) }),
            ),
            final(self).keys() =~= old(self).keys(),
    {
        let ghost pre = self.entries@;
        self.entries[i].cache = Some(v);
        proof {
            assert(self.entries@ =~= pre.update(
                i as int,
                (StoreEntry { cache: Some(v), ..pre[i as int] }),
            ));
            lemma_update_entry(pre, i as int, self.entries@[i as int]);
            assert(entry_v(self.entries@[i as int]) == (EntryV {
                cache: Some(v),
                ..entry_v(pre[i as int])
            }));
        }
    }
}

impl<F: Factory> Store<F> {
    /// Invokes the factory of entry `i` on `args`; only that entry's factory
    /// state may change.
    pub fn call_at(&mut self, i: usize, args: &Vec<Value>) -> (r: Result<Value, Value>)
        requires
            old(self).wf(),
            (i as int) < old(self).entries@.len(),
        ensures
            final(self).wf(),
            F::post(
                old(self).entries@[i as int].factory,
                args@,
                final(self).entries@[i as int].factory,
                r,
            ),
            final(self).entries@ =~= old(self).entries@.update(
                i as int,
                (StoreEntry {
                    factory: final(self).entries@[i as int].factory,
                    ..old(self).entries@[i as int]
                }),
            ),
            final(self).view_map() =~= old(self).view_map().insert(
                old(self).entries@[i as int].key@,
                (EntryV {
                    factory: final(self).entries@[i as int].factory,
                    ..entry_v(old(self).entries@[i as int])
                }),
            ),
            final(self).keys() =~= old(self).keys(),
    {
        let ghost pre = self.entries@;
        let e = &mut self.entries[i];
        let r = e.factory.call(args);
        proof {
            assert(self.entries@ =~= pre.update(
                i as int,
                (StoreEntry { factory: self.entries@[i as int].factory, ..pre[i as int] }),
            ));
            lemma_update_entry(pre, i as int, self.entries@[i as int]);
            assert(entry_v(self.entries@[i as int]) == (EntryV {
                factory: self.entries@[i as int].factory,
                ..entry_v(pre[i as int])
            }));
        }
        r
    }
}

} // verus!
