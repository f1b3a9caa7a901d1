use vstd::prelude::*;
use vstd::seq_lib::*;
use vstd::set_lib::*;
use crate::errors::{DiError, ErrV, outcome, outcome_unit};
use crate::factory::Factory;
use crate::store::{
    EntryV, Store, StoreEntry, clone_strings, entry_v, has_key, lemma_has_dom, lemma_key_set,
    lemma_view_at,
};
use crate::value::Value;

verus! {

/// The dependency-injection container: a base provider store plus a stack of
/// override layers (the last layer is the topmost). Lookup precedence is
/// strictly topmost-override-first, base-store-last; first match wins.
///
/// The container is a synchronous, single-call-at-a-time engine: exclusive
/// access is expressed by `&mut self`, and a host that shares one container
/// across threads serializes every operation behind one exclusive lock.
pub struct Container<F> {
    pub base: Store<F>,
    pub layers: Vec<Store<F>>,
}

/// Where a lookup found its entry: in an override layer (layer index, entry
/// index) or in the base store (entry index).
#[derive(Clone, Copy)]
pub enum Slot {
    InLayer(usize, usize),
    InBase(usize),
}

/// The index of the topmost layer holding `k`, or -1 when no layer does.
pub open spec fn layer_level<F>(layers: Seq<Store<F>>, k: Seq<char>) -> int
    decreases layers.len(),
{
    if layers.len() == 0 {
        -1
    } else if layers.last().has(k) {
        layers.len() - 1
    } else {
        layer_level(layers.drop_last(), k)
    }
}

/// What `layer_level` means: it is the topmost layer holding `k`, if any.
pub proof fn lemma_layer_level<F>(layers: Seq<Store<F>>, k: Seq<char>)
    ensures
        -1 <= layer_level(layers, k) < layers.len(),
        layer_level(layers, k) >= 0 ==> layers[layer_level(layers, k)].has(k),
        forall|j: int|
            layer_level(layers, k) < j < layers.len() ==> !(#[trigger] layers[j].has(k)),
    decreases layers.len(),
{
    if layers.len() > 0 && !layers.last().has(k) {
        lemma_layer_level(layers.drop_last(), k);
        assert forall|j: int|
            layer_level(layers, k) < j < layers.len() implies !(#[trigger] layers[j].has(k)) by {
            if j < layers.len() - 1 {
                assert(layers.drop_last()[j] == layers[j]);
            }
        }
    }
}

/// A layer holding `k` with none above it is the level of `k`.
pub proof fn lemma_layer_level_unique<F>(layers: Seq<Store<F>>, k: Seq<char>, j: int)
    requires
        0 <= j < layers.len(),
        layers[j].has(k),
        forall|j2: int| j < j2 < layers.len() ==> !(#[trigger] layers[j2].has(k)),
    ensures
        layer_level(layers, k) == j,
{
    lemma_layer_level(layers, k);
    let l = layer_level(layers, k);
    if l < j {
        assert(!layers[j].has(k));
    }
    if l > j {
        assert(!layers[l].has(k));
    }
}

/// If no layer holds `k`, the level is -1.
pub proof fn lemma_layer_level_none<F>(layers: Seq<Store<F>>, k: Seq<char>)
    requires
        forall|j: int| 0 <= j < layers.len() ==> !(#[trigger] layers[j].has(k)),
    ensures
        layer_level(layers, k) == -1,
{
    lemma_layer_level(layers, k);
    let l = layer_level(layers, k);
    if l >= 0 {
        assert(!layers[l].has(k));
    }
}

/// Levels depend only on which layers hold which keys.
pub proof fn lemma_layer_level_congruence<F>(a: Seq<Store<F>>, b: Seq<Store<F>>, k: Seq<char>)
    requires
        a.len() == b.len(),
        forall|j: int| 0 <= j < a.len() ==> (a[j].has(k) <==> #[trigger] b[j].has(k)),
    ensures
        layer_level(a, k) == layer_level(b, k),
    decreases a.len(),
{
    if a.len() > 0 {
        assert(a.last() == a[a.len() - 1]);
        assert(b.last() == b[b.len() - 1]);
        if !a.last().has(k) {
            lemma_layer_level_congruence(a.drop_last(), b.drop_last(), k);
            assert forall|j: int| 0 <= j < a.drop_last().len() implies (a.drop_last()[j].has(k)
                <==> #[trigger] b.drop_last()[j].has(k)) by {
                assert(a.drop_last()[j] == a[j]);
                assert(b.drop_last()[j] == b[j]);
            }
        }
    }
}

/// The set of keys registered anywhere in the given layers.
pub open spec fn layer_keys<F>(layers: Seq<Store<F>>) -> Set<Seq<char>>
    decreases layers.len(),
{
    if layers.len() == 0 {
        Set::empty()
    } else {
        layer_keys(layers.drop_last()).union(layers.last().keys())
    }
}

/// `layer_keys` is finite and holds exactly the keys some layer holds.
pub proof fn lemma_layer_keys<F>(layers: Seq<Store<F>>)
    ensures
        layer_keys(layers).finite(),
        forall|k: Seq<char>|
            #[trigger] layer_keys(layers).contains(k) <==> exists|j: int|
                0 <= j < layers.len() && #[trigger] layers[j].has(k),
    decreases layers.len(),
{
    if layers.len() == 0 {
    } else {
        lemma_layer_keys(layers.drop_last());
        lemma_key_set(layers.last().entries@);
        assert forall|k: Seq<char>| #[trigger] layer_keys(layers).contains(k) implies exists|
            j: int,
        | 0 <= j < layers.len() && #[trigger] layers[j].has(k) by {
            if layer_keys(layers.drop_last()).contains(k) {
                let j = choose|j: int|
                    0 <= j < layers.drop_last().len() && #[trigger] layers.drop_last()[j].has(k);
                assert(layers[j].has(k));
            } else {
                assert(layers.last().keys().contains(k));
                assert(layers[layers.len() - 1].has(k));
            }
        }
        assert forall|k: Seq<char>|
            exists|j: int| 0 <= j < layers.len() && #[trigger] layers[j].has(k) implies #[trigger]
            layer_keys(layers).contains(k) by {
            let j = choose|j: int| 0 <= j < layers.len() && #[trigger] layers[j].has(k);
            if j < layers.len() - 1 {
                assert(layers.drop_last()[j].has(k));
            } else {
                assert(layers.last().has(k));
            }
        }
    }
}

impl<F> Container<F> {
    /// Well-formedness: every store has unique keys.
    pub open spec fn wf(self) -> bool {
        &&& self.base.wf()
        &&& forall|j: int| 0 <= j < self.layers@.len() ==> (#[trigger] self.layers@[j]).wf()
    }

    /// Where the effective entry for `k` lives: a layer index, -1 for the
    /// base store, or -2 when `k` is registered nowhere.
    pub open spec fn eff_level(self, k: Seq<char>) -> int {
        let l = layer_level(self.layers@, k);
        if l >= 0 {
            l
        } else if self.base.has(k) {
            -1
        } else {
            -2
        }
    }

    /// The effective entry for `k`: the topmost override layer's entry if
    /// any layer holds `k`, else the base store's entry, else none.
    pub open spec fn effective(self, k: Seq<char>) -> Option<EntryV<F>> {
        let l = self.eff_level(k);
        if l >= 0 {
            Some(self.layers@[l].view_map()[k])
        } else if l == -1 {
            Some(self.base.view_map()[k])
        } else {
            None
        }
    }

    /// Every key registered in the base store or any layer.
    pub open spec fn all_keys(self) -> Set<Seq<char>> {
        self.base.keys().union(layer_keys(self.layers@))
    }

    /// `all_keys` is finite, and an effective entry implies membership.
    pub proof fn lemma_all_keys(self, k: Seq<char>)
        ensures
            self.all_keys().finite(),
            self.effective(k) is Some ==> self.all_keys().contains(k),
    {
        lemma_key_set(self.base.entries@);
        lemma_layer_keys(self.layers@);
        if self.effective(k) is Some {
            let l = layer_level(self.layers@, k);
            lemma_layer_level(self.layers@, k);
            if l >= 0 {
                assert(self.layers@[l].has(k));
                assert(layer_keys(self.layers@).contains(k));
            } else {
                assert(self.base.has(k));
                assert(self.base.keys().contains(k));
            }
        }
    }

    /// Whether `sl` designates the entry that lookup for `k` finds.
    pub open spec fn slot_for(self, sl: Slot, k: Seq<char>) -> bool {
        match sl {
            Slot::InLayer(j, i) => {
                &&& self.eff_level(k) == j as int
                &&& (j as int) < self.layers@.len()
                &&& (i as int) < self.layers@[j as int].entries@.len()
                &&& self.layers@[j as int].entries@[i as int].key@ == k
            },
            Slot::InBase(i) => {
                &&& self.eff_level(k) == -1
                &&& (i as int) < self.base.entries@.len()
                &&& self.base.entries@[i as int].key@ == k
            },
        }
    }

    /// The concrete entry a slot points at.
    pub open spec fn entry_at(self, sl: Slot) -> StoreEntry<F> {
        match sl {
            Slot::InLayer(j, i) => self.layers@[j as int].entries@[i as int],
            Slot::InBase(i) => self.base.entries@[i as int],
        }
    }

    /// A slot found for `k` carries the effective entry for `k`.
    pub proof fn lemma_slot_effective(self, sl: Slot, k: Seq<char>)
        requires
            self.wf(),
            self.slot_for(sl, k),
        ensures
            self.effective(k) == Some(entry_v(self.entry_at(sl))),
    {
        match sl {
            Slot::InLayer(j, i) => {
                lemma_view_at(self.layers@[j as int].entries@, i as int);
            },
            Slot::InBase(i) => {
                lemma_view_at(self.base.entries@, i as int);
            },
        }
    }

    /// Searches override layers top-to-bottom, then the base store; first
    /// match wins.
    fn locate(&self, key: &String) -> (r: Option<Slot>)
        requires
            self.wf(),
        ensures
            match r {
                Some(sl) => self.slot_for(sl, key@) && self.effective(key@) == Some(
                    entry_v(self.entry_at(sl)),
                ),
                None => self.eff_level(key@) == -2 && self.effective(key@) is None,
            },
    {
        let mut j = self.layers.len();
        while j > 0
            invariant
                self.wf(),
                j <= self.layers@.len(),
                forall|j2: int|
                    j <= j2 < self.layers@.len() ==> !(#[trigger] self.layers@[j2].has(key@)),
            decreases j,
        {
            j -= 1;
            let found = self.layers[j].find(key);
            if let Some(i) = found {
                proof {
                    assert(self.layers@[j as int].has(key@));
                    lemma_layer_level_unique(self.layers@, key@, j as int);
                    self.lemma_slot_effective(Slot::InLayer(j, i), key@);
                }
                return Some(Slot::InLayer(j, i));
            }
        }
        proof {
            lemma_layer_level_none(self.layers@, key@);
        }
        match self.base.find(key) {
            Some(i) => {
                proof {
                    assert(self.base.has(key@));
                    self.lemma_slot_effective(Slot::InBase(i), key@);
                }
                Some(Slot::InBase(i))
            },
            None => None,
        }
    }
}

/// How one entry may change while a resolution is in flight: metadata is
/// immutable, a cache slot fills at most once and only on a singleton, and
/// the factory may evolve (it may have been invoked).
pub open spec fn entry_cache_evolves<F>(a: EntryV<F>, b: EntryV<F>) -> bool {
    &&& b.singleton == a.singleton
    &&& b.is_async == a.is_async
    &&& b.deps == a.deps
    &&& (a.cache is Some ==> b.cache == a.cache)
    &&& (!a.singleton ==> b.cache == a.cache)
}

/// How one store's view may change while a resolution is in flight; entries
/// of keys in `frozen` are untouched.
pub open spec fn store_map_evolves<F>(
    a: Map<Seq<char>, EntryV<F>>,
    b: Map<Seq<char>, EntryV<F>>,
    frozen: Set<Seq<char>>,
) -> bool {
    &&& b.dom() =~= a.dom()
    &&& forall|k: Seq<char>|
        #[trigger] a.dom().contains(k) ==> entry_cache_evolves(a[k], b[k]) && (frozen.contains(k)
            ==> b[k] == a[k])
}

/// How a whole container may change while a resolution is in flight: the
/// layer stack keeps its shape, every store keeps its keys, metadata never
/// changes, caches only fill, and entries of keys in `frozen` are untouched.
pub open spec fn evolves<F>(pre: Container<F>, post: Container<F>, frozen: Set<Seq<char>>) -> bool {
    &&& post.layers@.len() == pre.layers@.len()
    &&& store_map_evolves(pre.base.view_map(), post.base.view_map(), frozen)
    &&& forall|j: int|
        0 <= j < pre.layers@.len() ==> store_map_evolves(
            (#[trigger] pre.layers@[j]).view_map(),
            post.layers@[j].view_map(),
            frozen,
        )
}

/// Evolution is reflexive.
pub proof fn lemma_evolves_refl<F>(c: Container<F>, frozen: Set<Seq<char>>)
    ensures
        evolves(c, c, frozen),
{
}

/// Evolution is transitive.
pub proof fn lemma_evolves_trans<F>(
    a: Container<F>,
    b: Container<F>,
    c: Container<F>,
    frozen: Set<Seq<char>>,
)
    requires
        evolves(a, b, frozen),
        evolves(b, c, frozen),
    ensures
        evolves(a, c, frozen),
{
    assert forall|j: int| 0 <= j < a.layers@.len() implies store_map_evolves(
        (#[trigger] a.layers@[j]).view_map(),
        c.layers@[j].view_map(),
        frozen,
    ) by {
        assert(store_map_evolves(a.layers@[j].view_map(), b.layers@[j].view_map(), frozen));
        assert(store_map_evolves(b.layers@[j].view_map(), c.layers@[j].view_map(), frozen));
    }
}

/// A smaller frozen set is a weaker claim.
pub proof fn lemma_evolves_weaken<F>(
    a: Container<F>,
    b: Container<F>,
    frozen: Set<Seq<char>>,
    sub: Set<Seq<char>>,
)
    requires
        evolves(a, b, frozen),
        sub.subset_of(frozen),
    ensures
        evolves(a, b, sub),
{
}

/// What evolution preserves of lookup: levels, presence, the whole entry for
/// frozen keys, and metadata for every key.
pub proof fn lemma_evolves_effective<F>(
    a: Container<F>,
    b: Container<F>,
    frozen: Set<Seq<char>>,
    k: Seq<char>,
)
    requires
        evolves(a, b, frozen),
    ensures
        b.eff_level(k) == a.eff_level(k),
        b.effective(k) is Some <==> a.effective(k) is Some,
        a.effective(k) is Some && frozen.contains(k) ==> b.effective(k) == a.effective(k),
        a.effective(k) is Some ==> entry_cache_evolves(
            a.effective(k).unwrap(),
            b.effective(k).unwrap(),
        ),
{
    lemma_has_dom(a.base.entries@);
    lemma_has_dom(b.base.entries@);
    assert forall|j: int| 0 <= j < a.layers@.len() implies ((#[trigger] a.layers@[j]).has(k)
        <==> b.layers@[j].has(k)) by {
        assert(store_map_evolves(a.layers@[j].view_map(), b.layers@[j].view_map(), frozen));
        lemma_has_dom(a.layers@[j].entries@);
        lemma_has_dom(b.layers@[j].entries@);
        assert(b.layers@[j].view_map().dom() =~= a.layers@[j].view_map().dom());
        assert(a.layers@[j].has(k) <==> a.layers@[j].view_map().dom().contains(k));
        assert(b.layers@[j].has(k) <==> b.layers@[j].view_map().dom().contains(k));
    }
    lemma_layer_level_congruence(a.layers@, b.layers@, k);
    assert(b.base.view_map().dom() =~= a.base.view_map().dom());
    let l = layer_level(a.layers@, k);
    lemma_layer_level(a.layers@, k);
    if l >= 0 {
        assert(a.layers@[l].has(k));
        assert(a.layers@[l].view_map().dom().contains(k));
    } else if a.base.has(k) {
        assert(a.base.view_map().dom().contains(k));
    }
}

/// Evolution keeps the registered key set.
pub proof fn lemma_evolves_all_keys<F>(a: Container<F>, b: Container<F>, frozen: Set<Seq<char>>)
    requires
        evolves(a, b, frozen),
    ensures
        b.all_keys() =~= a.all_keys(),
{
    lemma_has_dom(a.base.entries@);
    lemma_has_dom(b.base.entries@);
    lemma_key_set(a.base.entries@);
    lemma_key_set(b.base.entries@);
    lemma_layer_keys(a.layers@);
    lemma_layer_keys(b.layers@);
    assert(b.base.view_map().dom() =~= a.base.view_map().dom());
    assert forall|j: int, k: Seq<char>|
        0 <= j < a.layers@.len() implies ((#[trigger] a.layers@[j].has(k)) <==> (
        #[trigger] b.layers@[j].has(k))) by {
        assert(store_map_evolves(a.layers@[j].view_map(), b.layers@[j].view_map(), frozen));
        lemma_has_dom(a.layers@[j].entries@);
        lemma_has_dom(b.layers@[j].entries@);
        assert(b.layers@[j].view_map().dom() =~= a.layers@[j].view_map().dom());
        assert(a.layers@[j].has(k) <==> a.layers@[j].view_map().dom().contains(k));
        assert(b.layers@[j].has(k) <==> b.layers@[j].view_map().dom().contains(k));
    }
    assert forall|k: Seq<char>| #[trigger] b.all_keys().contains(k) implies a.all_keys().contains(
        k,
    ) by {
        if layer_keys(b.layers@).contains(k) {
            let j = choose|j: int| 0 <= j < b.layers@.len() && #[trigger] b.layers@[j].has(k);
            assert(a.layers@[j].has(k));
            assert(layer_keys(a.layers@).contains(k));
        } else {
            assert(b.base.has(k));
            assert(a.base.keys().contains(k));
        }
    }
    assert forall|k: Seq<char>| #[trigger] a.all_keys().contains(k) implies b.all_keys().contains(
        k,
    ) by {
        if layer_keys(a.layers@).contains(k) {
            let j = choose|j: int| 0 <= j < a.layers@.len() && #[trigger] a.layers@[j].has(k);
            assert(b.layers@[j].has(k));
            assert(layer_keys(b.layers@).contains(k));
        } else {
            assert(a.base.has(k));
            assert(b.base.keys().contains(k));
        }
    }
}


/// The one-entry update a slot operation performs: everything but the slot's
/// entry is untouched.
pub open spec fn slot_updated<F>(
    pre: Container<F>,
    post: Container<F>,
    sl: Slot,
    e2: StoreEntry<F>,
) -> bool {
    &&& pre.slot_in_bounds(sl)
    &&& post.layers@.len() == pre.layers@.len()
    &&& match sl {
        Slot::InLayer(j, i) => {
            &&& post.base == pre.base
            &&& forall|j2: int|
                0 <= j2 < pre.layers@.len() && j2 != j as int ==> (#[trigger] post.layers@[j2])
                    == pre.layers@[j2]
            &&& post.layers@[j as int].entries@ =~= pre.layers@[j as int].entries@.update(
                i as int,
                e2,
            )
        },
        Slot::InBase(i) => {
            &&& post.layers@ == pre.layers@
            &&& post.base.entries@ =~= pre.base.entries@.update(i as int, e2)
        },
    }
}

/// What a one-entry update does to lookup when the new entry keeps its key:
/// the slot still designates it, every level is unchanged, and every other
/// key resolves as before.
pub proof fn lemma_slot_updated<F>(
    pre: Container<F>,
    post: Container<F>,
    sl: Slot,
    e2: StoreEntry<F>,
    k: Seq<char>,
)
    requires
        pre.wf(),
        pre.slot_for(sl, k),
        slot_updated(pre, post, sl, e2),
        e2.key@ == k,
    ensures
        post.wf(),
        post.slot_for(sl, k),
        post.entry_at(sl) == e2,
        forall|k2: Seq<char>| #[trigger] post.eff_level(k2) == pre.eff_level(k2),
        post.effective(k) == Some(entry_v(e2)),
        forall|k2: Seq<char>| k2 != k ==> #[trigger] post.effective(k2) == pre.effective(k2),
        post.all_keys() =~= pre.all_keys(),
{
    let (spre, spost) = match sl {
        Slot::InLayer(j, i) => (pre.layers@[j as int], post.layers@[j as int]),
        Slot::InBase(i) => (pre.base, post.base),
    };
    let i = match sl {
        Slot::InLayer(j, i) => i as int,
        Slot::InBase(i) => i as int,
    };
    assert(spre.wf());
    assert(spost.entries@ =~= spre.entries@.update(i, e2));
    crate::store::lemma_update_entry(spre.entries@, i, e2);
    assert(spost.wf());
    assert(spost.view_map() =~= spre.view_map().insert(k, entry_v(e2)));
    assert(spost.keys() =~= spre.keys());
    lemma_has_dom(spre.entries@);
    lemma_has_dom(spost.entries@);
    lemma_key_set(spre.entries@);
    lemma_key_set(spost.entries@);
    assert forall|k2: Seq<char>| #[trigger] spost.has(k2) <==> spre.has(k2) by {
        assert(spost.has(k2) <==> spost.view_map().dom().contains(k2));
        assert(spre.has(k2) <==> spre.view_map().dom().contains(k2));
        assert(spost.view_map().dom() =~= spre.view_map().insert(k, entry_v(e2)).dom());
        assert(spre.view_map().dom().contains(k));
        assert(spre.view_map().insert(k, entry_v(e2)).dom().contains(k2) <==> (k2 == k
            || spre.view_map().dom().contains(k2)));
    }
    assert forall|j2: int, k2: Seq<char>|
        0 <= j2 < pre.layers@.len() implies ((#[trigger] post.layers@[j2].has(k2)) <==> (
        #[trigger] pre.layers@[j2].has(k2))) by {
        match sl {
            Slot::InLayer(j, _i) => {
                if j2 != j as int {
                    assert(post.layers@[j2] == pre.layers@[j2]);
                }
            },
            Slot::InBase(_i) => {},
        }
    }
    assert forall|k2: Seq<char>| #[trigger] post.eff_level(k2) == pre.eff_level(k2) by {
        assert forall|j2: int|
            0 <= j2 < pre.layers@.len() implies ((#[trigger] pre.layers@[j2]).has(k2)
            <==> post.layers@[j2].has(k2)) by {
            assert(post.layers@[j2].has(k2) <==> pre.layers@[j2].has(k2));
        }
        lemma_layer_level_congruence(pre.layers@, post.layers@, k2);
        assert(post.base.has(k2) <==> pre.base.has(k2));
    }
    assert(post.wf()) by {
        assert forall|j2: int| 0 <= j2 < post.layers@.len() implies (
        #[trigger] post.layers@[j2]).wf() by {
            match sl {
                Slot::InLayer(j, _i) => {
                    if j2 != j as int {
                        assert(post.layers@[j2] == pre.layers@[j2]);
                        assert(pre.layers@[j2].wf());
                    }
                },
                Slot::InBase(_i) => {
                    assert(post.layers@[j2] == pre.layers@[j2]);
                    assert(pre.layers@[j2].wf());
                },
            }
        }
    }
    assert(post.effective(k) == Some(entry_v(e2))) by {
        assert(post.eff_level(k) == pre.eff_level(k));
        match sl {
            Slot::InLayer(j, _i) => {
                assert(pre.eff_level(k) == j as int);
                assert(post.layers@[j as int].view_map()[k] == entry_v(e2));
            },
            Slot::InBase(_i) => {
                assert(pre.eff_level(k) == -1);
                assert(post.base.view_map()[k] == entry_v(e2));
            },
        }
    }
    assert forall|k2: Seq<char>| k2 != k implies #[trigger] post.effective(k2) == pre.effective(
        k2,
    ) by {
        assert(post.eff_level(k2) == pre.eff_level(k2));
        lemma_layer_level(pre.layers@, k2);
        let l = pre.eff_level(k2);
        if l >= 0 {
            match sl {
                Slot::InLayer(j, _i) => {
                    if l == j as int {
                        assert(spost.view_map()[k2] == spre.view_map()[k2]);
                    } else {
                        assert(post.layers@[l] == pre.layers@[l]);
                    }
                },
                Slot::InBase(_i) => {},
            }
        } else if l == -1 {
            match sl {
                Slot::InLayer(_j, _i) => {},
                Slot::InBase(_i) => {
                    assert(spost.view_map()[k2] == spre.view_map()[k2]);
                },
            }
        }
    }
    assert(post.all_keys() =~= pre.all_keys()) by {
        lemma_layer_keys(pre.layers@);
        lemma_layer_keys(post.layers@);
        assert forall|k2: Seq<char>| #[trigger] layer_keys(post.layers@).contains(k2)
            <==> layer_keys(pre.layers@).contains(k2) by {
            if layer_keys(post.layers@).contains(k2) {
                let j2 = choose|j2: int|
                    0 <= j2 < post.layers@.len() && #[trigger] post.layers@[j2].has(k2);
                assert(pre.layers@[j2].has(k2));
            }
            if layer_keys(pre.layers@).contains(k2) {
                let j2 = choose|j2: int|
                    0 <= j2 < pre.layers@.len() && #[trigger] pre.layers@[j2].has(k2);
                assert(post.layers@[j2].has(k2));
            }
        }
        assert(post.base.keys() =~= pre.base.keys()) by {
            match sl {
                Slot::InLayer(_j, _i) => {},
                Slot::InBase(_i) => {},
            }
        }
    }
}


impl<F> Container<F> {
    /// Creates an empty container: no providers, no override layers.
    pub fn new() -> (c: Container<F>)
        ensures
            c.wf(),
            c.layers@.len() == 0,
            forall|k: Seq<char>| #[trigger] c.effective(k) is None,
            c.all_keys() =~= Set::<Seq<char>>::empty(),
    {
        let c = Container::<F> { base: Store::new(), layers: Vec::new() };
        proof {
            lemma_key_set(c.base.entries@);
            assert forall|k: Seq<char>| #[trigger] c.effective(k) is None by {
                assert(!has_key(c.base.entries@, k));
            }
        }
        c
    }

    /// Registers (or overwrites) a provider in the base store. Dependency
    /// keys are not validated here: unresolvable keys fail at resolution
    /// time. Overwriting discards any prior cache for the key.
    pub fn register_provider(
        &mut self,
        key: String,
        factory: F,
        singleton: bool,
        is_async: bool,
        dep_keys: Vec<String>,
    )
        requires
            old(self).wf(),
        ensures
            final(self).wf(),
            final(self).layers == old(self).layers,
            final(self).base.view_map() =~= old(self).base.view_map().insert(
                key@,
                (EntryV {
                    factory,
                    singleton,
                    is_async,
                    deps: dep_keys@.map_values(|d: String| d@),
                    cache: None,
                }),
            ),
            final(self).base.keys() =~= old(self).base.keys().insert(key@),
    {
        self.base.put(key, factory, singleton, is_async, dep_keys);
    }

    /// Begins an override scope: pushes a fresh, empty layer on top.
    pub fn begin_override_layer(&mut self)
        requires
            old(self).wf(),
        ensures
            final(self).wf(),
            final(self).base == old(self).base,
            final(self).layers@.len() == old(self).layers@.len() + 1,
            final(self).layers@.drop_last() =~= old(self).layers@,
            final(self).layers@.last().view_map() =~= Map::<Seq<char>, EntryV<F>>::empty(),
            final(self).layers@.last().entries@.len() == 0,
    {
        self.layers.push(Store::new());
        proof {
            assert forall|j: int| 0 <= j < self.layers@.len() implies (
            #[trigger] self.layers@[j]).wf() by {
                if j < self.layers@.len() - 1 {
                    assert(self.layers@[j] == old(self).layers@[j]);
                }
            }
        }
    }

    /// Ends the innermost override scope: removes and discards the topmost
    /// layer, with everything cached inside it. A safe no-op when no layer
    /// is present.
    pub fn end_override_layer(&mut self)
        requires
            old(self).wf(),
        ensures
            final(self).wf(),
            final(self).base == old(self).base,
            old(self).layers@.len() == 0 ==> *final(self) == *old(self),
            old(self).layers@.len() > 0 ==> final(self).layers@ =~= old(self).layers@.drop_last(),
    {
        if self.layers.len() > 0 {
            self.layers.pop();
            proof {
                assert forall|j: int| 0 <= j < self.layers@.len() implies (
                #[trigger] self.layers@[j]).wf() by {
                    assert(self.layers@[j] == old(self).layers@[j]);
                }
            }
        }
    }

    /// Writes an override entry into the topmost layer. With no layer
    /// pushed, the override is silently discarded: callers must begin an
    /// override scope first for overrides to take effect.
    pub fn set_override(
        &mut self,
        key: String,
        factory: F,
        singleton: bool,
        is_async: bool,
        dep_keys: Vec<String>,
    )
        requires
            old(self).wf(),
        ensures
            final(self).wf(),
            old(self).layers@.len() == 0 ==> *final(self) == *old(self),
            old(self).layers@.len() > 0 ==> {
                &&& final(self).base == old(self).base
                &&& final(self).layers@.len() == old(self).layers@.len()
                &&& forall|j: int|
                    0 <= j < old(self).layers@.len() - 1 ==> (#[trigger] final(self).layers@[j])
                        == old(self).layers@[j]
                &&& final(self).layers@.last().view_map() =~= old(
                    self,
                ).layers@.last().view_map().insert(
                    key@,
                    (EntryV {
                        factory,
                        singleton,
                        is_async,
                        deps: dep_keys@.map_values(|d: String| d@),
                        cache: None,
                    }),
                )
                &&& final(self).layers@.last().keys() =~= old(self).layers@.last().keys().insert(
                    key@,
                )
            },
    {
        let n = self.layers.len();
        if n == 0 {
            return ;
        }
        let top = &mut self.layers[n - 1];
        top.put(key, factory, singleton, is_async, dep_keys);
        proof {
            assert forall|j: int| 0 <= j < self.layers@.len() implies (
            #[trigger] self.layers@[j]).wf() by {
                if j < self.layers@.len() - 1 {
                    assert(self.layers@[j] == old(self).layers@[j]);
                }
            }
        }
    }

    /// In-bounds indices for a slot.
    pub open spec fn slot_in_bounds(self, sl: Slot) -> bool {
        match sl {
            Slot::InLayer(j, i) => (j as int) < self.layers@.len() && (i as int)
                < self.layers@[j as int].entries@.len(),
            Slot::InBase(i) => (i as int) < self.base.entries@.len(),
        }
    }

    /// Reads the flags and cache slot of the entry a slot points at.
    fn slot_flags(&self, sl: Slot) -> (r: (bool, bool, Option<Value>))
        requires
            self.slot_in_bounds(sl),
        ensures
            r.0 == self.entry_at(sl).singleton,
            r.1 == self.entry_at(sl).is_async,
            r.2 == self.entry_at(sl).cache,
    {
        match sl {
            Slot::InLayer(j, i) => {
                let e = &self.layers[j].entries[i];
                (e.singleton, e.is_async, e.cache)
            },
            Slot::InBase(i) => {
                let e = &self.base.entries[i];
                (e.singleton, e.is_async, e.cache)
            },
        }
    }

    /// Copies the declared dependency keys of the entry a slot points at.
    fn slot_deps(&self, sl: Slot) -> (r: Vec<String>)
        requires
            self.slot_in_bounds(sl),
        ensures
            r@ =~= self.entry_at(sl).deps@,
    {
        match sl {
            Slot::InLayer(j, i) => clone_strings(&self.layers[j].entries[i].deps),
            Slot::InBase(i) => clone_strings(&self.base.entries[i].deps),
        }
    }

    /// Fills the cache slot of the entry a slot points at.
    fn write_cache_at_slot(&mut self, sl: Slot, v: Value)
        requires
            old(self).wf(),
            old(self).slot_in_bounds(sl),
        ensures
            slot_updated(
                *old(self),
                *final(self),
                sl,
                (StoreEntry { cache: Some(v), ..old(self).entry_at(sl) }),
            ),
    {
        match sl {
            Slot::InLayer(j, i) => {
                let store = &mut self.layers[j];
                store.write_cache_at(i, v);
            },
            Slot::InBase(i) => {
                self.base.write_cache_at(i, v);
            },
        }
    }
}

impl<F: Factory> Container<F> {
    /// Invokes the factory of the entry a slot points at; only that entry's
    /// factory state may change.
    fn call_at_slot(&mut self, sl: Slot, args: &Vec<Value>) -> (r: Result<Value, Value>)
        requires
            old(self).wf(),
            old(self).slot_in_bounds(sl),
        ensures
            F::post(
                old(self).entry_at(sl).factory,
                args@,
                final(self).entry_at(sl).factory,
                r,
            ),
            slot_updated(
                *old(self),
                *final(self),
                sl,
                (StoreEntry {
                    factory: final(self).entry_at(sl).factory,
                    ..old(self).entry_at(sl)
                }),
            ),
    {
        match sl {
            Slot::InLayer(j, i) => {
                let store = &mut self.layers[j];
                store.call_at(i, args)
            },
            Slot::InBase(i) => self.base.call_at(i, args),
        }
    }
}


/// The topmost cached value among the layer entries for `k`, if any: the
/// search skips layer entries whose cache slot is empty.
pub open spec fn layer_first_cache<F>(layers: Seq<Store<F>>, k: Seq<char>) -> Option<Value>
    decreases layers.len(),
{
    if layers.len() == 0 {
        None
    } else if layers.last().has(k) && layers.last().view_map()[k].cache is Some {
        layers.last().view_map()[k].cache
    } else {
        layer_first_cache(layers.drop_last(), k)
    }
}

/// If every layer at or above `j` yields no cached value for `k`, the search
/// restricts to the layers below `j`.
pub proof fn lemma_lfc_prefix<F>(layers: Seq<Store<F>>, k: Seq<char>, j: int)
    requires
        0 <= j <= layers.len(),
        forall|j2: int|
            j <= j2 < layers.len() ==> !((#[trigger] layers[j2]).has(k)
                && layers[j2].view_map()[k].cache is Some),
    ensures
        layer_first_cache(layers, k) == layer_first_cache(layers.take(j), k),
    decreases layers.len() - j,
{
    if j == layers.len() {
        assert(layers.take(j) =~= layers);
    } else {
        let t = layers.take(layers.len() - 1);
        assert(t =~= layers.drop_last());
        assert(!(layers.last().has(k) && layers.last().view_map()[k].cache is Some)) by {
            assert(layers[layers.len() - 1] == layers.last());
        }
        assert forall|j2: int|
            j <= j2 < t.len() implies !((#[trigger] t[j2]).has(k) && t[j2].view_map()[k].cache
            is Some) by {
            assert(t[j2] == layers[j2]);
        }
        lemma_lfc_prefix(t, k, j);
        assert(t.take(j) =~= layers.take(j));
    }
}

impl<F> Container<F> {
    /// The value `get_cached` returns for `k`: the topmost cached value
    /// among the entries for `k`, overrides first, base store last.
    pub open spec fn first_cache(self, k: Seq<char>) -> Option<Value> {
        match layer_first_cache(self.layers@, k) {
            Some(v) => Some(v),
            None => if self.base.has(k) {
                self.base.view_map()[k].cache
            } else {
                None
            },
        }
    }

    /// Returns the topmost cached value for `key`, if any, searching
    /// overrides then the base store. Never fails and never mutates.
    pub fn get_cached(&self, key: &String) -> (r: Option<Value>)
        requires
            self.wf(),
        ensures
            r == self.first_cache(key@),
    {
        let mut j = self.layers.len();
        proof {
            assert(self.layers@.take(j as int) =~= self.layers@);
        }
        while j > 0
            invariant
                self.wf(),
                j <= self.layers@.len(),
                layer_first_cache(self.layers@, key@) == layer_first_cache(
                    self.layers@.take(j as int),
                    key@,
                ),
            decreases j,
        {
            j -= 1;
            let ghost pre_take = self.layers@.take(j as int + 1);
            proof {
                assert(pre_take.last() == self.layers@[j as int]);
                assert(pre_take.drop_last() =~= self.layers@.take(j as int));
            }
            let found = self.layers[j].find(key);
            if let Some(i) = found {
                let c = self.layers[j].entries[i].cache;
                proof {
                    lemma_view_at(self.layers@[j as int].entries@, i as int);
                    assert(self.layers@[j as int].has(key@));
                }
                if let Some(v) = c {
                    return Some(v);
                }
            } else {
                proof {
                    assert(!self.layers@[j as int].has(key@));
                }
            }
        }
        proof {
            assert(self.layers@.take(0) =~= Seq::<Store<F>>::empty());
        }
        match self.base.find(key) {
            Some(i) => {
                proof {
                    lemma_view_at(self.base.entries@, i as int);
                    assert(self.base.has(key@));
                }
                self.base.entries[i].cache
            },
            None => None,
        }
    }

    /// Writes `value` into the cache slot of the effective entry for `key`.
    /// Fails with `InvalidCacheTarget` when `key` has no entry or its
    /// effective entry is not a singleton; on success only that one cache
    /// slot changes.
    pub fn set_cached(&mut self, key: &String, value: Value) -> (r: Result<(), DiError>)
        requires
            old(self).wf(),
        ensures
            final(self).wf(),
            match old(self).effective(key@) {
                Some(e) => {
                    if e.singleton {
                        &&& r is Ok
                        &&& exists|sl: Slot|
                            #[trigger] old(self).slot_for(sl, key@) && slot_updated(
                                *old(self),
                                *final(self),
                                sl,
                                (StoreEntry { cache: Some(value), ..old(self).entry_at(sl) }),
                            )
                        &&& final(self).effective(key@) == Some(
                            (EntryV { cache: Some(value), ..e }),
                        )
                        &&& forall|k2: Seq<char>|
                            k2 != key@ ==> #[trigger] final(self).effective(k2) == old(
                                self,
                            ).effective(k2)
                        &&& forall|k2: Seq<char>| #[trigger]
                            final(self).eff_level(k2) == old(self).eff_level(k2)
                        &&& final(self).all_keys() =~= old(self).all_keys()
                    } else {
                        outcome_unit(r) == Err::<(), ErrV>(ErrV::InvalidCacheTarget(key@))
                            && *final(self) == *old(self)
                    }
                },
                None => outcome_unit(r) == Err::<(), ErrV>(ErrV::InvalidCacheTarget(key@))
                    && *final(self) == *old(self),
            },
    {
        let found = self.locate(key);
        match found {
            Some(sl) => {
                let (singleton, _is_async, _cache) = self.slot_flags(sl);
                if singleton {
                    let ghost pre = *self;
                    self.write_cache_at_slot(sl, value);
                    proof {
                        let e2 = StoreEntry { cache: Some(value), ..pre.entry_at(sl) };
                        lemma_slot_updated(pre, *self, sl, e2, key@);
                        assert(entry_v(e2) == (EntryV {
                            cache: Some(value),
                            ..entry_v(pre.entry_at(sl))
                        }));
                    }
                    Ok(())
                } else {
                    Err(DiError::InvalidCacheTarget(key.clone()))
                }
            },
            None => Err(DiError::InvalidCacheTarget(key.clone())),
        }
    }
}

impl<F: Copy> Container<F> {
    /// Returns the effective factory handle and metadata for `key`,
    /// searching overrides then the base store, or fails with `NotFound`.
    pub fn get_provider_info(&self, key: &String) -> (r: Result<
        (F, bool, bool, Vec<String>),
        DiError,
    >)
        requires
            self.wf(),
        ensures
            match self.effective(key@) {
                Some(e) => match r {
                    Ok(info) => {
                        &&& info.0 == e.factory
                        &&& info.1 == e.singleton
                        &&& info.2 == e.is_async
                        &&& info.3@.map_values(|d: String| d@) == e.deps
                    },
                    Err(_) => false,
                },
                None => match r {
                    Ok(_) => false,
                    Err(err) => err@ == ErrV::NotFound(key@),
                },
            },
    {
        let found = self.locate(key);
        match found {
            Some(sl) => {
                let deps = self.slot_deps(sl);
                let (singleton, is_async, _cache) = self.slot_flags(sl);
                let factory = match sl {
                    Slot::InLayer(j, i) => self.layers[j].entries[i].factory,
                    Slot::InBase(i) => self.base.entries[i].factory,
                };
                proof {
                    assert(deps@.map_values(|d: String| d@) =~= self.entry_at(
                        sl,
                    ).deps@.map_values(|d: String| d@));
                }
                Ok((factory, singleton, is_async, deps))
            },
            None => Err(DiError::NotFound(key.clone())),
        }
    }
}


/// The key views of a resolution context.
pub open spec fn seen_views(s: Seq<String>) -> Set<Seq<char>> {
    s.map_values(|x: String| x@).to_set()
}

/// Membership of a key in a resolution context.
pub open spec fn in_seen(s: Seq<String>, k: Seq<char>) -> bool {
    exists|i: int| 0 <= i < s.len() && s[i]@ == k
}

/// `seen_views` and `in_seen` agree.
pub proof fn lemma_seen_views(s: Seq<String>)
    ensures
        forall|k: Seq<char>| #[trigger] seen_views(s).contains(k) <==> in_seen(s, k),
{
    let mapped = s.map_values(|x: String| x@);
    assert forall|k: Seq<char>| #[trigger] seen_views(s).contains(k) implies in_seen(s, k) by {
        let i = choose|i: int| 0 <= i < mapped.len() && mapped[i] == k;
        assert(s[i]@ == k);
    }
    assert forall|k: Seq<char>| in_seen(s, k) implies #[trigger] seen_views(s).contains(k) by {
        let i = choose|i: int| 0 <= i < s.len() && s[i]@ == k;
        assert(mapped[i] == k);
    }
}

/// Validity of a resolution context against a container: keys distinct, and
/// every key registered somewhere.
pub open spec fn seen_ok<F>(c: Container<F>, s: Seq<String>) -> bool {
    &&& forall|i: int, j: int|
        0 <= i < j < s.len() ==> (#[trigger] s[i]@) != (#[trigger] s[j]@)
    &&& forall|i: int| 0 <= i < s.len() ==> c.all_keys().contains(#[trigger] s[i]@)
}

/// A valid resolution context is no larger than the registered key set.
pub proof fn lemma_seen_bound<F>(c: Container<F>, s: Seq<String>)
    requires
        seen_ok(c, s),
        c.all_keys().finite(),
    ensures
        s.len() <= c.all_keys().len(),
{
    let mapped = s.map_values(|x: String| x@);
    assert(mapped.no_duplicates()) by {
        assert forall|i: int, j: int| 0 <= i < j < mapped.len() implies mapped[i] != mapped[j] by {
            assert(s[i]@ != s[j]@);
        }
    }
    mapped.unique_seq_to_set();
    assert(mapped.to_set().subset_of(c.all_keys())) by {
        assert forall|k: Seq<char>| #[trigger] mapped.to_set().contains(k) implies c.all_keys().contains(k) by {
            let i = choose|i: int| 0 <= i < mapped.len() && mapped[i] == k;
            assert(c.all_keys().contains(s[i]@));
        }
    }
    lemma_len_subset(mapped.to_set(), c.all_keys());
}

/// Whether `key` is already being resolved in this context.
fn context_holds(seen: &Vec<String>, key: &String) -> (b: bool)
    ensures
        b == in_seen(seen@, key@),
{
    let n = seen.len();
    let mut i: usize = 0;
    while i < n
        invariant
            i <= n,
            n == seen@.len(),
            forall|m: int| 0 <= m < i ==> (#[trigger] seen@[m])@ != key@,
        decreases n - i,
    {
        if seen[i] == *key {
            return true;
        }
        i += 1;
    }
    false
}

/// What one `resolve_key` call does, stated over the container before and
/// after, the requested key, and the set of keys already in progress.
///
/// A key already in progress fails as a cycle; an unregistered key fails as
/// not found; a cached singleton returns its cache untouched; an async entry
/// is rejected before any side effect. Otherwise the container evolves (keys
/// and metadata fixed, caches only fill, in-progress entries untouched), and
/// on success the produced value is one outcome of the effective entry's own
/// factory, whose cache now holds the value if the entry is a singleton.
/// Two one-entry updates of the same slot compose.
pub proof fn lemma_slot_updated_trans<F>(
    a: Container<F>,
    b: Container<F>,
    c: Container<F>,
    sl: Slot,
    e1: StoreEntry<F>,
    e2: StoreEntry<F>,
)
    requires
        slot_updated(a, b, sl, e1),
        slot_updated(b, c, sl, e2),
    ensures
        slot_updated(a, c, sl, e2),
{
    match sl {
        Slot::InLayer(j, i) => {
            assert(c.layers@[j as int].entries@ =~= a.layers@[j as int].entries@.update(
                i as int,
                e2,
            ));
        },
        Slot::InBase(i) => {
            assert(c.base.entries@ =~= a.base.entries@.update(i as int, e2));
        },
    }
}

/// A key has at most one slot: two slots found for it are equal.
pub proof fn lemma_slot_for_unique<F>(c: Container<F>, sl1: Slot, sl2: Slot, k: Seq<char>)
    requires
        c.wf(),
        c.slot_for(sl1, k),
        c.slot_for(sl2, k),
    ensures
        sl1 == sl2,
{
    match (sl1, sl2) {
        (Slot::InLayer(j1, i1), Slot::InLayer(j2, i2)) => {
            assert(j1 == j2);
            let st = c.layers@[j1 as int];
            assert(st.wf());
            if i1 != i2 {
                assert(st.entries@[i1 as int].key@ != st.entries@[i2 as int].key@);
            }
        },
        (Slot::InBase(i1), Slot::InBase(i2)) => {
            if i1 != i2 {
                assert(c.base.entries@[i1 as int].key@ != c.base.entries@[i2 as int].key@);
            }
        },
        (Slot::InLayer(_j1, _i1), Slot::InBase(_i2)) => {
            assert(false);
        },
        (Slot::InBase(_i1), Slot::InLayer(_j2, _i2)) => {
            assert(false);
        },
    }
}

/// The factory of the effective entry `e` for `k`, invoked in container
/// `mid` on exactly the argument list `args`, produced `v`: only `k`'s own
/// slot changed from `mid`, and the entry now holds the factory's evolved
/// state (and, for a singleton, the value in cache).
pub open spec fn invoked_ok<F: Factory>(
    mid: Container<F>,
    e: EntryV<F>,
    k: Seq<char>,
    v: Value,
    args: Seq<Value>,
    post: Container<F>,
) -> bool {
    args.len() == e.deps.len() && exists|f2: F|
        #[trigger] F::post(e.factory, args, f2, Ok(v)) && post.effective(k) == Some(
            (EntryV {
                factory: f2,
                singleton: e.singleton,
                is_async: e.is_async,
                deps: e.deps,
                cache: if e.singleton {
                    Some(v)
                } else {
                    e.cache
                },
            }),
        ) && (exists|sl: Slot|
            #[trigger] mid.slot_for(sl, k) && slot_updated(mid, post, sl, post.entry_at(sl)))
}

/// The factory of the effective entry `e` for `k`, invoked in container
/// `mid` on exactly the argument list `args`, raised the payload `p`,
/// carried through verbatim: only `k`'s own slot changed from `mid`, the
/// entry keeps its cache and holds the factory's evolved state.
pub open spec fn invoked_err<F: Factory>(
    mid: Container<F>,
    e: EntryV<F>,
    k: Seq<char>,
    p: Value,
    args: Seq<Value>,
    post: Container<F>,
) -> bool {
    args.len() == e.deps.len() && exists|f2: F|
        #[trigger] F::post(e.factory, args, f2, Err(p)) && post.effective(k) == Some(
            (EntryV {
                factory: f2,
                singleton: e.singleton,
                is_async: e.is_async,
                deps: e.deps,
                cache: e.cache,
            }),
        ) && (exists|sl: Slot|
            #[trigger] mid.slot_for(sl, k) && slot_updated(mid, post, sl, post.entry_at(sl)))
}

/// What resolving one key does: the top-level relation of the engine.
///
/// A key already in the context fails as a cycle, untouched; an unregistered
/// key as not found, untouched; a cached singleton returns its cache,
/// untouched; an async entry is rejected before any side effect. Otherwise
/// the declared dependencies are resolved in order (`deps_post`), the
/// entry's own factory is invoked on exactly their values, and the first
/// error to arise — a dependency's, or the factory's own payload — is the
/// result. `fuel` bounds the recursion depth of the statement; the engine
/// establishes it at the number of registered keys not yet in progress,
/// which the cycle-detection context makes an upper bound on real depth.
pub open spec fn resolve_post<F: Factory>(
    pre: Container<F>,
    k: Seq<char>,
    seen: Set<Seq<char>>,
    r: Result<Value, ErrV>,
    post: Container<F>,
    fuel: nat,
) -> bool
    decreases fuel, 2int, 0int,
{
    if seen.contains(k) {
        r == Err::<Value, ErrV>(ErrV::Cycle(k)) && post == pre
    } else {
        match pre.effective(k) {
            None => r == Err::<Value, ErrV>(ErrV::NotFound(k)) && post == pre,
            Some(e) => {
                if e.singleton && e.cache is Some {
                    r == Ok::<Value, ErrV>(e.cache.unwrap()) && post == pre
                } else if e.is_async {
                    r == Err::<Value, ErrV>(ErrV::AsyncUnsupported(k)) && post == pre
                } else {
                    &&& evolves(pre, post, seen)
                    &&& match r {
                        Ok(v) => exists|mid: Container<F>, args: Seq<Value>|
                            deps_post(
                                pre,
                                e.deps,
                                seen.insert(k),
                                Ok::<Seq<Value>, ErrV>(args),
                                mid,
                                fuel,
                            ) && #[trigger] chain_args(mid, args) && invoked_ok(
                                mid,
                                e,
                                k,
                                v,
                                args,
                                post,
                            ),
                        Err(ev) => {
                            &&& match ev {
                                ErrV::NotFound(m) => !seen.contains(m) && m != k,
                                ErrV::AsyncUnsupported(m) => !seen.contains(m) && m != k,
                                ErrV::InvalidCacheTarget(_) => false,
                                _ => true,
                            }
                            &&& ({
                                ||| exists|mid: Container<F>|
                                    deps_post(
                                        pre,
                                        e.deps,
                                        seen.insert(k),
                                        Err::<Seq<Value>, ErrV>(ev),
                                        mid,
                                        fuel,
                                    ) && (#[trigger] mid.wf()) && post == mid
                                ||| (match ev {
                                    ErrV::Factory(p) => exists|
                                        mid: Container<F>,
                                        args: Seq<Value>,
                                    |
                                        deps_post(
                                            pre,
                                            e.deps,
                                            seen.insert(k),
                                            Ok::<Seq<Value>, ErrV>(args),
                                            mid,
                                            fuel,
                                        ) && #[trigger] chain_args(mid, args) && invoked_err(
                                            mid,
                                            e,
                                            k,
                                            p,
                                            args,
                                            post,
                                        ),
                                    _ => false,
                                })
                            })
                        },
                    }
                }
            },
        }
    }
}

/// One link of a resolution chain: the intermediate container a step leaves
/// behind is well-formed. (Stated of the step's outcome and container
/// together, this is also the shape the chain's existentials match on.)
pub open spec fn step_wf<F>(r1: Result<Value, ErrV>, mid: Container<F>) -> bool {
    mid.wf()
}

/// The argument list a dependency chain produced, next to the container it
/// left behind well-formed; the shape the engine's result existentials match
/// on.
pub open spec fn chain_args<F>(mid: Container<F>, args: Seq<Value>) -> bool {
    mid.wf()
}

/// What resolving a dependency list does: each key in declared order, in the
/// shared context, threading the container through; the first failure aborts
/// the chain with that error and no later key is resolved.
pub open spec fn deps_post<F: Factory>(
    pre: Container<F>,
    ds: Seq<Seq<char>>,
    seen: Set<Seq<char>>,
    r: Result<Seq<Value>, ErrV>,
    post: Container<F>,
    fuel: nat,
) -> bool
    decreases fuel, 1int, ds.len(),
{
    if ds.len() == 0 {
        r == Ok::<Seq<Value>, ErrV>(Seq::<Value>::empty()) && post == pre
    } else {
        fuel > 0 && exists|r1: Result<Value, ErrV>, mid: Container<F>|
            resolve_post(pre, ds[0], seen, r1, mid, (fuel - 1) as nat) && #[trigger] step_wf(
                r1,
                mid,
            ) && match r1 {
                Ok(v) => match r {
                    Ok(vs) => vs.len() == ds.len() && vs[0] == v && deps_post(
                        mid,
                        ds.drop_first(),
                        seen,
                        Ok(vs.drop_first()),
                        post,
                        fuel,
                    ),
                    Err(e2) => deps_post(mid, ds.drop_first(), seen, Err(e2), post, fuel),
                },
                Err(e2) => r == Err::<Seq<Value>, ErrV>(e2) && post == mid,
            }
    }
}

/// Any resolution, however it ended, is an evolution of the container.
pub proof fn lemma_resolve_post_evolves<F: Factory>(
    pre: Container<F>,
    k: Seq<char>,
    seen: Set<Seq<char>>,
    r: Result<Value, ErrV>,
    post: Container<F>,
    fuel: nat,
)
    requires
        resolve_post(pre, k, seen, r, post, fuel),
    ensures
        evolves(pre, post, seen),
{
    if seen.contains(k) {
        lemma_evolves_refl(pre, seen);
    } else {
        match pre.effective(k) {
            None => lemma_evolves_refl(pre, seen),
            Some(e) => {
                if (e.singleton && e.cache is Some) || e.is_async {
                    lemma_evolves_refl(pre, seen);
                }
            },
        }
    }
}

/// What a failed resolution says of its error: a not-found or async error
/// never names a key that was already in progress, and an invalid-cache
/// error never arises from resolution.
pub proof fn lemma_resolve_post_err<F: Factory>(
    pre: Container<F>,
    k: Seq<char>,
    seen: Set<Seq<char>>,
    ev: ErrV,
    post: Container<F>,
    fuel: nat,
)
    requires
        resolve_post(pre, k, seen, Err::<Value, ErrV>(ev), post, fuel),
    ensures
        match ev {
            ErrV::NotFound(m) => !seen.contains(m),
            ErrV::AsyncUnsupported(m) => !seen.contains(m),
            ErrV::InvalidCacheTarget(_) => false,
            _ => true,
        },
{
}

/// Appending one successful resolution to a successful dependency chain.
pub proof fn lemma_deps_extend_ok<F: Factory>(
    pre: Container<F>,
    ds: Seq<Seq<char>>,
    vs: Seq<Value>,
    mid: Container<F>,
    d: Seq<char>,
    v: Value,
    post: Container<F>,
    seen: Set<Seq<char>>,
    fuel: nat,
)
    requires
        fuel >= 1,
        deps_post(pre, ds, seen, Ok::<Seq<Value>, ErrV>(vs), mid, fuel),
        resolve_post(mid, d, seen, Ok::<Value, ErrV>(v), post, (fuel - 1) as nat),
        mid.wf(),
        post.wf(),
    ensures
        deps_post(pre, ds.push(d), seen, Ok::<Seq<Value>, ErrV>(vs.push(v)), post, fuel),
    decreases ds.len(),
{
    reveal_with_fuel(deps_post, 2);
    if ds.len() == 0 {
        assert(vs =~= Seq::<Value>::empty());
        assert(mid == pre);
        let ks2 = ds.push(d);
        let vs2 = vs.push(v);
        assert(ks2[0] == d);
        assert(vs2[0] == v);
        assert(ks2.drop_first() =~= Seq::<Seq<char>>::empty());
        assert(vs2.drop_first() =~= Seq::<Value>::empty());
        assert(deps_post(
            post,
            ks2.drop_first(),
            seen,
            Ok::<Seq<Value>, ErrV>(vs2.drop_first()),
            post,
            fuel,
        ));
        assert(step_wf(Ok::<Value, ErrV>(v), post));
        assert(resolve_post(pre, ks2[0], seen, Ok::<Value, ErrV>(v), post, (fuel - 1) as nat));
    } else {
        let (r1, mid1): (Result<Value, ErrV>, Container<F>) = choose|
            r1: Result<Value, ErrV>,
            mid1: Container<F>,
        |
            resolve_post(pre, ds[0], seen, r1, mid1, (fuel - 1) as nat) && #[trigger] step_wf(
                r1,
                mid1,
            ) && match r1 {
                Ok(v1) => vs.len() == ds.len() && vs[0] == v1 && deps_post(
                    mid1,
                    ds.drop_first(),
                    seen,
                    Ok::<Seq<Value>, ErrV>(vs.drop_first()),
                    mid,
                    fuel,
                ),
                Err(e2) => Ok::<Seq<Value>, ErrV>(vs) == Err::<Seq<Value>, ErrV>(e2) && mid
                    == mid1,
            };
        match r1 {
            Ok(_v1) => {
                lemma_deps_extend_ok(
                    mid1,
                    ds.drop_first(),
                    vs.drop_first(),
                    mid,
                    d,
                    v,
                    post,
                    seen,
                    fuel,
                );
                let ks2 = ds.push(d);
                let vs2 = vs.push(v);
                assert(ks2[0] == ds[0]);
                assert(vs2[0] == vs[0]);
                assert(ks2.drop_first() =~= ds.drop_first().push(d));
                assert(vs2.drop_first() =~= vs.drop_first().push(v));
                assert(step_wf(r1, mid1));
                assert(resolve_post(pre, ks2[0], seen, r1, mid1, (fuel - 1) as nat));
                assert(deps_post(
                    mid1,
                    ks2.drop_first(),
                    seen,
                    Ok::<Seq<Value>, ErrV>(vs2.drop_first()),
                    post,
                    fuel,
                ));
            },
            Err(_e2) => {},
        }
    }
}

/// Appending one failed resolution to a successful dependency chain aborts
/// the whole chain with that error, whatever keys would have followed.
pub proof fn lemma_deps_extend_err<F: Factory>(
    pre: Container<F>,
    ds: Seq<Seq<char>>,
    vs: Seq<Value>,
    mid: Container<F>,
    d: Seq<char>,
    ev: ErrV,
    post: Container<F>,
    seen: Set<Seq<char>>,
    fuel: nat,
    rest: Seq<Seq<char>>,
)
    requires
        fuel >= 1,
        deps_post(pre, ds, seen, Ok::<Seq<Value>, ErrV>(vs), mid, fuel),
        resolve_post(mid, d, seen, Err::<Value, ErrV>(ev), post, (fuel - 1) as nat),
        mid.wf(),
        post.wf(),
    ensures
        deps_post(pre, ds.push(d) + rest, seen, Err::<Seq<Value>, ErrV>(ev), post, fuel),
    decreases ds.len(),
{
    reveal_with_fuel(deps_post, 2);
    let ks2 = ds.push(d) + rest;
    if ds.len() == 0 {
        assert(mid == pre);
        assert(ks2[0] == d);
        assert(step_wf(Err::<Value, ErrV>(ev), post));
        assert(resolve_post(pre, ks2[0], seen, Err::<Value, ErrV>(ev), post, (fuel - 1) as nat));
    } else {
        let (r1, mid1): (Result<Value, ErrV>, Container<F>) = choose|
            r1: Result<Value, ErrV>,
            mid1: Container<F>,
        |
            resolve_post(pre, ds[0], seen, r1, mid1, (fuel - 1) as nat) && #[trigger] step_wf(
                r1,
                mid1,
            ) && match r1 {
                Ok(v1) => vs.len() == ds.len() && vs[0] == v1 && deps_post(
                    mid1,
                    ds.drop_first(),
                    seen,
                    Ok::<Seq<Value>, ErrV>(vs.drop_first()),
                    mid,
                    fuel,
                ),
                Err(e2) => Ok::<Seq<Value>, ErrV>(vs) == Err::<Seq<Value>, ErrV>(e2) && mid
                    == mid1,
            };
        match r1 {
            Ok(_v1) => {
                lemma_deps_extend_err(
                    mid1,
                    ds.drop_first(),
                    vs.drop_first(),
                    mid,
                    d,
                    ev,
                    post,
                    seen,
                    fuel,
                    rest,
                );
                assert(ks2[0] == ds[0]);
                assert(ks2.drop_first() =~= ds.drop_first().push(d) + rest);
                assert(step_wf(r1, mid1));
                assert(resolve_post(pre, ks2[0], seen, r1, mid1, (fuel - 1) as nat));
            },
            Err(_e2) => {},
        }
    }
}

/// A one-entry update whose new entry evolves from the old one is an
/// evolution of the whole container.
pub proof fn lemma_slot_updated_evolves<F>(
    pre: Container<F>,
    post: Container<F>,
    sl: Slot,
    e2: StoreEntry<F>,
    k: Seq<char>,
    frozen: Set<Seq<char>>,
)
    requires
        pre.wf(),
        pre.slot_for(sl, k),
        slot_updated(pre, post, sl, e2),
        e2.key@ == k,
        entry_cache_evolves(entry_v(pre.entry_at(sl)), entry_v(e2)),
        !frozen.contains(k),
    ensures
        evolves(pre, post, frozen),
{
    lemma_slot_updated(pre, post, sl, e2, k);
    let (spre, spost) = match sl {
        Slot::InLayer(j, _i) => (pre.layers@[j as int], post.layers@[j as int]),
        Slot::InBase(_i) => (pre.base, post.base),
    };
    let i = match sl {
        Slot::InLayer(_j, i) => i as int,
        Slot::InBase(i) => i as int,
    };
    assert(spre.wf());
    assert(spost.entries@ =~= spre.entries@.update(i, e2));
    crate::store::lemma_update_entry(spre.entries@, i, e2);
    lemma_view_at(spre.entries@, i);
    assert(spre.view_map()[k] == entry_v(pre.entry_at(sl)));
    assert(spost.view_map() =~= spre.view_map().insert(k, entry_v(e2)));
    assert(store_map_evolves(spre.view_map(), spost.view_map(), frozen)) by {
        assert(spost.view_map().dom() =~= spre.view_map().dom()) by {
            assert(spre.view_map().dom().contains(k));
        }
        assert forall|k2: Seq<char>| #[trigger] spre.view_map().dom().contains(k2) implies
            entry_cache_evolves(spre.view_map()[k2], spost.view_map()[k2]) && (frozen.contains(k2)
                ==> spost.view_map()[k2] == spre.view_map()[k2]) by {
            if k2 == k {
                assert(spost.view_map()[k2] == entry_v(e2));
            } else {
                assert(spost.view_map()[k2] == spre.view_map()[k2]);
            }
        }
    }
    match sl {
        Slot::InLayer(j, _i) => {
            assert forall|j2: int| 0 <= j2 < pre.layers@.len() implies store_map_evolves(
                (#[trigger] pre.layers@[j2]).view_map(),
                post.layers@[j2].view_map(),
                frozen,
            ) by {
                if j2 != j as int {
                    assert(post.layers@[j2] == pre.layers@[j2]);
                }
            }
        },
        Slot::InBase(_i) => {
            assert forall|j2: int| 0 <= j2 < pre.layers@.len() implies store_map_evolves(
                (#[trigger] pre.layers@[j2]).view_map(),
                post.layers@[j2].view_map(),
                frozen,
            ) by {
                assert(post.layers@[j2] == pre.layers@[j2]);
            }
        },
    }
}


/// Assembles `resolve_post` for a resolution whose dependency chain
/// succeeded and whose factory invocation produced a value.
#[verifier::rlimit(100)]
#[verifier::spinoff_prover]
pub proof fn lemma_resolve_post_ok<F: Factory>(
    pre: Container<F>,
    k: Seq<char>,
    seen: Set<Seq<char>>,
    e: EntryV<F>,
    v: Value,
    f2: F,
    args: Seq<Value>,
    mid: Container<F>,
    post: Container<F>,
    fuel: nat,
)
    requires
        !seen.contains(k),
        pre.effective(k) == Some(e),
        !(e.singleton && e.cache is Some),
        !e.is_async,
        evolves(pre, post, seen),
        deps_post(pre, e.deps, seen.insert(k), Ok::<Seq<Value>, ErrV>(args), mid, fuel),
        mid.wf(),
        args.len() == e.deps.len(),
        F::post(e.factory, args, f2, Ok::<Value, Value>(v)),
        post.effective(k) == Some(
            (EntryV {
                factory: f2,
                singleton: e.singleton,
                is_async: e.is_async,
                deps: e.deps,
                cache: if e.singleton {
                    Some(v)
                } else {
                    e.cache
                },
            }),
        ),
        exists|sl: Slot|
            #[trigger] mid.slot_for(sl, k) && slot_updated(mid, post, sl, post.entry_at(sl)),
    ensures
        resolve_post(pre, k, seen, Ok::<Value, ErrV>(v), post, fuel),
{
    reveal_with_fuel(resolve_post, 2);
    assert(chain_args(mid, args));
    assert(invoked_ok(mid, e, k, v, args, post));
    assert(exists|mid2: Container<F>, args2: Seq<Value>|
        deps_post(pre, e.deps, seen.insert(k), Ok::<Seq<Value>, ErrV>(args2), mid2, fuel)
            && #[trigger] chain_args(mid2, args2) && invoked_ok(mid2, e, k, v, args2, post));
}

/// Assembles `resolve_post` for a resolution whose dependency chain
/// succeeded and whose factory invocation raised an error.
#[verifier::rlimit(100)]
#[verifier::spinoff_prover]
pub proof fn lemma_resolve_post_fail<F: Factory>(
    pre: Container<F>,
    k: Seq<char>,
    seen: Set<Seq<char>>,
    e: EntryV<F>,
    p: Value,
    f2: F,
    args: Seq<Value>,
    mid: Container<F>,
    post: Container<F>,
    fuel: nat,
)
    requires
        !seen.contains(k),
        pre.effective(k) == Some(e),
        !(e.singleton && e.cache is Some),
        !e.is_async,
        evolves(pre, post, seen),
        deps_post(pre, e.deps, seen.insert(k), Ok::<Seq<Value>, ErrV>(args), mid, fuel),
        mid.wf(),
        args.len() == e.deps.len(),
        F::post(e.factory, args, f2, Err::<Value, Value>(p)),
        post.effective(k) == Some(
            (EntryV {
                factory: f2,
                singleton: e.singleton,
                is_async: e.is_async,
                deps: e.deps,
                cache: e.cache,
            }),
        ),
        exists|sl: Slot|
            #[trigger] mid.slot_for(sl, k) && slot_updated(mid, post, sl, post.entry_at(sl)),
    ensures
        resolve_post(pre, k, seen, Err::<Value, ErrV>(ErrV::Factory(p)), post, fuel),
{
    reveal_with_fuel(resolve_post, 2);
    assert(chain_args(mid, args));
    assert(invoked_err(mid, e, k, p, args, post));
    assert(exists|mid2: Container<F>, args2: Seq<Value>|
        deps_post(pre, e.deps, seen.insert(k), Ok::<Seq<Value>, ErrV>(args2), mid2, fuel)
            && #[trigger] chain_args(mid2, args2) && invoked_err(mid2, e, k, p, args2, post));
}

/// Assembles `resolve_post` for a resolution whose dependency chain failed:
/// the dependency's error propagates unchanged, with no factory invocation.
pub proof fn lemma_resolve_post_dep_err<F: Factory>(
    pre: Container<F>,
    k: Seq<char>,
    seen: Set<Seq<char>>,
    e: EntryV<F>,
    ev: ErrV,
    post: Container<F>,
    fuel: nat,
)
    requires
        !seen.contains(k),
        pre.effective(k) == Some(e),
        !(e.singleton && e.cache is Some),
        !e.is_async,
        evolves(pre, post, seen),
        deps_post(pre, e.deps, seen.insert(k), Err::<Seq<Value>, ErrV>(ev), post, fuel),
        post.wf(),
        match ev {
            ErrV::NotFound(m) => !seen.contains(m) && m != k,
            ErrV::AsyncUnsupported(m) => !seen.contains(m) && m != k,
            ErrV::InvalidCacheTarget(_) => false,
            _ => true,
        },
    ensures
        resolve_post(pre, k, seen, Err::<Value, ErrV>(ev), post, fuel),
{
    reveal_with_fuel(resolve_post, 2);
    assert(exists|mid2: Container<F>|
        deps_post(pre, e.deps, seen.insert(k), Err::<Seq<Value>, ErrV>(ev), mid2, fuel) && (
        #[trigger] mid2.wf()) && post == mid2);
}

impl<F: Factory> Container<F> {
    /// Resolves one key within an in-flight resolution context.
    ///
    /// A key already in the context fails as a cycle before anything else.
    /// The effective entry is searched overrides-first; a cached singleton
    /// returns immediately, an async entry is rejected with no side effect,
    /// and otherwise the declared dependencies are resolved recursively in
    /// order, the factory is invoked on the results, and for a singleton the
    /// effective entry is re-located and its cache filled with the produced
    /// value. The context is restored on every return path.
    #[verifier::loop_isolation(false)]
    #[verifier::rlimit(60)]
    fn resolve_key(&mut self, key: &String, seen: &mut Vec<String>) -> (r: Result<Value, DiError>)
        requires
            old(self).wf(),
            seen_ok(*old(self), old(seen)@),
        ensures
            final(self).wf(),
            final(seen)@ =~= old(seen)@,
            seen_ok(*final(self), final(seen)@),
            resolve_post(
                *old(self),
                key@,
                seen_views(old(seen)@),
                outcome(r),
                *final(self),
                (old(self).all_keys().len() - old(seen)@.len()) as nat,
            ),
        decreases old(self).all_keys().len() - old(seen)@.len(),
    {
        let ghost c0 = *old(self);
        let ghost s0 = old(seen)@;
        proof {
            lemma_seen_views(s0);
        }
        if context_holds(seen, key) {
            return Err(DiError::Cycle(key.clone()));
        }
        let found = self.locate(key);
        let sl = match found {
            None => {
                return Err(DiError::NotFound(key.clone()));
            },
            Some(sl) => sl,
        };
        let ghost e = entry_v(c0.entry_at(sl));
        let (singleton, is_async, cached) = self.slot_flags(sl);
        if singleton {
            if let Some(v) = cached {
                return Ok(v);
            }
        }
        if is_async {
            return Err(DiError::AsyncUnsupported(key.clone()));
        }
        let deps = self.slot_deps(sl);
        seen.push(key.clone());
        let ghost s1 = seen@;
        let ghost frozen1 = seen_views(s1);
        let ghost fuel0 = (c0.all_keys().len() - s0.len()) as nat;
        proof {
            c0.lemma_all_keys(key@);
            lemma_seen_views(s1);
            assert(s1.drop_last() =~= s0);
            assert(e.deps == deps@.map_values(|d: String| d@)) by {
                assert(deps@ =~= c0.entry_at(sl).deps@);
            }
            assert(seen_ok(c0, s1)) by {
                assert forall|i: int, j: int|
                    0 <= i < j < s1.len() implies (#[trigger] s1[i]@) != (#[trigger] s1[j]@) by {
                    if j == s1.len() - 1 {
                        assert(!in_seen(s0, key@));
                        assert(s1[j]@ == key@);
                        assert(s1[i]@ == s0[i]@);
                    }
                }
            }
            assert(frozen1.contains(key@)) by {
                assert(in_seen(s1, key@)) by {
                    assert(s1[s1.len() - 1]@ == key@);
                }
            }
            assert(seen_views(s0).subset_of(frozen1)) by {
                assert forall|k2: Seq<char>| #[trigger] seen_views(s0).contains(k2) implies frozen1.contains(k2) by {
                    assert(in_seen(s0, k2));
                    let i = choose|i: int| 0 <= i < s0.len() && s0[i]@ == k2;
                    assert(s1[i]@ == k2);
                    assert(in_seen(s1, k2));
                }
            }
            lemma_evolves_refl(c0, frozen1);
            assert(seen_views(s0).insert(key@) =~= frozen1) by {
                assert forall|x: Seq<char>| #[trigger] frozen1.contains(x) implies seen_views(
                    s0,
                ).insert(key@).contains(x) by {
                    assert(in_seen(s1, x));
                    let i = choose|i: int| 0 <= i < s1.len() && s1[i]@ == x;
                    if i < s0.len() {
                        assert(s0[i]@ == x);
                        assert(in_seen(s0, x));
                    }
                }
                assert forall|x: Seq<char>| #[trigger]
                    seen_views(s0).insert(key@).contains(x) implies frozen1.contains(x) by {
                    if x == key@ {
                        assert(s1[s1.len() - 1]@ == x);
                    } else {
                        assert(in_seen(s0, x));
                        let i = choose|i: int| 0 <= i < s0.len() && s0[i]@ == x;
                        assert(s1[i]@ == x);
                    }
                    assert(in_seen(s1, x));
                }
            }
            lemma_seen_bound(c0, s1);
            assert(fuel0 >= 1);
        }
        let mut args: Vec<Value> = Vec::new();
        let mut di: usize = 0;
        while di < deps.len()
            invariant
                self.wf(),
                seen@ =~= s1,
                seen_ok(*self, seen@),
                evolves(c0, *self, frozen1),
                self.all_keys() =~= c0.all_keys(),
                self.effective(key@) == Some(e),
                di <= deps@.len(),
                args@.len() == di,
                deps_post(
                    c0,
                    e.deps.take(di as int),
                    frozen1,
                    Ok::<Seq<Value>, ErrV>(args@),
                    *self,
                    fuel0,
                ),
            decreases deps@.len() - di,
        {
            let dep_key = &deps[di];
            let ghost cmid = *self;
            let ghost args_pre = args@;
            proof {
                cmid.lemma_all_keys(key@);
                lemma_seen_bound(cmid, s1);
                assert(s1.len() == s0.len() + 1);
            }
            let rd = self.resolve_key(dep_key, seen);
            proof {
                lemma_resolve_post_evolves(
                    cmid,
                    dep_key@,
                    seen_views(s1),
                    outcome(rd),
                    *self,
                    (cmid.all_keys().len() - s1.len()) as nat,
                );
                lemma_evolves_trans(c0, cmid, *self, frozen1);
                lemma_evolves_all_keys(cmid, *self, frozen1);
                lemma_evolves_effective(cmid, *self, frozen1, key@);
                assert(dep_key@ == e.deps[di as int]) by {
                    assert(deps@[di as int]@ == e.deps[di as int]);
                }
                assert((cmid.all_keys().len() - s1.len()) as nat == (fuel0 - 1) as nat);
            }
            match rd {
                Ok(v) => {
                    proof {
                        lemma_deps_extend_ok(
                            c0,
                            e.deps.take(di as int),
                            args_pre,
                            cmid,
                            e.deps[di as int],
                            v,
                            *self,
                            frozen1,
                            fuel0,
                        );
                        assert(e.deps.take(di as int).push(e.deps[di as int]) =~= e.deps.take(
                            di as int + 1,
                        ));
                    }
                    args.push(v);
                    di += 1;
                },
                Err(err) => {
                    seen.pop();
                    proof {
                        assert(seen@ =~= s0);
                        lemma_evolves_weaken(c0, *self, frozen1, seen_views(s0));
                        lemma_resolve_post_err(
                            cmid,
                            dep_key@,
                            seen_views(s1),
                            err@,
                            *self,
                            (cmid.all_keys().len() - s1.len()) as nat,
                        );
                        match err@ {
                            ErrV::NotFound(m) => {
                                assert(!frozen1.contains(m));
                                assert(!seen_views(s0).contains(m));
                                assert(m != key@);
                            },
                            ErrV::AsyncUnsupported(m) => {
                                assert(!frozen1.contains(m));
                                assert(!seen_views(s0).contains(m));
                                assert(m != key@);
                            },
                            _ => {},
                        }
                        lemma_deps_extend_err(
                            c0,
                            e.deps.take(di as int),
                            args_pre,
                            cmid,
                            e.deps[di as int],
                            err@,
                            *self,
                            frozen1,
                            fuel0,
                            e.deps.skip(di as int + 1),
                        );
                        assert(e.deps.take(di as int).push(e.deps[di as int]) + e.deps.skip(
                            di as int + 1,
                        ) =~= e.deps);
                        assert(seen_views(s0).insert(key@) == frozen1);
                        lemma_resolve_post_dep_err(
                            c0,
                            key@,
                            seen_views(s0),
                            e,
                            err@,
                            *self,
                            fuel0,
                        );
                    }
                    return Err(err);
                },
            }
        }
        // every dependency resolved; find the entry again and invoke its factory
        let found2 = self.locate(key);
        let sl2 = match found2 {
            None => {
                proof {
                    assert(false);
                }
                return Err(DiError::NotFound(key.clone()));
            },
            Some(sl2) => sl2,
        };
        let ghost c2 = *self;
        proof {
            assert(entry_v(c2.entry_at(sl2)) == e);
            assert(e.deps.take(deps@.len() as int) =~= e.deps);
            assert(deps_post(c0, e.deps, frozen1, Ok::<Seq<Value>, ErrV>(args@), c2, fuel0));
        }
        let rcall = self.call_at_slot(sl2, &args);
        let ghost c3 = *self;
        let ghost fnew = c3.entry_at(sl2).factory;
        let ghost e2 = StoreEntry { factory: fnew, ..c2.entry_at(sl2) };
        proof {
            lemma_slot_updated(c2, c3, sl2, e2, key@);
            assert(entry_v(e2) == (EntryV { factory: fnew, ..e }));
            assert(entry_cache_evolves(entry_v(c2.entry_at(sl2)), entry_v(e2)));
            assert(!seen_views(s0).contains(key@)) by {
                assert(!in_seen(s0, key@));
            }
            lemma_slot_updated_evolves(c2, c3, sl2, e2, key@, seen_views(s0));
            lemma_evolves_weaken(c0, c2, frozen1, seen_views(s0));
            lemma_evolves_trans(c0, c2, c3, seen_views(s0));
            lemma_evolves_all_keys(c2, c3, seen_views(s0));
        }
        match rcall {
            Err(p) => {
                seen.pop();
                proof {
                    assert(seen@ =~= s0);
                    assert(F::post(e.factory, args@, fnew, Err(p)));
                    assert(self.effective(key@) == Some(
                        (EntryV {
                            factory: fnew,
                            singleton: e.singleton,
                            is_async: e.is_async,
                            deps: e.deps,
                            cache: e.cache,
                        }),
                    ));
                    assert(args@.len() == e.deps.len());
                    assert(c2.slot_for(sl2, key@));
                    assert(slot_updated(c2, *self, sl2, self.entry_at(sl2)));
                    assert(seen_views(s0).insert(key@) == frozen1);
                    lemma_resolve_post_fail(
                        c0,
                        key@,
                        seen_views(s0),
                        e,
                        p,
                        fnew,
                        args@,
                        c2,
                        *self,
                        fuel0,
                    );
                }
                return Err(DiError::Factory(p));
            },
            Ok(v) => {
                if singleton {
                    // the produced value is attached to whatever entry is
                    // effective now: search overrides then base again
                    let found3 = self.locate(key);
                    match found3 {
                        Some(sl3) => {
                            let (sing3, _async3, _cache3) = self.slot_flags(sl3);
                            if sing3 {
                                let ghost c3b = *self;
                                let ghost e3 = StoreEntry {
                                    cache: Some(v),
                                    ..c3b.entry_at(sl3)
                                };
                                self.write_cache_at_slot(sl3, v);
                                proof {
                                    lemma_slot_updated(c3b, *self, sl3, e3, key@);
                                    assert(entry_v(c3b.entry_at(sl3)) == entry_v(e2));
                                    assert(entry_v(e3) == (EntryV {
                                        cache: Some(v),
                                        ..entry_v(e2)
                                    }));
                                    assert(e.cache is None);
                                    assert(entry_cache_evolves(entry_v(c3b.entry_at(sl3)), entry_v(e3)));
                                    lemma_slot_updated_evolves(
                                        c3b,
                                        *self,
                                        sl3,
                                        e3,
                                        key@,
                                        seen_views(s0),
                                    );
                                    lemma_evolves_trans(c0, c3b, *self, seen_views(s0));
                                    lemma_evolves_all_keys(c3b, *self, seen_views(s0));
                                    lemma_slot_for_unique(c3b, sl2, sl3, key@);
                                    lemma_slot_updated_trans(c2, c3b, *self, sl2, e2, e3);
                                    assert(self.entry_at(sl2) == e3);
                                }
                            } else {
                                proof {
                                    assert(false);
                                }
                            }
                        },
                        None => {
                            proof {
                                assert(false);
                            }
                        },
                    }
                }
                seen.pop();
                proof {
                    assert(seen@ =~= s0);
                    assert(F::post(e.factory, args@, fnew, Ok(v)));
                    assert(args@.len() == e.deps.len());
                    assert(self.effective(key@) == Some(
                        (EntryV {
                            factory: fnew,
                            singleton: e.singleton,
                            is_async: e.is_async,
                            deps: e.deps,
                            cache: if e.singleton {
                                Some(v)
                            } else {
                                e.cache
                            },
                        }),
                    ));
                    assert(c2.slot_for(sl2, key@));
                    assert(slot_updated(c2, *self, sl2, self.entry_at(sl2)));
                    assert(seen_views(s0).insert(key@) == frozen1);
                    lemma_resolve_post_ok(
                        c0,
                        key@,
                        seen_views(s0),
                        e,
                        v,
                        fnew,
                        args@,
                        c2,
                        *self,
                        fuel0,
                    );
                }
                return Ok(v);
            },
        }
    }
}


/// What one `resolve_many` call does: each key is resolved in input order,
/// each with its own fresh resolution context (cycle detection does not span
/// keys of one batch), the first failure aborts the batch with that error,
/// and the state changes of keys resolved before the failure remain.
pub open spec fn batch_post<F: Factory>(
    pre: Container<F>,
    ks: Seq<Seq<char>>,
    r: Result<Seq<Value>, ErrV>,
    post: Container<F>,
    fuel: nat,
) -> bool
    decreases ks.len(),
{
    if ks.len() == 0 {
        r == Ok::<Seq<Value>, ErrV>(Seq::<Value>::empty()) && post == pre
    } else {
        exists|r1: Result<Value, ErrV>, mid: Container<F>|
            resolve_post(pre, ks[0], Set::<Seq<char>>::empty(), r1, mid, fuel) && #[trigger] step_wf(
                r1,
                mid,
            ) && match r1 {
                Ok(v) => match r {
                    Ok(vs) => vs.len() == ks.len() && vs[0] == v && batch_post(
                        mid,
                        ks.drop_first(),
                        Ok(vs.drop_first()),
                        post,
                        fuel,
                    ),
                    Err(e) => batch_post(mid, ks.drop_first(), Err(e), post, fuel),
                },
                Err(e) => r == Err::<Seq<Value>, ErrV>(e) && post == mid,
            }
    }
}

/// Appending one successful resolution to a successful batch.
pub proof fn lemma_batch_extend_ok<F: Factory>(
    pre: Container<F>,
    ks: Seq<Seq<char>>,
    vs: Seq<Value>,
    mid: Container<F>,
    k: Seq<char>,
    v: Value,
    post: Container<F>,
    fuel: nat,
)
    requires
        batch_post(pre, ks, Ok::<Seq<Value>, ErrV>(vs), mid, fuel),
        resolve_post(mid, k, Set::<Seq<char>>::empty(), Ok::<Value, ErrV>(v), post, fuel),
        mid.wf(),
        post.wf(),
    ensures
        batch_post(pre, ks.push(k), Ok::<Seq<Value>, ErrV>(vs.push(v)), post, fuel),
    decreases ks.len(),
{
    if ks.len() == 0 {
        assert(vs =~= Seq::<Value>::empty());
        assert(mid == pre);
        let ks2 = ks.push(k);
        let vs2 = vs.push(v);
        assert(ks2[0] == k);
        assert(vs2[0] == v);
        assert(ks2.drop_first() =~= Seq::<Seq<char>>::empty());
        assert(vs2.drop_first() =~= Seq::<Value>::empty());
        assert(batch_post(post, ks2.drop_first(), Ok::<Seq<Value>, ErrV>(vs2.drop_first()), post, fuel));
        assert(step_wf(Ok::<Value, ErrV>(v), post));
        assert(resolve_post(
            pre,
            ks2[0],
            Set::<Seq<char>>::empty(),
            Ok::<Value, ErrV>(v),
            post,
            fuel,
        ));
    } else {
        let (r1, mid1): (Result<Value, ErrV>, Container<F>) = choose|
            r1: Result<Value, ErrV>,
            mid1: Container<F>,
        |
            resolve_post(pre, ks[0], Set::<Seq<char>>::empty(), r1, mid1, fuel)
                && #[trigger] step_wf(r1, mid1) && match r1 {
                Ok(v1) => vs.len() == ks.len() && vs[0] == v1 && batch_post(
                    mid1,
                    ks.drop_first(),
                    Ok::<Seq<Value>, ErrV>(vs.drop_first()),
                    mid,
                    fuel,
                ),
                Err(e) => Ok::<Seq<Value>, ErrV>(vs) == Err::<Seq<Value>, ErrV>(e) && mid == mid1,
            };
        match r1 {
            Ok(v1) => {
                lemma_batch_extend_ok(mid1, ks.drop_first(), vs.drop_first(), mid, k, v, post, fuel);
                let ks2 = ks.push(k);
                let vs2 = vs.push(v);
                assert(ks2[0] == ks[0]);
                assert(vs2[0] == vs[0]);
                assert(ks2.drop_first() =~= ks.drop_first().push(k));
                assert(vs2.drop_first() =~= vs.drop_first().push(v));
                assert(step_wf(r1, mid1));
                assert(resolve_post(pre, ks2[0], Set::<Seq<char>>::empty(), r1, mid1, fuel));
                assert(batch_post(
                    mid1,
                    ks2.drop_first(),
                    Ok::<Seq<Value>, ErrV>(vs2.drop_first()),
                    post,
                    fuel,
                ));
            },
            Err(_e) => {},
        }
    }
}

/// Appending one failed resolution to a successful batch aborts the whole
/// batch, whatever keys would have followed.
pub proof fn lemma_batch_extend_err<F: Factory>(
    pre: Container<F>,
    ks: Seq<Seq<char>>,
    vs: Seq<Value>,
    mid: Container<F>,
    k: Seq<char>,
    e: ErrV,
    post: Container<F>,
    rest: Seq<Seq<char>>,
    fuel: nat,
)
    requires
        batch_post(pre, ks, Ok::<Seq<Value>, ErrV>(vs), mid, fuel),
        resolve_post(mid, k, Set::<Seq<char>>::empty(), Err::<Value, ErrV>(e), post, fuel),
        mid.wf(),
        post.wf(),
    ensures
        batch_post(pre, ks.push(k) + rest, Err::<Seq<Value>, ErrV>(e), post, fuel),
    decreases ks.len(),
{
    let ks2 = ks.push(k) + rest;
    if ks.len() == 0 {
        assert(mid == pre);
        assert(ks2[0] == k);
        assert(step_wf(Err::<Value, ErrV>(e), post));
        assert(resolve_post(
            pre,
            ks2[0],
            Set::<Seq<char>>::empty(),
            Err::<Value, ErrV>(e),
            post,
            fuel,
        ));
    } else {
        let (r1, mid1): (Result<Value, ErrV>, Container<F>) = choose|
            r1: Result<Value, ErrV>,
            mid1: Container<F>,
        |
            resolve_post(pre, ks[0], Set::<Seq<char>>::empty(), r1, mid1, fuel)
                && #[trigger] step_wf(r1, mid1) && match r1 {
                Ok(v1) => vs.len() == ks.len() && vs[0] == v1 && batch_post(
                    mid1,
                    ks.drop_first(),
                    Ok::<Seq<Value>, ErrV>(vs.drop_first()),
                    mid,
                    fuel,
                ),
                Err(e1) => Ok::<Seq<Value>, ErrV>(vs) == Err::<Seq<Value>, ErrV>(e1) && mid
                    == mid1,
            };
        match r1 {
            Ok(_v1) => {
                lemma_batch_extend_err(
                    mid1,
                    ks.drop_first(),
                    vs.drop_first(),
                    mid,
                    k,
                    e,
                    post,
                    rest,
                    fuel,
                );
                assert(ks2[0] == ks[0]);
                assert(ks2.drop_first() =~= ks.drop_first().push(k) + rest);
                assert(step_wf(r1, mid1));
                assert(resolve_post(pre, ks2[0], Set::<Seq<char>>::empty(), r1, mid1, fuel));
            },
            Err(_e1) => {},
        }
    }
}

impl<F: Factory> Container<F> {
    /// Resolves `key` to a fully materialized value, with a fresh resolution
    /// context local to this call.
    pub fn resolve(&mut self, key: &String) -> (r: Result<Value, DiError>)
        requires
            old(self).wf(),
        ensures
            final(self).wf(),
            resolve_post(
                *old(self),
                key@,
                Set::<Seq<char>>::empty(),
                outcome(r),
                *final(self),
                old(self).all_keys().len(),
            ),
    {
        let mut seen: Vec<String> = Vec::new();
        proof {
            lemma_seen_views(seen@);
            assert(seen_views(seen@) =~= Set::<Seq<char>>::empty());
        }
        self.resolve_key(key, &mut seen)
    }

    /// Resolves each key of the batch, in order, each with its own fresh
    /// resolution context. The first failure aborts the batch and its error
    /// propagates; singleton caches filled by earlier keys remain.
    #[verifier::loop_isolation(false)]
    pub fn resolve_many(&mut self, keys: &Vec<String>) -> (r: Result<Vec<Value>, DiError>)
        requires
            old(self).wf(),
        ensures
            final(self).wf(),
            match r {
                Ok(vs) => vs@.len() == keys@.len() && batch_post(
                    *old(self),
                    keys@.map_values(|x: String| x@),
                    Ok::<Seq<Value>, ErrV>(vs@),
                    *final(self),
                    old(self).all_keys().len(),
                ),
                Err(e) => batch_post(
                    *old(self),
                    keys@.map_values(|x: String| x@),
                    Err::<Seq<Value>, ErrV>(e@),
                    *final(self),
                    old(self).all_keys().len(),
                ),
            },
    {
        let ghost c0 = *old(self);
        let ghost kviews = keys@.map_values(|x: String| x@);
        let ghost fuel0 = c0.all_keys().len();
        let mut out: Vec<Value> = Vec::new();
        let mut i: usize = 0;
        proof {
            assert(kviews.take(0) =~= Seq::<Seq<char>>::empty());
        }
        while i < keys.len()
            invariant
                self.wf(),
                i <= keys@.len(),
                out@.len() == i,
                self.all_keys() =~= c0.all_keys(),
                batch_post(c0, kviews.take(i as int), Ok::<Seq<Value>, ErrV>(out@), *self, fuel0),
            decreases keys@.len() - i,
        {
            let mut seen: Vec<String> = Vec::new();
            let ghost cmid = *self;
            let ghost out_pre = out@;
            proof {
                lemma_seen_views(seen@);
                assert(seen_views(seen@) =~= Set::<Seq<char>>::empty());
            }
            let rk = self.resolve_key(&keys[i], &mut seen);
            proof {
                assert((cmid.all_keys().len() - 0) as nat == fuel0);
                lemma_resolve_post_evolves(
                    cmid,
                    keys@[i as int]@,
                    seen_views(Seq::<String>::empty()),
                    outcome(rk),
                    *self,
                    fuel0,
                );
                lemma_evolves_all_keys(cmid, *self, seen_views(Seq::<String>::empty()));
                assert(seen_views(Seq::<String>::empty()) =~= Set::<Seq<char>>::empty());
            }
            match rk {
                Ok(v) => {
                    out.push(v);
                    proof {
                        lemma_batch_extend_ok(
                            c0,
                            kviews.take(i as int),
                            out_pre,
                            cmid,
                            kviews[i as int],
                            v,
                            *self,
                            fuel0,
                        );
                        assert(kviews.take(i as int).push(kviews[i as int]) =~= kviews.take(
                            i as int + 1,
                        ));
                    }
                    i += 1;
                },
                Err(e) => {
                    proof {
                        lemma_batch_extend_err(
                            c0,
                            kviews.take(i as int),
                            out_pre,
                            cmid,
                            kviews[i as int],
                            e@,
                            *self,
                            kviews.skip(i as int + 1),
                            fuel0,
                        );
                        assert(kviews.take(i as int).push(kviews[i as int]) + kviews.skip(
                            i as int + 1,
                        ) =~= kviews);
                    }
                    return Err(e);
                },
            }
        }
        proof {
            assert(kviews.take(keys@.len() as int) =~= kviews);
        }
        Ok(out)
    }
}

} // verus!
