use vstd::prelude::*;

use crate::config::{ConfigStore, Layer, PropValue};
use crate::deferred::{Deferred, DeferredError};
use crate::property::{
    key_of, property_key, property_value, raw_of, raw_property, resolve_property, PropKind,
    PropertyFault, PropertyValue,
};
use crate::registry::{
    binding_ok, concrete, dep_fault, dep_ok, deps_of, properties_ok, registry_ok, Binding,
    Dependency, Registry,
};

verus! {

/// One resolved dependency of a built component. A handle is the index of an
/// instance in the container's arena.
pub enum Field {
    /// The handle of a shared singleton.
    Shared(usize),
    /// The handle of a fresh instance that this component owns.
    Owned(usize),
    /// The slot that receives the handle of a shared singleton once this
    /// component has been registered.
    Deferred(Deferred<usize>),
    /// A value read from the configuration.
    Property(PropertyValue),
    /// The container's configuration.
    Config,
}

/// A built component: the key of its type and its resolved dependencies, in
/// declaration order.
pub struct Instance {
    pub key: usize,
    pub fields: Vec<Field>,
}

/// Every instance that a container has built, and the singleton cache: for
/// each type key, the handle of its shared instance once there is one.
pub struct Arena {
    pub cache: Vec<Option<usize>>,
    pub instances: Vec<Instance>,
}

/// Whether the resolved field `f` is what the dependency `d` asks for.
pub open spec fn field_ok(bs: Seq<Binding>, layers: Seq<Layer>, a: Arena, d: Dependency, f: Field) -> bool {
    match d {
        Dependency::Shared(t) => f is Shared && 0 <= concrete(bs, t as int) < a.cache@.len()
            && a.cache@[concrete(bs, t as int)] == Some(f->Shared_0),
        Dependency::Fresh(t) => f is Owned && f->Owned_0 < a.instances@.len()
            && a.instances@[f->Owned_0 as int].key == concrete(bs, t as int),
        Dependency::Deferred(t) => f is Deferred && (f->Deferred_0@ is None || (0 <= concrete(bs, t as int)
            < a.cache@.len() && a.cache@[concrete(bs, t as int)] == f->Deferred_0@)),
        Dependency::Property(p) => f is Property && property_value(layers, p, f->Property_0),
        Dependency::Config => f is Config,
    }
}

/// Whether the instance under handle `i` is a component built as its binding
/// declares.
pub open spec fn instance_ok(bs: Seq<Binding>, layers: Seq<Layer>, a: Arena, i: int) -> bool {
    let inst = a.instances@[i];
    &&& inst.key < bs.len()
    &&& bs[inst.key as int] is Component
    &&& inst.fields@.len() == deps_of(bs, inst.key as int).len()
    &&& forall|j: int|
        0 <= j < inst.fields@.len() ==> field_ok(
            bs,
            layers,
            a,
            deps_of(bs, inst.key as int)[j],
            #[trigger] inst.fields@[j],
        )
}

/// Whether the cache holds, for each component key, at most the handle of an
/// instance of that component.
pub open spec fn cache_ok(bs: Seq<Binding>, a: Arena) -> bool {
    &&& a.cache@.len() == bs.len()
    &&& forall|k: int|
        0 <= k < bs.len() && (#[trigger] a.cache@[k]) is Some ==> bs[k] is Component
            && a.cache@[k]->0 < a.instances@.len() && a.instances@[a.cache@[k]->0 as int].key
            == k
}

/// Field `j` of instance `i`.
pub open spec fn slot(a: Arena, i: int, j: int) -> Field {
    a.instances@[i].fields@[j]
}

/// The handle that a field holds as a filled deferred slot, if it is one.
pub open spec fn slot_value(f: Field) -> Option<usize> {
    match f {
        Field::Deferred(d) => d@,
        _ => None,
    }
}

/// Whether field `j` of instance `i` is a deferred slot still waiting.
pub open spec fn waiting(a: Arena, i: int, j: int) -> bool {
    &&& 0 <= i < a.instances@.len()
    &&& 0 <= j < a.instances@[i].fields@.len()
    &&& a.instances@[i].fields@[j] is Deferred
    &&& a.instances@[i].fields@[j]->Deferred_0@ is None
}

/// Whether the worklist lists field `j` of instance `i`.
pub open spec fn listed(pending: Seq<(usize, usize)>, i: int, j: int) -> bool {
    exists|q: int| 0 <= q < pending.len() && (#[trigger] pending[q]).0 == i && pending[q].1 == j
}

/// Whether a worklist entry names a deferred field of a built instance.
pub open spec fn entry_ok(bs: Seq<Binding>, a: Arena, p: (usize, usize)) -> bool {
    &&& p.0 < a.instances@.len()
    &&& p.1 < a.instances@[p.0 as int].fields@.len()
    &&& a.instances@[p.0 as int].fields@[p.1 as int] is Deferred
    &&& deps_of(bs, a.instances@[p.0 as int].key as int)[p.1 as int] is Deferred
}

/// Whether the arena is consistent with the bindings and the configuration,
/// with `pending` listing every deferred slot still waiting.
pub open spec fn arena_ok(bs: Seq<Binding>, layers: Seq<Layer>, a: Arena, pending: Seq<(usize, usize)>) -> bool {
    &&& registry_ok(bs)
    &&& cache_ok(bs, a)
    &&& forall|i: int| 0 <= i < a.instances@.len() ==> #[trigger] instance_ok(bs, layers, a, i)
    &&& forall|q: int| 0 <= q < pending.len() ==> entry_ok(bs, a, #[trigger] pending[q])
    &&& forall|i: int, j: int| #[trigger] waiting(a, i, j) ==> listed(pending, i, j)
}

/// Whether a field is kept, or is a waiting slot that may have been filled.
pub open spec fn field_grows(x: Field, y: Field) -> bool {
    x == y || (x is Deferred && y is Deferred && x->Deferred_0@ is None)
}

/// Whether arena `b` is arena `a` after more work: cache entries stay,
/// instances stay, and only waiting slots change, by being filled.
pub open spec fn extends(a: Arena, b: Arena) -> bool {
    &&& b.cache@.len() == a.cache@.len()
    &&& forall|k: int| 0 <= k < a.cache@.len() && (#[trigger] a.cache@[k]) is Some ==> b.cache@[k] == a.cache@[k]
    &&& a.instances@.len() <= b.instances@.len()
    &&& forall|i: int|
        0 <= i < a.instances@.len() ==> (#[trigger] b.instances@[i]).key == a.instances@[i].key
            && b.instances@[i].fields@.len() == a.instances@[i].fields@.len()
            && forall|j: int|
            0 <= j < a.instances@[i].fields@.len() ==> field_grows(
                a.instances@[i].fields@[j],
                #[trigger] b.instances@[i].fields@[j],
            )
}

/// The number of keys that the cache holds a handle for.
pub open spec fn cached_count(c: Seq<Option<usize>>) -> nat
    decreases c.len(),
{
    if c.len() == 0 {
        0
    } else {
        cached_count(c.drop_last()) + if c.last() is Some {
            1nat
        } else {
            0nat
        }
    }
}

/// Where no cache entry is lost, the count does not shrink, and it grows
/// where entry `k` is new.
proof fn lemma_cached_count_grows(a: Seq<Option<usize>>, b: Seq<Option<usize>>, k: int)
    requires
        a.len() == b.len(),
        forall|i: int| 0 <= i < a.len() && (#[trigger] a[i]) is Some ==> b[i] is Some,
    ensures
        cached_count(a) <= cached_count(b),
        cached_count(b) <= b.len(),
        0 <= k < a.len() && a[k] is None && b[k] is Some ==> cached_count(a) < cached_count(b),
    decreases a.len(),
{
    if a.len() > 0 {
        let a2 = a.drop_last();
        let b2 = b.drop_last();
        assert forall|i: int| 0 <= i < a2.len() && (#[trigger] a2[i]) is Some implies b2[i] is Some by {
            assert(a[i] is Some);
        }
        if k == a.len() - 1 {
            lemma_cached_count_grows(a2, b2, -1);
        } else {
            lemma_cached_count_grows(a2, b2, k);
        }
        if a.last() is Some {
            assert(a[a.len() - 1] is Some);
        }
    }
}

/// Growth of an arena is transitive.
proof fn lemma_extends_trans(a: Arena, b: Arena, c: Arena)
    requires
        extends(a, b),
        extends(b, c),
    ensures
        extends(a, c),
{
    assert forall|i: int| 0 <= i < a.instances@.len() implies (#[trigger] c.instances@[i]).key
        == a.instances@[i].key && c.instances@[i].fields@.len() == a.instances@[i].fields@.len()
        && forall|j: int|
        0 <= j < a.instances@[i].fields@.len() ==> field_grows(
            a.instances@[i].fields@[j],
            #[trigger] c.instances@[i].fields@[j],
        ) by {
        assert(b.instances@[i].key == a.instances@[i].key);
        assert forall|j: int| 0 <= j < a.instances@[i].fields@.len() implies field_grows(
            a.instances@[i].fields@[j],
            #[trigger] c.instances@[i].fields@[j],
        ) by {
            assert(field_grows(a.instances@[i].fields@[j], b.instances@[i].fields@[j]));
            assert(field_grows(b.instances@[i].fields@[j], c.instances@[i].fields@[j]));
        }
    }
    assert forall|k: int| 0 <= k < a.cache@.len() && (#[trigger] a.cache@[k]) is Some implies c.cache@[k] == a.cache@[k] by {
        assert(b.cache@[k] == a.cache@[k]);
    }
}

/// A resolved field stays what its dependency asks for as the arena grows.
proof fn lemma_field_ok_extends(
    bs: Seq<Binding>,
    layers: Seq<Layer>,
    a: Arena,
    b: Arena,
    d: Dependency,
    f: Field,
)
    requires
        field_ok(bs, layers, a, d, f),
        extends(a, b),
        cache_ok(bs, a),
        registry_ok(bs),
    ensures
        field_ok(bs, layers, b, d, f),
{
    match d {
        Dependency::Shared(t) => {
            assert(a.cache@[concrete(bs, t as int)] is Some);
        },
        Dependency::Fresh(t) => {
            assert(b.instances@[f->Owned_0 as int].key == a.instances@[f->Owned_0 as int].key);
        },
        Dependency::Deferred(t) => {
            if f->Deferred_0@ is Some {
                assert(a.cache@[concrete(bs, t as int)] is Some);
            }
        },
        _ => {},
    }
}

/// Whether instance `i` is held by the arena: the cache holds it, or it is
/// the owned field of an instance from handle `n` on.
pub open spec fn held(a: Arena, n: int, i: int) -> bool {
    ||| exists|k: int|
        0 <= k < a.cache@.len() && (#[trigger] a.cache@[k]) is Some && a.cache@[k]->0 == i
    ||| exists|i2: int, j: int|
        n <= i2 < a.instances@.len() && 0 <= j < a.instances@[i2].fields@.len() && (#[trigger] slot(
            a,
            i2,
            j,
        )) is Owned && slot(a, i2, j)->Owned_0 == i
}

/// Whether every instance that `a1` has beyond `a0`, but `except`, is held:
/// nothing was built that nothing holds.
pub open spec fn built_by(a0: Arena, a1: Arena, except: int) -> bool {
    forall|i: int|
        a0.instances@.len() <= i < a1.instances@.len() && i != except ==> #[trigger] held(
            a1,
            a0.instances@.len() as int,
            i,
        )
}

/// Whether every cache entry that `a1` has beyond `a0` holds an instance
/// built after `a0`.
pub open spec fn fresh_entries(a0: Arena, a1: Arena) -> bool {
    forall|k: int|
        0 <= k < a0.cache@.len() && a0.cache@[k] is None && (#[trigger] a1.cache@[k]) is Some
            ==> a1.cache@[k]->0 >= a0.instances@.len()
}

/// Whether some field of `fs` owns the instance `i`.
pub open spec fn owned_in(fs: Seq<Field>, i: int) -> bool {
    exists|j: int| 0 <= j < fs.len() && (#[trigger] fs[j]) is Owned && fs[j]->Owned_0 == i
}

/// What is held stays held as the arena grows, also from an earlier handle.
proof fn lemma_held_keeps(a1: Arena, a2: Arena, n1: int, n2: int, i: int)
    requires
        held(a1, n1, i),
        extends(a1, a2),
        0 <= n2 <= n1,
    ensures
        held(a2, n2, i),
{
    if exists|k: int| 0 <= k < a1.cache@.len() && (#[trigger] a1.cache@[k]) is Some && a1.cache@[k]->0 == i {
        let k = choose|k: int| 0 <= k < a1.cache@.len() && (#[trigger] a1.cache@[k]) is Some && a1.cache@[k]->0 == i;
        assert(a2.cache@[k] == a1.cache@[k]);
    } else {
        assert(exists|i2: int, j: int|
            n1 <= i2 < a1.instances@.len() && 0 <= j < a1.instances@[i2].fields@.len() && (#[trigger] slot(
                a1,
                i2,
                j,
            )) is Owned && slot(a1, i2, j)->Owned_0 == i);
        assert forall|i2: int, j: int|
            n1 <= i2 < a1.instances@.len() && 0 <= j < a1.instances@[i2].fields@.len() && #[trigger] slot(
                a1,
                i2,
                j,
            ) is Owned implies slot(a2, i2, j) == slot(a1, i2, j) && i2 < a2.instances@.len()
            && j < a2.instances@[i2].fields@.len() by {
            assert(a2.instances@[i2].key == a1.instances@[i2].key);
            assert(field_grows(a1.instances@[i2].fields@[j], a2.instances@[i2].fields@[j]));
        }
    }
}

/// Two growth steps, each building only what is held, build only what is
/// held.
proof fn lemma_built_by_trans(a0: Arena, a1: Arena, a2: Arena, except: int)
    requires
        built_by(a0, a1, except),
        built_by(a1, a2, -1),
        extends(a0, a1),
        extends(a1, a2),
    ensures
        built_by(a0, a2, except),
{
    assert forall|i: int|
        a0.instances@.len() <= i < a2.instances@.len() && i != except implies #[trigger] held(
            a2,
            a0.instances@.len() as int,
            i,
        ) by {
        if i < a1.instances@.len() {
            assert(held(a1, a0.instances@.len() as int, i));
            lemma_held_keeps(a1, a2, a0.instances@.len() as int, a0.instances@.len() as int, i);
        } else {
            assert(held(a2, a1.instances@.len() as int, i));
            lemma_held_keeps(a2, a2, a1.instances@.len() as int, a0.instances@.len() as int, i);
        }
    }
}

/// Fresh cache entries of two growth steps are fresh for both.
proof fn lemma_fresh_entries_trans(a0: Arena, a1: Arena, a2: Arena)
    requires
        fresh_entries(a0, a1),
        fresh_entries(a1, a2),
        extends(a0, a1),
        extends(a1, a2),
    ensures
        fresh_entries(a0, a2),
{
    assert forall|k: int|
        0 <= k < a0.cache@.len() && a0.cache@[k] is None && (#[trigger] a2.cache@[k]) is Some
            implies a2.cache@[k]->0 >= a0.instances@.len() by {
        if a1.cache@[k] is Some {
            assert(a2.cache@[k] == a1.cache@[k]);
        }
    }
}

/// Instances that are kept as they were stay consistent as the arena grows.
proof fn lemma_instances_stay(bs: Seq<Binding>, layers: Seq<Layer>, a: Arena, b: Arena)
    requires
        registry_ok(bs),
        cache_ok(bs, a),
        forall|i: int| 0 <= i < a.instances@.len() ==> #[trigger] instance_ok(bs, layers, a, i),
        extends(a, b),
        forall|i: int| 0 <= i < a.instances@.len() ==> b.instances@[i] == a.instances@[i],
    ensures
        forall|i: int| 0 <= i < a.instances@.len() ==> #[trigger] instance_ok(bs, layers, b, i),
{
    assert forall|i: int| 0 <= i < a.instances@.len() implies #[trigger] instance_ok(bs, layers, b, i) by {
        assert(instance_ok(bs, layers, a, i));
        let inst = a.instances@[i];
        assert(b.instances@[i] == inst);
        assert forall|j: int| 0 <= j < inst.fields@.len() implies field_ok(
            bs,
            layers,
            b,
            deps_of(bs, inst.key as int)[j],
            #[trigger] inst.fields@[j],
        ) by {
            lemma_field_ok_extends(bs, layers, a, b, deps_of(bs, inst.key as int)[j], inst.fields@[j]);
        }
    }
}

/// The key of the component that serves `t`.
fn concrete_key(reg: &Registry, t: usize) -> (c: usize)
    requires
        t < reg.bindings@.len(),
        registry_ok(reg.bindings@),
    ensures
        c == concrete(reg.bindings@, t as int),
        c <= t,
        reg.bindings@[c as int] is Component,
{
    proof {
        assert(binding_ok(reg.bindings@, t as int));
    }
    match &reg.bindings[t] {
        Binding::Interface(c) => *c,
        Binding::Component(_) => t,
    }
}

impl Arena {
    /// Builds a new instance of the component under `k`: its eager
    /// dependencies are resolved first (shared ones through the cache), its
    /// deferred slots are left waiting and listed in `pending`. The instance
    /// is not cached.
    fn build(
        &mut self,
        reg: &Registry,
        config: &ConfigStore,
        pending: &mut Vec<(usize, usize)>,
        k: usize,
    ) -> (h: usize)
        requires
            arena_ok(reg.bindings@, config.layers@, *old(self), old(pending)@),
            properties_ok(reg.bindings@, config.layers@),
            k < reg.bindings@.len(),
            reg.bindings@[k as int] is Component,
        ensures
            arena_ok(reg.bindings@, config.layers@, *final(self), final(pending)@),
            extends(*old(self), *final(self)),
            old(pending)@.is_prefix_of(final(pending)@),
            old(self).instances@.len() <= h < final(self).instances@.len(),
            final(self).instances@[h as int].key == k,
            forall|c: int| k <= c < old(self).cache@.len() ==> final(self).cache@[c] == old(self).cache@[c],
            built_by(*old(self), *final(self), h as int),
            fresh_entries(*old(self), *final(self)),
            forall|c: int|
                0 <= c < final(self).cache@.len() && (#[trigger] final(self).cache@[c]) is Some
                    ==> final(self).cache@[c]->0 < h,
        decreases k, 0nat,
    {
        let ghost bs = reg.bindings@;
        let ghost layers = config.layers@;
        let ghost start = *self;
        let deps = match &reg.bindings[k] {
            Binding::Component(d) => d,
            Binding::Interface(_) => unreached(),
        };
        proof {
            assert(binding_ok(bs, k as int));
            assert(deps@ == deps_of(bs, k as int));
        }
        let mut fields: Vec<Field> = Vec::new();
        let mut j: usize = 0;
        while j < deps.len()
            invariant
                bs == reg.bindings@,
                layers == config.layers@,
                deps@ == deps_of(bs, k as int),
                binding_ok(bs, k as int),
                k < bs.len(),
                properties_ok(bs, layers),
                j <= deps@.len(),
                fields@.len() == j,
                arena_ok(bs, layers, *self, pending@),
                extends(start, *self),
                old(pending)@.is_prefix_of(pending@),
                forall|c: int| k <= c < start.cache@.len() ==> self.cache@[c] == start.cache@[c],
                forall|i: int| 0 <= i < j ==> field_ok(bs, layers, *self, deps@[i], #[trigger] fields@[i]),
                forall|i: int| 0 <= i < j && (#[trigger] fields@[i]) is Deferred ==> fields@[i]->Deferred_0@ is None,
                fresh_entries(start, *self),
                forall|i: int|
                    start.instances@.len() <= i < self.instances@.len() ==> #[trigger] held(
                        *self,
                        start.instances@.len() as int,
                        i,
                    ) || owned_in(fields@, i),
            decreases deps@.len() - j,
        {
            let ghost before = *self;
            let ghost pend_before = pending@;
            let ghost fields_before = fields@;
            let ghost mut except: int = -1;
            assert(crate::registry::dep_ok(bs, k as int, deps@[j as int]));
            let f = match &deps[j] {
                Dependency::Shared(t) => {
                    proof {
                        assert(binding_ok(bs, *t as int));
                    }
                    let h2 = self.obtain(reg, config, pending, *t);
                    Field::Shared(h2)
                },
                Dependency::Fresh(t) => {
                    let c = concrete_key(reg, *t);
                    let h2 = self.build(reg, config, pending, c);
                    proof {
                        except = h2 as int;
                    }
                    Field::Owned(h2)
                },
                Dependency::Deferred(_) => Field::Deferred(Deferred::new()),
                Dependency::Property(a) => {
                    assert(crate::registry::dep_fault(layers, deps_of(bs, k as int)[j as int]) is None);
                    match resolve_property(config, a) {
                        Ok(v) => Field::Property(v),
                        Err(_) => unreached(),
                    }
                },
                Dependency::Config => Field::Config,
            };
            proof {
                assert forall|i: int| 0 <= i < j implies field_ok(bs, layers, *self, deps@[i], #[trigger] fields@[i]) by {
                    lemma_field_ok_extends(bs, layers, before, *self, deps@[i], fields@[i]);
                }
                lemma_extends_trans(start, before, *self);
                assert(pend_before.is_prefix_of(pending@));
                assert(old(pending)@.is_prefix_of(pending@)) by {
                    assert forall|q: int| 0 <= q < old(pending)@.len() implies old(pending)@[q] == pending@[q] by {
                        assert(old(pending)@[q] == pend_before[q]);
                    }
                }
            }
            assert(field_ok(bs, layers, *self, deps@[j as int], f));
            fields.push(f);
            proof {
                assert(fields@[j as int] == f);
                assert(built_by(before, *self, except));
                assert(except >= 0 ==> f == Field::Owned(except as usize));
                lemma_fresh_entries_trans(start, before, *self);
                let n0 = start.instances@.len() as int;
                assert forall|i: int|
                    start.instances@.len() <= i < self.instances@.len() implies #[trigger] held(
                        *self,
                        n0,
                        i,
                    ) || owned_in(fields@, i) by {
                    if i < before.instances@.len() {
                        if held(before, n0, i) {
                            lemma_held_keeps(before, *self, n0, n0, i);
                        } else {
                            let jw = choose|jw: int| 0 <= jw < fields_before.len() && (#[trigger] fields_before[jw]) is Owned && fields_before[jw]->Owned_0 == i;
                            assert(fields@[jw] == fields_before[jw]);
                        }
                    } else if i == except {
                        assert(fields@[j as int] is Owned);
                    } else {
                        assert(held(*self, before.instances@.len() as int, i));
                        lemma_held_keeps(*self, *self, before.instances@.len() as int, n0, i);
                    }
                }
            }
            j = j + 1;
        }
        let ghost before_push = *self;
        let ghost fields_pushed = fields@;
        let h = self.instances.len();
        self.instances.push(Instance { key: k, fields });
        proof {
            assert(extends(before_push, *self));
            lemma_instances_stay(bs, layers, before_push, *self);
            assert forall|i: int| 0 <= i < j implies field_ok(bs, layers, *self, deps@[i], #[trigger] self.instances@[h as int].fields@[i]) by {
                lemma_field_ok_extends(bs, layers, before_push, *self, deps@[i], self.instances@[h as int].fields@[i]);
            }
            assert(instance_ok(bs, layers, *self, h as int));
            lemma_extends_trans(start, before_push, *self);
            assert forall|q: int| 0 <= q < pending@.len() implies entry_ok(bs, *self, #[trigger] pending@[q]) by {
                assert(entry_ok(bs, before_push, pending@[q]));
            }
            assert forall|i: int, jj: int|
                #[trigger] waiting(*self, i, jj) && (i != h || jj < 0) implies listed(pending@, i, jj) by {
                assert(waiting(before_push, i, jj));
            }
            let n0 = start.instances@.len() as int;
            assert forall|i: int|
                start.instances@.len() <= i < self.instances@.len() && i != h implies #[trigger] held(
                    *self,
                    n0,
                    i,
                ) by {
                if held(before_push, n0, i) {
                    lemma_held_keeps(before_push, *self, n0, n0, i);
                } else {
                    let jw = choose|jw: int| 0 <= jw < fields_pushed.len() && (#[trigger] fields_pushed[jw]) is Owned && fields_pushed[jw]->Owned_0 == i;
                    assert(slot(*self, h as int, jw) == fields_pushed[jw]);
                }
            }
            assert(built_by(start, *self, h as int));
            assert forall|c: int|
                0 <= c < self.cache@.len() && (#[trigger] self.cache@[c]) is Some implies self.cache@[c]->0 < h by {
                assert(before_push.cache@[c] is Some);
            }
        }
        let ghost after_push = *self;
        let mut m: usize = 0;
        while m < deps.len()
            invariant
                bs == reg.bindings@,
                deps@ == deps_of(bs, k as int),
                h < self.instances@.len(),
                self.instances@[h as int].key == k,
                self.instances@[h as int].fields@.len() == deps@.len(),
                m <= deps@.len(),
                registry_ok(bs),
                cache_ok(bs, *self),
                forall|i: int| 0 <= i < self.instances@.len() ==> #[trigger] instance_ok(bs, layers, *self, i),
                forall|q: int| 0 <= q < pending@.len() ==> entry_ok(bs, *self, #[trigger] pending@[q]),
                forall|i: int, jj: int|
                    #[trigger] waiting(*self, i, jj) && (i != h || jj < m) ==> listed(pending@, i, jj),
                old(pending)@.is_prefix_of(pending@),
                *self == after_push,
            decreases deps@.len() - m,
        {
            let ghost pend_before = pending@;
            let is_deferred = match &deps[m] {
                Dependency::Deferred(_) => true,
                _ => false,
            };
            if is_deferred {
                pending.push((h, m));
                proof {
                    assert(instance_ok(bs, layers, *self, h as int));
                    assert(field_ok(bs, layers, *self, deps@[m as int], self.instances@[h as int].fields@[m as int]));
                    assert(pending@[pending@.len() - 1] == (h, m));
                    assert forall|i: int, jj: int|
                        #[trigger] waiting(*self, i, jj) && (i != h || jj < m + 1) implies listed(pending@, i, jj) by {
                        if i != h || jj < m {
                            let q = choose|q: int| 0 <= q < pend_before.len() && (#[trigger] pend_before[q]).0 == i && pend_before[q].1 == jj;
                            assert(pending@[q] == pend_before[q]);
                        } else {
                            assert(pending@[pending@.len() - 1] == (h, m));
                        }
                    }
                    assert forall|q: int| 0 <= q < old(pending)@.len() implies old(pending)@[q] == pending@[q] by {
                        assert(old(pending)@[q] == pend_before[q]);
                    }
                }
            } else {
                proof {
                    assert(instance_ok(bs, layers, *self, h as int));
                    assert(field_ok(bs, layers, *self, deps@[m as int], self.instances@[h as int].fields@[m as int]));
                    assert forall|i: int, jj: int|
                        #[trigger] waiting(*self, i, jj) && (i != h || jj < m + 1) implies listed(pending@, i, jj) by {
                        if i == h && jj == m {
                            assert(!(self.instances@[h as int].fields@[m as int] is Deferred));
                        }
                    }
                }
            }
            m = m + 1;
        }
        proof {
            assert forall|i: int, jj: int| #[trigger] waiting(*self, i, jj) implies listed(pending@, i, jj) by {
                if i == h {
                    assert(jj < m);
                }
            }
        }
        h
    }

    /// The shared instance of the type under `t`: the cached one, or a new one
    /// that is built and then registered in the cache.
    fn obtain(
        &mut self,
        reg: &Registry,
        config: &ConfigStore,
        pending: &mut Vec<(usize, usize)>,
        t: usize,
    ) -> (h: usize)
        requires
            arena_ok(reg.bindings@, config.layers@, *old(self), old(pending)@),
            properties_ok(reg.bindings@, config.layers@),
            t < reg.bindings@.len(),
        ensures
            arena_ok(reg.bindings@, config.layers@, *final(self), final(pending)@),
            extends(*old(self), *final(self)),
            old(pending)@.is_prefix_of(final(pending)@),
            final(self).cache@[concrete(reg.bindings@, t as int)] == Some(h),
            old(self).cache@[concrete(reg.bindings@, t as int)] is Some ==> *final(self) == *old(self)
                && final(pending)@ == old(pending)@,
            old(self).cache@[concrete(reg.bindings@, t as int)] is None ==> cached_count(old(self).cache@)
                < cached_count(final(self).cache@) && old(self).instances@.len() <= h,
            forall|c: int| t < c < old(self).cache@.len() ==> final(self).cache@[c] == old(self).cache@[c],
            built_by(*old(self), *final(self), -1),
            fresh_entries(*old(self), *final(self)),
        decreases t, 1nat,
    {
        let ghost bs = reg.bindings@;
        let ghost layers = config.layers@;
        let c = concrete_key(reg, t);
        match self.cache[c] {
            Some(h) => h,
            None => {
                let ghost start = *self;
                let h = self.build(reg, config, pending, c);
                let ghost built = *self;
                self.cache.set(c, Some(h));
                proof {
                    assert(extends(built, *self));
                    lemma_instances_stay(bs, layers, built, *self);
                    lemma_extends_trans(start, built, *self);
                    assert forall|q: int| 0 <= q < pending@.len() implies entry_ok(bs, *self, #[trigger] pending@[q]) by {
                        assert(entry_ok(bs, built, pending@[q]));
                    }
                    assert forall|i: int, jj: int| #[trigger] waiting(*self, i, jj) implies listed(pending@, i, jj) by {
                        assert(waiting(built, i, jj));
                    }
                    lemma_cached_count_grows(start.cache@, self.cache@, c as int);
                    let n0 = start.instances@.len() as int;
                    assert forall|i: int|
                        start.instances@.len() <= i < self.instances@.len() && i != -1 implies #[trigger] held(
                            *self,
                            n0,
                            i,
                        ) by {
                        if i == h {
                            assert(self.cache@[c as int] == Some(h));
                        } else {
                            assert(held(built, n0, i));
                            lemma_held_keeps(built, *self, n0, n0, i);
                        }
                    }
                    assert forall|k2: int|
                        0 <= k2 < start.cache@.len() && start.cache@[k2] is None && (#[trigger] self.cache@[k2]) is Some
                            implies self.cache@[k2]->0 >= start.instances@.len() by {
                        if k2 != c {
                            assert(self.cache@[k2] == built.cache@[k2]);
                        }
                    }
                }
                h
            },
        }
    }

    /// Fills the deferred slot at field `j` of instance `i` with `h`, unless
    /// it already holds a value.
    fn fill(&mut self, i: usize, j: usize, h: usize)
        requires
            i < old(self).instances@.len(),
            j < old(self).instances@[i as int].fields@.len(),
            old(self).instances@[i as int].fields@[j as int] is Deferred,
        ensures
            final(self).cache@ == old(self).cache@,
            final(self).instances@.len() == old(self).instances@.len(),
            forall|i2: int|
                0 <= i2 < old(self).instances@.len() && i2 != i
                    ==> #[trigger] final(self).instances@[i2] == old(self).instances@[i2],
            final(self).instances@[i as int].key == old(self).instances@[i as int].key,
            final(self).instances@[i as int].fields@.len()
                == old(self).instances@[i as int].fields@.len(),
            forall|j2: int|
                0 <= j2 < old(self).instances@[i as int].fields@.len() && j2 != j ==> #[trigger] slot(
                    *final(self),
                    i as int,
                    j2,
                ) == slot(*old(self), i as int, j2),
            slot(*final(self), i as int, j as int) is Deferred,
            slot_value(slot(*old(self), i as int, j as int)) is None ==> slot_value(
                slot(*final(self), i as int, j as int),
            ) == Some(h),
            slot_value(slot(*old(self), i as int, j as int)) is Some ==> slot(
                *final(self),
                i as int,
                j as int,
            ) == slot(*old(self), i as int, j as int),
    {
        match &mut self.instances[i].fields[j] {
            Field::Deferred(d) => {
                let _ = d.init(h);
            },
            _ => {},
        }
    }

    /// Fills every waiting deferred slot listed in `pending`, with the shared
    /// instance of its type; resolving one may build more instances, whose
    /// slots are filled in turn.
    fn settle(&mut self, reg: &Registry, config: &ConfigStore, pending: &mut Vec<(usize, usize)>)
        requires
            arena_ok(reg.bindings@, config.layers@, *old(self), old(pending)@),
            properties_ok(reg.bindings@, config.layers@),
        ensures
            arena_ok(reg.bindings@, config.layers@, *final(self), final(pending)@),
            final(pending)@.len() == 0,
            extends(*old(self), *final(self)),
            old(pending)@.len() == 0 ==> *final(self) == *old(self),
            built_by(*old(self), *final(self), -1),
            fresh_entries(*old(self), *final(self)),
    {
        let ghost bs = reg.bindings@;
        let ghost layers = config.layers@;
        let ghost start = *self;
        proof {
            lemma_cached_count_grows(self.cache@, self.cache@, -1);
        }
        while pending.len() > 0
            invariant
                bs == reg.bindings@,
                layers == config.layers@,
                arena_ok(bs, layers, *self, pending@),
                properties_ok(bs, layers),
                extends(start, *self),
                old(pending)@.len() == 0 ==> *self == start && pending@.len() == 0,
                cached_count(self.cache@) <= bs.len(),
                self.cache@.len() == bs.len(),
                built_by(start, *self, -1),
                fresh_entries(start, *self),
            decreases bs.len() - cached_count(self.cache@), pending@.len(),
        {
            let ghost before = *self;
            let ghost pend_before = pending@;
            let p = pending.len() - 1;
            let (i, j) = pending[p];
            proof {
                assert(entry_ok(bs, *self, pending@[p as int]));
                assert(instance_ok(bs, layers, *self, i as int));
            }
            let key = self.instances[i].key;
            proof {
                assert(binding_ok(bs, key as int));
            }
            let t = match &reg.bindings[key] {
                Binding::Component(d) => match &d[j] {
                    Dependency::Deferred(t) => *t,
                    _ => unreached(),
                },
                Binding::Interface(_) => unreached(),
            };
            proof {
                assert(crate::registry::dep_ok(bs, key as int, deps_of(bs, key as int)[j as int]));
            }
            let h = self.obtain(reg, config, pending, t);
            let ghost obtained = *self;
            let ghost pend_mid = pending@;
            proof {
                assert(pend_mid[p as int] == pend_before[p as int]);
                assert(obtained.instances@[i as int].key == key);
                assert(obtained.instances@[i as int].fields@.len() == before.instances@[i as int].fields@.len());
                assert(entry_ok(bs, obtained, pend_mid[p as int]));
            }
            self.fill(i, j, h);
            proof {
                let c = concrete(bs, t as int);
                assert(0 <= c < bs.len()) by {
                    assert(binding_ok(bs, t as int));
                }
                assert(extends(obtained, *self)) by {
                    assert forall|i2: int| 0 <= i2 < obtained.instances@.len() implies (#[trigger] self.instances@[i2]).key
                        == obtained.instances@[i2].key && self.instances@[i2].fields@.len() == obtained.instances@[i2].fields@.len()
                        && forall|j2: int|
                        0 <= j2 < obtained.instances@[i2].fields@.len() ==> field_grows(
                            obtained.instances@[i2].fields@[j2],
                            #[trigger] self.instances@[i2].fields@[j2],
                        ) by {
                        if i2 != i {
                            assert(self.instances@[i2] == obtained.instances@[i2]);
                        } else {
                            assert forall|j2: int| 0 <= j2 < obtained.instances@[i2].fields@.len() implies field_grows(
                                obtained.instances@[i2].fields@[j2],
                                #[trigger] self.instances@[i2].fields@[j2],
                            ) by {
                                if j2 != j {
                                    assert(slot(*self, i2, j2) == slot(obtained, i2, j2));
                                }
                            }
                        }
                    }
                }
                lemma_extends_trans(start, before, obtained);
                lemma_extends_trans(start, obtained, *self);
                assert forall|i2: int| 0 <= i2 < self.instances@.len() implies #[trigger] instance_ok(bs, layers, *self, i2) by {
                    assert(instance_ok(bs, layers, obtained, i2));
                    let inst = obtained.instances@[i2];
                    assert forall|j2: int| 0 <= j2 < self.instances@[i2].fields@.len() implies field_ok(
                        bs,
                        layers,
                        *self,
                        deps_of(bs, inst.key as int)[j2],
                        #[trigger] self.instances@[i2].fields@[j2],
                    ) by {
                        if i2 == i && j2 == j {
                            assert(self.instances@[i2].fields@[j2] is Deferred);
                        } else {
                            if i2 != i {
                                assert(self.instances@[i2] == obtained.instances@[i2]);
                            }
                            if i2 == i {
                                assert(slot(*self, i2, j2) == slot(obtained, i2, j2));
                            }
                            assert(self.instances@[i2].fields@[j2] == inst.fields@[j2]);
                            lemma_field_ok_extends(bs, layers, obtained, *self, deps_of(bs, inst.key as int)[j2], inst.fields@[j2]);
                        }
                    }
                }
            }
            let ghost filled = *self;
            pending.remove(p);
            proof {
                assert forall|q: int| 0 <= q < pending@.len() implies entry_ok(bs, *self, #[trigger] pending@[q]) by {
                    let q2 = if q < p { q } else { q + 1 };
                    assert(pending@[q] == pend_mid[q2]);
                    assert(entry_ok(bs, obtained, pend_mid[q2]));
                    let e = pend_mid[q2];
                    if e.0 != i {
                        assert(self.instances@[e.0 as int] == obtained.instances@[e.0 as int]);
                    } else if e.1 != j {
                        assert(slot(*self, i as int, e.1 as int) == slot(obtained, i as int, e.1 as int));
                    }
                }
                assert forall|i2: int, j2: int| #[trigger] waiting(*self, i2, j2) implies listed(pending@, i2, j2) by {
                    assert(!(i2 == i && j2 == j));
                    if i2 != i {
                        assert(self.instances@[i2] == obtained.instances@[i2]);
                    } else {
                        assert(slot(*self, i2, j2) == slot(obtained, i2, j2));
                    }
                    assert(waiting(obtained, i2, j2));
                    let q = choose|q: int| 0 <= q < pend_mid.len() && (#[trigger] pend_mid[q]).0 == i2 && pend_mid[q].1 == j2;
                    assert(pend_mid[p as int] == (i, j));
                    assert(q != p);
                    if q < p {
                        assert(pending@[q] == pend_mid[q]);
                    } else {
                        assert(pending@[q - 1] == pend_mid[q]);
                    }
                }
                lemma_cached_count_grows(before.cache@, self.cache@, concrete(bs, t as int));
                assert(built_by(obtained, *self, -1));
                assert(fresh_entries(obtained, *self));
                lemma_built_by_trans(start, before, obtained, -1);
                lemma_built_by_trans(start, obtained, *self, -1);
                lemma_fresh_entries_trans(start, before, obtained);
                lemma_fresh_entries_trans(start, obtained, *self);
                lemma_extends_trans(start, before, obtained);
            }
        }
    }
}

/// Why a container could not be set up.
#[derive(Debug, PartialEq)]
pub enum ContainerError {
    /// The binding under this key names a key it may not name.
    InvalidBinding(usize),
    /// A configuration-derived dependency (the `index`-th of the component
    /// under `key`) cannot be read from the configuration: the property's
    /// name, the type it is read into, the value found for it (if any), and
    /// what is wrong.
    Property {
        key: usize,
        index: usize,
        name: String,
        kind: PropKind,
        value: Option<PropValue>,
        fault: PropertyFault,
    },
}

/// A dependency-injection container for one profile: its configuration, its
/// bindings, and the instances it has built, with the singleton cache.
pub struct Container {
    pub profile: String,
    pub config: ConfigStore,
    pub registry: Registry,
    pub arena: Arena,
}

/// Whether every deferred slot of every instance holds its value.
pub open spec fn all_wired(a: Arena) -> bool {
    forall|i: int, j: int|
        0 <= i < a.instances@.len() && 0 <= j < a.instances@[i].fields@.len() && (
        #[trigger] a.instances@[i].fields@[j]) is Deferred ==> a.instances@[i].fields@[j]->Deferred_0@ is Some
}

/// Whether `c1` is `c0` after more work: the same bindings and
/// configuration, and an arena that only grew.
pub open spec fn evolved(c0: Container, c1: Container) -> bool {
    &&& c1.profile == c0.profile
    &&& c1.config == c0.config
    &&& c1.registry == c0.registry
    &&& extends(c0.arena, c1.arena)
}

/// What `get(key)` on `c0` that returned `h` and left `c1` guarantees.
pub open spec fn get_post(c0: Container, key: int, h: usize, c1: Container) -> bool {
    &&& c1.wf()
    &&& evolved(c0, c1)
    &&& c1.cached(key) == Some(h)
    &&& c0.cached(key) is Some ==> c1 == c0
    &&& c0.cached(key) is None ==> c0.arena.instances@.len() <= h
    &&& built_by(c0.arena, c1.arena, -1)
}

/// What `create(key)` on `c0` that returned `h` and left `c1` guarantees.
pub open spec fn create_post(c0: Container, key: int, h: usize, c1: Container) -> bool {
    &&& c1.wf()
    &&& evolved(c0, c1)
    &&& c0.arena.instances@.len() <= h < c1.arena.instances@.len()
    &&& c1.arena.instances@[h as int].key == concrete(c0.registry.bindings@, key)
    &&& forall|k: int| 0 <= k < c1.arena.cache@.len() ==> #[trigger] c1.arena.cache@[k] != Some(h)
    &&& built_by(c0.arena, c1.arena, h as int)
}

impl Container {
    /// Whether the container is consistent: sound bindings, a configuration
    /// that every property reads from, and an arena in which every instance
    /// is built as its binding declares and every deferred slot is filled.
    pub open spec fn wf(&self) -> bool {
        &&& registry_ok(self.registry.bindings@)
        &&& properties_ok(self.registry.bindings@, self.config.layers@)
        &&& arena_ok(self.registry.bindings@, self.config.layers@, self.arena, seq![])
    }

    /// The type keys of the container.
    pub open spec fn key_count(&self) -> nat {
        self.registry.bindings@.len()
    }

    /// The handle cached for the component that serves `key`, if any.
    pub open spec fn cached(&self, key: int) -> Option<usize> {
        self.arena.cache@[concrete(self.registry.bindings@, key)]
    }

    /// Sets up a container with an empty cache. It is refused where a binding
    /// names a key that it may not name, or where a configuration-derived
    /// dependency cannot be read from `config`.
    pub fn new(profile: String, config: ConfigStore, registry: Registry) -> (r: Result<
        Container,
        ContainerError,
    >)
        ensures
            r is Ok <==> registry_ok(registry.bindings@) && properties_ok(
                registry.bindings@,
                config.layers@,
            ),
            r is Ok ==> {
                let c = r->Ok_0;
                &&& c.wf()
                &&& c.profile == profile
                &&& c.config == config
                &&& c.registry == registry
                &&& c.arena.instances@.len() == 0
                &&& forall|k: int| 0 <= k < c.arena.cache@.len() ==> c.arena.cache@[k] is None
            },
            r matches Err(ContainerError::InvalidBinding(k)) ==> k < registry.bindings@.len()
                && !binding_ok(registry.bindings@, k as int),
            r matches Err(ContainerError::Property { key, index, name, kind, value, fault }) ==> {
                &&& key < registry.bindings@.len()
                &&& index < deps_of(registry.bindings@, key as int).len()
                &&& deps_of(registry.bindings@, key as int)[index as int] is Property
                &&& dep_fault(config.layers@, deps_of(registry.bindings@, key as int)[index as int])
                    == Some(fault)
                &&& ({
                    let attr = deps_of(registry.bindings@, key as int)[index as int]->Property_0;
                    &&& name@ == key_of(attr)
                    &&& kind == attr.kind
                    &&& value == raw_of(config.layers@, attr)
                })
            },
    {
        let ghost bs = registry.bindings@;
        let ghost layers = config.layers@;
        let n = registry.bindings.len();
        let mut k: usize = 0;
        while k < n
            invariant
                n == bs.len(),
                bs == registry.bindings@,
                layers == config.layers@,
                k <= n,
                forall|k2: int| 0 <= k2 < k ==> #[trigger] binding_ok(bs, k2),
                forall|k2: int, j: int|
                    0 <= k2 < k && 0 <= j < deps_of(bs, k2).len() ==> dep_fault(
                        layers,
                        #[trigger] deps_of(bs, k2)[j],
                    ) is None,
            decreases n - k,
        {
            match &registry.bindings[k] {
                Binding::Interface(t) => {
                    let ok = *t < k && match &registry.bindings[*t] {
                        Binding::Component(_) => true,
                        Binding::Interface(_) => false,
                    };
                    if !ok {
                        proof {
                            assert(!binding_ok(bs, k as int));
                        }
                        return Err(ContainerError::InvalidBinding(k));
                    }
                },
                Binding::Component(deps) => {
                    let mut j: usize = 0;
                    while j < deps.len()
                        invariant
                            n == bs.len(),
                            bs == registry.bindings@,
                            layers == config.layers@,
                            k < n,
                            deps@ == deps_of(bs, k as int),
                            j <= deps@.len(),
                            forall|j2: int| 0 <= j2 < j ==> #[trigger] dep_ok(bs, k as int, deps@[j2]),
                            forall|j2: int| 0 <= j2 < j ==> #[trigger] dep_fault(layers, deps@[j2]) is None,
                        decreases deps@.len() - j,
                    {
                        match &deps[j] {
                            Dependency::Shared(t) => {
                                if *t >= k {
                                    proof {
                                        assert(!dep_ok(bs, k as int, deps@[j as int]));
                                        assert(!binding_ok(bs, k as int));
                                    }
                                    return Err(ContainerError::InvalidBinding(k));
                                }
                            },
                            Dependency::Fresh(t) => {
                                if *t >= k {
                                    proof {
                                        assert(!dep_ok(bs, k as int, deps@[j as int]));
                                        assert(!binding_ok(bs, k as int));
                                    }
                                    return Err(ContainerError::InvalidBinding(k));
                                }
                            },
                            Dependency::Deferred(t) => {
                                if *t >= n {
                                    proof {
                                        assert(!dep_ok(bs, k as int, deps@[j as int]));
                                        assert(!binding_ok(bs, k as int));
                                    }
                                    return Err(ContainerError::InvalidBinding(k));
                                }
                            },
                            Dependency::Property(a) => {
                                match resolve_property(&config, a) {
                                    Ok(_) => {},
                                    Err(fault) => {
                                        proof {
                                            assert(dep_fault(layers, deps_of(bs, k as int)[j as int]) == Some(fault));
                                        }
                                        let name = property_key(a);
                                        let value = raw_property(&config, a);
                                        return Err(
                                            ContainerError::Property {
                                                key: k,
                                                index: j,
                                                name,
                                                kind: a.kind,
                                                value,
                                                fault,
                                            },
                                        );
                                    },
                                }
                            },
                            Dependency::Config => {},
                        }
                        j = j + 1;
                    }
                    proof {
                        assert forall|j2: int| 0 <= j2 < deps@.len() implies dep_ok(bs, k as int, #[trigger] deps@[j2]) by {
                            assert(dep_ok(bs, k as int, deps@[j2]));
                        }
                        assert(binding_ok(bs, k as int));
                    }
                },
            }
            proof {
                assert forall|k2: int, j: int|
                    0 <= k2 < k + 1 && 0 <= j < deps_of(bs, k2).len() implies dep_fault(
                        layers,
                        #[trigger] deps_of(bs, k2)[j],
                    ) is None by {
                    if k2 == k {
                        assert(dep_fault(layers, deps_of(bs, k as int)[j]) is None);
                    }
                }
            }
            k = k + 1;
        }
        let mut cache: Vec<Option<usize>> = Vec::new();
        let mut m: usize = 0;
        while m < n
            invariant
                m <= n,
                cache@.len() == m,
                forall|k2: int| 0 <= k2 < m ==> cache@[k2] is None,
            decreases n - m,
        {
            cache.push(None);
            m = m + 1;
        }
        let arena = Arena { cache, instances: Vec::new() };
        Ok(Container { profile, config, registry, arena })
    }

    /// The instance under handle `h`.
    pub fn instance(&self, h: usize) -> (r: &Instance)
        requires
            h < self.arena.instances@.len(),
        ensures
            *r == self.arena.instances@[h as int],
    {
        &self.arena.instances[h]
    }

    /// The handle that a filled deferred slot (field `j` of the instance under
    /// `h`) holds: that of the shared instance of the slot's type.
    pub fn deferred_target(&self, h: usize, j: usize) -> (r: Result<usize, DeferredError>)
        requires
            h < self.arena.instances@.len(),
            j < self.arena.instances@[h as int].fields@.len(),
        ensures
            r == match slot_value(slot(self.arena, h as int, j as int)) {
                Some(v) => Ok::<usize, DeferredError>(v),
                None => Err(DeferredError::Uninitialized),
            },
    {
        match &self.arena.instances[h].fields[j] {
            Field::Deferred(d) => match d.try_get() {
                Ok(v) => Ok(*v),
                Err(e) => Err(e),
            },
            _ => Err(DeferredError::Uninitialized),
        }
    }
}

/// The operations that resolve a type key to an instance: the shared
/// instance (`get`, `get_ref`) or a fresh one (`create`).
pub trait Provider: Sized {
    /// Whether the provider is consistent and can serve requests.
    spec fn ready(&self) -> bool;

    /// The number of type keys it serves.
    spec fn keys(&self) -> nat;

    /// The number of instances it has built.
    spec fn built(&self) -> nat;

    /// The instance under handle `h`.
    spec fn instance_at(&self, h: int) -> Instance;

    /// The handle of the shared instance for `key`, once there is one.
    spec fn shared(&self, key: int) -> Option<usize>;

    /// What a `get(key)` that returned `h` and left `after` guarantees.
    spec fn get_done(&self, key: int, h: usize, after: Self) -> bool;

    /// What a `create(key)` that returned `h` and left `after` guarantees.
    spec fn create_done(&self, key: int, h: usize, after: Self) -> bool;

    /// The handle of the shared instance for `key`: the one already there,
    /// else one built for this call; a second call returns the same handle.
    fn get(&mut self, key: usize) -> (h: usize)
        requires
            old(self).ready(),
            key < old(self).keys(),
        ensures
            final(self).ready(),
            final(self).keys() == old(self).keys(),
            final(self).shared(key as int) == Some(h),
            old(self).shared(key as int) is Some ==> *final(self) == *old(self),
            old(self).get_done(key as int, h, *final(self)),
    ;

    /// The handle of a new instance for `key`, built for this call and
    /// shared through no cache entry.
    fn create(&mut self, key: usize) -> (h: usize)
        requires
            old(self).ready(),
            key < old(self).keys(),
        ensures
            final(self).ready(),
            final(self).keys() == old(self).keys(),
            old(self).built() <= h < final(self).built(),
            forall|k: int| 0 <= k < final(self).keys() ==> #[trigger] final(self).shared(k) != Some(h),
            old(self).create_done(key as int, h, *final(self)),
    ;

    /// The shared instance for `key`, borrowed from the provider.
    fn get_ref(&mut self, key: usize) -> (r: &Instance)
        requires
            old(self).ready(),
            key < old(self).keys(),
        ensures
            final(self).ready(),
            final(self).keys() == old(self).keys(),
            final(self).shared(key as int) is Some,
            old(self).get_done(key as int, final(self).shared(key as int)->0, *final(self)),
            *r == final(self).instance_at(final(self).shared(key as int)->0 as int),
    ;
}

impl Provider for Container {
    open spec fn ready(&self) -> bool {
        self.wf()
    }

    open spec fn keys(&self) -> nat {
        self.key_count()
    }

    open spec fn built(&self) -> nat {
        self.arena.instances@.len()
    }

    open spec fn instance_at(&self, h: int) -> Instance {
        self.arena.instances@[h]
    }

    open spec fn shared(&self, key: int) -> Option<usize> {
        self.cached(key)
    }

    open spec fn get_done(&self, key: int, h: usize, after: Container) -> bool {
        get_post(*self, key, h, after)
    }

    open spec fn create_done(&self, key: int, h: usize, after: Container) -> bool {
        create_post(*self, key, h, after)
    }

    /// The shared instance of the type under `key`: the cached handle where
    /// there is one, else a new instance that is built, registered in the
    /// cache and then wired. Every deferred slot is filled on return.
    fn get(&mut self, key: usize) -> (h: usize)
        ensures
            get_post(*old(self), key as int, h, *final(self)),
    {
        let mut pending: Vec<(usize, usize)> = Vec::new();
        let ghost start = self.arena;
        let h = self.arena.obtain(&self.registry, &self.config, &mut pending, key);
        let ghost mid = self.arena;
        self.arena.settle(&self.registry, &self.config, &mut pending);
        proof {
            lemma_extends_trans(start, mid, self.arena);
            lemma_built_by_trans(start, mid, self.arena, -1);
            let c = concrete(self.registry.bindings@, key as int);
            assert(binding_ok(self.registry.bindings@, key as int));
            assert(mid.cache@[c] is Some);
        }
        h
    }

    /// A fresh instance of the type under `key`, never cached: each call
    /// builds a new one. Its shared dependencies come from the cache.
    fn create(&mut self, key: usize) -> (h: usize)
        ensures
            create_post(*old(self), key as int, h, *final(self)),
    {
        let mut pending: Vec<(usize, usize)> = Vec::new();
        let ghost start = self.arena;
        let c = concrete_key(&self.registry, key);
        let h = self.arena.build(&self.registry, &self.config, &mut pending, c);
        let ghost mid = self.arena;
        self.arena.settle(&self.registry, &self.config, &mut pending);
        proof {
            lemma_extends_trans(start, mid, self.arena);
            lemma_built_by_trans(start, mid, self.arena, h as int);
            assert forall|k: int| 0 <= k < self.arena.cache@.len() implies #[trigger] self.arena.cache@[k]
                != Some(h) by {
                if mid.cache@[k] is Some {
                    assert(self.arena.cache@[k] == mid.cache@[k]);
                }
            }
            assert forall|k: int| 0 <= k < self.key_count() implies #[trigger] self.cached(k) != Some(h) by {
                assert(binding_ok(self.registry.bindings@, k));
                assert(self.arena.cache@[concrete(self.registry.bindings@, k)] != Some(h));
            }
        }
        h
    }

    /// The shared instance of the type under `key`, borrowed from the
    /// container, which keeps it for its whole life.
    fn get_ref(&mut self, key: usize) -> (r: &Instance)
        ensures
            get_post(*old(self), key as int, final(self).cached(key as int)->0, *final(self)),
            final(self).cached(key as int) is Some,
            *r == final(self).arena.instances@[final(self).cached(key as int)->0 as int],
    {
        let h = self.get(key);
        proof {
            let c = concrete(self.registry.bindings@, key as int);
            assert(binding_ok(self.registry.bindings@, key as int));
            assert(self.arena.cache@[c] is Some);
        }
        &self.arena.instances[h]
    }

}

/// In a consistent container every deferred slot holds its value, and that
/// value is the shared instance of the slot's type.
pub proof fn lemma_all_wired(c: Container)
    requires
        c.wf(),
    ensures
        all_wired(c.arena),
{
    assert forall|i: int, j: int|
        0 <= i < c.arena.instances@.len() && 0 <= j < c.arena.instances@[i].fields@.len() && (
        #[trigger] c.arena.instances@[i].fields@[j]) is Deferred implies c.arena.instances@[i].fields@[j]->Deferred_0@ is Some by {
        if c.arena.instances@[i].fields@[j]->Deferred_0@ is None {
            assert(waiting(c.arena, i, j));
        }
    }
}

/// A deferred slot holds the handle of the shared instance of its type.
pub proof fn lemma_deferred_points_to_singleton(c: Container, h: int, j: int)
    requires
        c.wf(),
        0 <= h < c.arena.instances@.len(),
        0 <= j < c.arena.instances@[h].fields@.len(),
        c.arena.instances@[h].fields@[j] is Deferred,
    ensures
        ({
            let d = deps_of(c.registry.bindings@, c.arena.instances@[h].key as int)[j];
            &&& d is Deferred
            &&& c.arena.instances@[h].fields@[j]->Deferred_0@ is Some
            &&& c.cached(d->Deferred_0 as int) == c.arena.instances@[h].fields@[j]->Deferred_0@
        }),
{
    lemma_all_wired(c);
    assert(instance_ok(c.registry.bindings@, c.config.layers@, c.arena, h));
    let d = deps_of(c.registry.bindings@, c.arena.instances@[h].key as int)[j];
    assert(field_ok(c.registry.bindings@, c.config.layers@, c.arena, d, c.arena.instances@[h].fields@[j]));
}

/// Cycle resolution: where component `a` waits (deferred, at position `j`)
/// for component `b`, and `b` holds `a` eagerly (at position `m`), a `get` of
/// `a` returns with `a`'s slot holding the cached `b`, whose field holds the
/// very instance that was returned for `a`.
pub proof fn lemma_cycle_resolution(
    c0: Container,
    c1: Container,
    a: usize,
    b: usize,
    ha: usize,
    j: int,
    m: int,
)
    requires
        c0.wf(),
        a < c0.key_count(),
        b < c0.key_count(),
        c0.registry.bindings@[a as int] is Component,
        c0.registry.bindings@[b as int] is Component,
        0 <= j < deps_of(c0.registry.bindings@, a as int).len(),
        deps_of(c0.registry.bindings@, a as int)[j] == Dependency::Deferred(b),
        0 <= m < deps_of(c0.registry.bindings@, b as int).len(),
        deps_of(c0.registry.bindings@, b as int)[m] == Dependency::Shared(a),
        get_post(c0, a as int, ha, c1),
    ensures
        c1.cached(b as int) is Some,
        c1.arena.instances@[ha as int].fields@[j] is Deferred,
        c1.arena.instances@[ha as int].fields@[j]->Deferred_0@ == c1.cached(b as int),
        c1.arena.instances@[c1.cached(b as int)->0 as int].fields@[m] == Field::Shared(ha),
{
    let bs = c1.registry.bindings@;
    let layers = c1.config.layers@;
    assert(c1.registry == c0.registry);
    assert(concrete(bs, a as int) == a);
    assert(concrete(bs, b as int) == b);
    assert(c1.arena.cache@[a as int] == Some(ha));
    assert(c1.arena.instances@[ha as int].key == a);
    assert(instance_ok(bs, layers, c1.arena, ha as int));
    assert(field_ok(bs, layers, c1.arena, deps_of(bs, a as int)[j], c1.arena.instances@[ha as int].fields@[j]));
    lemma_deferred_points_to_singleton(c1, ha as int, j);
    let hb = c1.cached(b as int)->0;
    assert(c1.arena.cache@[b as int] == Some(hb));
    assert(instance_ok(bs, layers, c1.arena, hb as int));
    assert(field_ok(bs, layers, c1.arena, deps_of(bs, b as int)[m], c1.arena.instances@[hb as int].fields@[m]));
}

/// Work on a container only adds: what one step keeps, two steps keep.
pub proof fn lemma_evolved_trans(c0: Container, c1: Container, c2: Container)
    requires
        evolved(c0, c1),
        evolved(c1, c2),
    ensures
        evolved(c0, c2),
{
    lemma_extends_trans(c0.arena, c1.arena, c2.arena);
}

/// Singleton identity: two `get` calls for the same type on the same
/// container return the same handle, whatever other work the container did
/// between them.
pub proof fn lemma_singleton_identity(
    c0: Container,
    c1: Container,
    c2: Container,
    c3: Container,
    key: int,
    h1: usize,
    h2: usize,
)
    requires
        c0.wf(),
        0 <= key < c0.key_count(),
        get_post(c0, key, h1, c1),
        evolved(c1, c2),
        get_post(c2, key, h2, c3),
    ensures
        h1 == h2,
{
    assert(binding_ok(c0.registry.bindings@, key));
    let k = concrete(c0.registry.bindings@, key);
    assert(c1.arena.cache@[k] is Some);
    assert(c2.arena.cache@[k] == c1.arena.cache@[k]);
}

/// Fresh-instance independence: two `create` calls for the same type on the
/// same container return different instances, while each shared dependency
/// of the two is the same instance.
pub proof fn lemma_fresh_independence(
    c0: Container,
    c1: Container,
    c2: Container,
    c3: Container,
    key: int,
    h1: usize,
    h2: usize,
)
    requires
        c0.wf(),
        0 <= key < c0.key_count(),
        create_post(c0, key, h1, c1),
        evolved(c1, c2),
        create_post(c2, key, h2, c3),
    ensures
        h1 != h2,
        c3.arena.instances@[h1 as int].key == c3.arena.instances@[h2 as int].key,
        forall|j: int|
            0 <= j < c3.arena.instances@[h1 as int].fields@.len() && (#[trigger] deps_of(
                c0.registry.bindings@,
                c3.arena.instances@[h1 as int].key as int,
            )[j]) is Shared ==> c3.arena.instances@[h1 as int].fields@[j] is Shared
                && c3.arena.instances@[h1 as int].fields@[j] == c3.arena.instances@[h2 as int].fields@[j],
{
    let bs = c0.registry.bindings@;
    let layers = c0.config.layers@;
    lemma_evolved_trans(c1, c2, c3);
    assert(c3.arena.instances@[h1 as int].key == c1.arena.instances@[h1 as int].key);
    assert(instance_ok(bs, layers, c3.arena, h1 as int));
    assert(instance_ok(bs, layers, c3.arena, h2 as int));
    assert forall|j: int|
        0 <= j < c3.arena.instances@[h1 as int].fields@.len() && (#[trigger] deps_of(
            bs,
            c3.arena.instances@[h1 as int].key as int,
        )[j]) is Shared implies c3.arena.instances@[h1 as int].fields@[j] is Shared
            && c3.arena.instances@[h1 as int].fields@[j] == c3.arena.instances@[h2 as int].fields@[j] by {
        let d = deps_of(bs, c3.arena.instances@[h1 as int].key as int)[j];
        assert(field_ok(bs, layers, c3.arena, d, c3.arena.instances@[h1 as int].fields@[j]));
        assert(field_ok(bs, layers, c3.arena, d, c3.arena.instances@[h2 as int].fields@[j]));
    }
}

} // verus!
