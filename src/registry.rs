use vstd::prelude::*;

use crate::config::Layer;
use crate::property::{property_fault, PropertyAttr, PropertyFault};

verus! {

/// One declared dependency of a component. A type key is the index of a
/// binding in the registry.
pub enum Dependency {
    /// The shared singleton of a type, resolved before the component is built.
    Shared(usize),
    /// A fresh instance of a type, owned by the component.
    Fresh(usize),
    /// The shared singleton of a type, filled in after the component has been
    /// registered in the cache; this is the edge that may close a cycle.
    Deferred(usize),
    /// A value read from the configuration.
    Property(PropertyAttr),
    /// The container's configuration itself.
    Config,
}

/// What a type key stands for.
pub enum Binding {
    /// A component, with its dependencies in declaration order.
    Component(Vec<Dependency>),
    /// An abstract capability, served by the component bound under the given
    /// key.
    Interface(usize),
}

/// The bindings of a container, one per type key.
pub struct Registry {
    pub bindings: Vec<Binding>,
}

/// Why a binding was refused.
#[derive(Debug, Clone, Copy, PartialEq, Eq, Structural)]
pub enum RegistryError {
    /// An eager dependency (at the given position) names a type key that is
    /// not registered yet: eager dependencies must be registered first, so
    /// that an eager cycle cannot be declared.
    UnregisteredDependency(usize),
    /// An interface names a key that is not a registered component.
    NotAComponent(usize),
}

/// The key that an eager dependency names.
pub open spec fn eager_target(d: Dependency) -> Option<usize> {
    match d {
        Dependency::Shared(t) => Some(t),
        Dependency::Fresh(t) => Some(t),
        _ => None,
    }
}

/// The dependencies of the binding under `k`; an interface has none.
pub open spec fn deps_of(bs: Seq<Binding>, k: int) -> Seq<Dependency> {
    match bs[k] {
        Binding::Component(deps) => deps@,
        Binding::Interface(_) => seq![],
    }
}

/// The component that serves the key `k`.
pub open spec fn concrete(bs: Seq<Binding>, k: int) -> int {
    match bs[k] {
        Binding::Interface(t) => t as int,
        Binding::Component(_) => k,
    }
}

/// Whether the binding under `k` is sound: every eager dependency of a
/// component names an earlier key, every deferred one a registered key, and
/// an interface names an earlier component.
pub open spec fn binding_ok(bs: Seq<Binding>, k: int) -> bool {
    match bs[k] {
        Binding::Component(deps) => forall|j: int|
            0 <= j < deps@.len() ==> dep_ok(bs, k, #[trigger] deps@[j]),
        Binding::Interface(t) => t < k && bs[t as int] is Component,
    }
}

/// Whether a dependency of the component under `k` names a key it may name.
pub open spec fn dep_ok(bs: Seq<Binding>, k: int, d: Dependency) -> bool {
    match d {
        Dependency::Shared(t) => t < k,
        Dependency::Fresh(t) => t < k,
        Dependency::Deferred(t) => t < bs.len(),
        _ => true,
    }
}

/// Whether every binding is sound.
pub open spec fn registry_ok(bs: Seq<Binding>) -> bool {
    forall|k: int| 0 <= k < bs.len() ==> binding_ok(bs, k)
}

/// What keeps the dependency `d` from being read from the configuration
/// `layers`, if anything.
pub open spec fn dep_fault(layers: Seq<Layer>, d: Dependency) -> Option<PropertyFault> {
    match d {
        Dependency::Property(a) => property_fault(layers, a),
        _ => None,
    }
}

/// Whether every configuration-derived dependency of every component reads
/// without fault from `layers`.
pub open spec fn properties_ok(bs: Seq<Binding>, layers: Seq<Layer>) -> bool {
    forall|k: int, j: int|
        0 <= k < bs.len() && 0 <= j < deps_of(bs, k).len() ==> dep_fault(
            layers,
            #[trigger] deps_of(bs, k)[j],
        ) is None
}

impl Registry {
    /// A registry without bindings.
    pub fn new() -> (r: Registry)
        ensures
            r.bindings@.len() == 0,
    {
        Registry { bindings: Vec::new() }
    }

    /// The number of type keys.
    pub fn len(&self) -> (r: usize)
        ensures
            r == self.bindings@.len(),
    {
        self.bindings.len()
    }

    /// Registers a component and returns its type key. Every eager dependency
    /// must name a key that is already registered; a deferred one may name
    /// any key, also one registered later.
    pub fn component(&mut self, deps: Vec<Dependency>) -> (r: Result<usize, RegistryError>)
        ensures
            match r {
                Ok(k) => k == old(self).bindings@.len() && final(self).bindings@ == old(
                    self,
                ).bindings@.push(Binding::Component(deps)),
                Err(e) => final(self).bindings@ == old(self).bindings@ && match e {
                    RegistryError::UnregisteredDependency(j) => j < deps@.len()
                        && eager_target(deps@[j as int]) is Some && eager_target(
                        deps@[j as int],
                    )->0 >= old(self).bindings@.len(),
                    RegistryError::NotAComponent(_) => false,
                },
            },
            r is Err <==> exists|j: int|
                0 <= j < deps@.len() && eager_target(#[trigger] deps@[j]) is Some
                    && eager_target(deps@[j])->0 >= old(self).bindings@.len(),
    {
        let n = self.bindings.len();
        let mut j: usize = 0;
        while j < deps.len()
            invariant
                j <= deps@.len(),
                n == self.bindings@.len(),
                self.bindings@ == old(self).bindings@,
                forall|i: int|
                    0 <= i < j ==> !(eager_target(#[trigger] deps@[i]) is Some && eager_target(
                        deps@[i],
                    )->0 >= n),
            decreases deps@.len() - j,
        {
            let bad = match &deps[j] {
                Dependency::Shared(t) => *t >= n,
                Dependency::Fresh(t) => *t >= n,
                _ => false,
            };
            if bad {
                return Err(RegistryError::UnregisteredDependency(j));
            }
            j = j + 1;
        }
        self.bindings.push(Binding::Component(deps));
        Ok(n)
    }

    /// Binds an interface to the component under `target` and returns the
    /// interface's type key.
    pub fn interface(&mut self, target: usize) -> (r: Result<usize, RegistryError>)
        ensures
            target < old(self).bindings@.len() && old(self).bindings@[target as int] is Component
                ==> r == Ok::<usize, RegistryError>(old(self).bindings@.len() as usize)
                && final(self).bindings@ == old(self).bindings@.push(Binding::Interface(target)),
            !(target < old(self).bindings@.len() && old(self).bindings@[target as int] is Component)
                ==> r == Err::<usize, RegistryError>(RegistryError::NotAComponent(target))
                && final(self).bindings@ == old(self).bindings@,
    {
        let n = self.bindings.len();
        if target < n {
            let is_component = match &self.bindings[target] {
                Binding::Component(_) => true,
                Binding::Interface(_) => false,
            };
            if is_component {
                self.bindings.push(Binding::Interface(target));
                return Ok(n);
            }
        }
        Err(RegistryError::NotAComponent(target))
    }
}

} // verus!
