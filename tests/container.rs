use waiter_di::config::{ConfigStore, Layer, PropValue};
use waiter_di::container::{Container, ContainerError, Field, Provider};
use waiter_di::deferred::DeferredError;
use waiter_di::property::{PropKind, PropertyAttr, PropertyFault, PropertyValue};
use waiter_di::registry::{Binding, Dependency, Registry, RegistryError};

fn empty_config() -> ConfigStore {
    ConfigStore::new(Layer::empty(), Layer::empty(), Layer::empty(), Layer::empty())
}

fn container(registry: Registry) -> Container {
    Container::new("default".to_string(), empty_config(), registry).unwrap()
}

#[test]
fn singleton_identity_across_other_resolutions() {
    let mut reg = Registry::new();
    let a = reg.component(vec![]).unwrap();
    let b = reg.component(vec![Dependency::Shared(a)]).unwrap();
    let c = reg.component(vec![]).unwrap();
    let mut cont = container(reg);
    let first = cont.get(b);
    let _ = cont.get(c);
    let _ = cont.create(b);
    let second = cont.get(b);
    assert_eq!(first, second);
    assert_eq!(cont.instance(first).key, b);
}

#[test]
fn fresh_instances_share_singletons() {
    let mut reg = Registry::new();
    let dep = reg.component(vec![]).unwrap();
    let comp = reg.component(vec![Dependency::Shared(dep)]).unwrap();
    let mut cont = container(reg);
    let one = cont.create(comp);
    let two = cont.create(comp);
    assert_ne!(one, two);
    let shared = cont.get(dep);
    for h in [one, two] {
        match &cont.instance(h).fields[0] {
            Field::Shared(x) => assert_eq!(*x, shared),
            _ => panic!("expected a shared dependency"),
        }
    }
}

#[test]
fn owned_dependency_is_a_new_instance() {
    let mut reg = Registry::new();
    let dep = reg.component(vec![]).unwrap();
    let comp = reg.component(vec![Dependency::Fresh(dep)]).unwrap();
    let mut cont = container(reg);
    let shared = cont.get(dep);
    let h = cont.get(comp);
    match &cont.instance(h).fields[0] {
        Field::Owned(x) => {
            assert_ne!(*x, shared);
            assert_eq!(cont.instance(*x).key, dep);
        }
        _ => panic!("expected an owned dependency"),
    }
}

#[test]
fn cycle_through_deferred_edge_resolves() {
    let mut reg = Registry::new();
    // A waits for B; B holds A eagerly.
    let a = reg.component(vec![Dependency::Deferred(1)]).unwrap();
    let b = reg.component(vec![Dependency::Shared(a)]).unwrap();
    let mut cont = container(reg);
    let ha = cont.get(a);
    let hb = cont.get(b);
    assert_ne!(ha, hb);
    assert_eq!(cont.deferred_target(ha, 0), Ok(hb));
    match &cont.instance(hb).fields[0] {
        Field::Shared(x) => assert_eq!(*x, ha),
        _ => panic!("expected a shared dependency"),
    }
    assert_eq!(cont.get(a), ha);
}

#[test]
fn cycle_resolves_from_either_end() {
    let mut reg = Registry::new();
    let a = reg.component(vec![Dependency::Deferred(1)]).unwrap();
    let b = reg.component(vec![Dependency::Shared(a)]).unwrap();
    let mut cont = container(reg);
    let hb = cont.get(b);
    let ha = cont.get(a);
    assert_eq!(cont.deferred_target(ha, 0), Ok(hb));
}

#[test]
fn eager_dependency_must_be_registered_first() {
    let mut reg = Registry::new();
    assert_eq!(reg.component(vec![Dependency::Shared(0)]), Err(RegistryError::UnregisteredDependency(0)));
    assert_eq!(reg.len(), 0);
    let a = reg.component(vec![]).unwrap();
    assert_eq!(reg.component(vec![Dependency::Config, Dependency::Fresh(5)]), Err(RegistryError::UnregisteredDependency(1)));
    assert_eq!(a, 0);
}

#[test]
fn interface_resolves_to_its_component() {
    let mut reg = Registry::new();
    let comp = reg.component(vec![]).unwrap();
    let iface = reg.interface(comp).unwrap();
    assert_eq!(reg.interface(iface), Err(RegistryError::NotAComponent(iface)));
    assert_eq!(reg.interface(9), Err(RegistryError::NotAComponent(9)));
    let mut cont = container(reg);
    let via_iface = cont.get(iface);
    assert_eq!(via_iface, cont.get(comp));
    let fresh = cont.create(iface);
    assert_eq!(cont.instance(fresh).key, comp);
}

#[test]
fn get_ref_borrows_the_singleton() {
    let mut reg = Registry::new();
    let comp = reg.component(vec![Dependency::Config]).unwrap();
    let mut cont = container(reg);
    let inst = cont.get_ref(comp);
    assert_eq!(inst.key, comp);
    assert!(matches!(inst.fields[0], Field::Config));
}

#[test]
fn unknown_deferred_target_is_refused() {
    let mut reg = Registry::new();
    reg.component(vec![Dependency::Deferred(3)]).unwrap();
    let r = Container::new("default".to_string(), empty_config(), reg);
    assert!(matches!(r, Err(ContainerError::InvalidBinding(0))));
}

#[test]
fn hand_built_binding_is_checked() {
    let reg = Registry { bindings: vec![Binding::Interface(0)] };
    let r = Container::new("default".to_string(), empty_config(), reg);
    assert!(matches!(r, Err(ContainerError::InvalidBinding(0))));
}

#[test]
fn missing_property_refuses_the_container() {
    let mut reg = Registry::new();
    reg.component(vec![]).unwrap();
    let attr = PropertyAttr { name: None, field: "port".to_string(), kind: PropKind::U16, default_value: None, optional: false };
    reg.component(vec![Dependency::Config, Dependency::Property(attr)]).unwrap();
    let r = Container::new("default".to_string(), empty_config(), reg);
    match r {
        Err(ContainerError::Property { key, index, name, kind, value, fault }) => {
            assert_eq!((key, index), (1, 1));
            assert_eq!(name, "port");
            assert_eq!(kind, PropKind::U16);
            assert_eq!(value, None);
            assert_eq!(fault, PropertyFault::Missing);
        }
        _ => panic!("expected a property error"),
    }
}

#[test]
fn out_of_range_property_names_its_value() {
    let mut reg = Registry::new();
    let attr = PropertyAttr { name: Some("level".to_string()), field: "lvl".to_string(), kind: PropKind::I8, default_value: None, optional: true };
    reg.component(vec![Dependency::Property(attr)]).unwrap();
    let config = ConfigStore::new(
        Layer { entries: vec![("level".to_string(), PropValue::Int(300))] },
        Layer::empty(),
        Layer::empty(),
        Layer::empty(),
    );
    match Container::new("default".to_string(), config, reg) {
        Err(ContainerError::Property { key, index, name, kind, value, fault }) => {
            assert_eq!((key, index), (0, 0));
            assert_eq!(name, "level");
            assert_eq!(kind, PropKind::I8);
            assert_eq!(value, Some(PropValue::Int(300)));
            assert_eq!(fault, PropertyFault::Coercion);
        }
        _ => panic!("expected a property error"),
    }
}

#[test]
fn property_is_injected() {
    let mut reg = Registry::new();
    let attr = PropertyAttr { name: None, field: "port".to_string(), kind: PropKind::U16, default_value: None, optional: false };
    let comp = reg.component(vec![Dependency::Property(attr)]).unwrap();
    let config = ConfigStore::new(
        Layer { entries: vec![("port".to_string(), PropValue::Int(8080))] },
        Layer::empty(),
        Layer::empty(),
        Layer::empty(),
    );
    let mut cont = Container::new("dev".to_string(), config, reg).unwrap();
    let h = cont.get(comp);
    match &cont.instance(h).fields[0] {
        Field::Property(v) => assert_eq!(*v, PropertyValue::Int(8080)),
        _ => panic!("expected a property"),
    }
    assert_eq!(cont.profile, "dev");
}

#[test]
fn non_deferred_field_has_no_target() {
    let mut reg = Registry::new();
    let comp = reg.component(vec![Dependency::Config]).unwrap();
    let mut cont = container(reg);
    let h = cont.get(comp);
    assert_eq!(cont.deferred_target(h, 0), Err(DeferredError::Uninitialized));
}

#[test]
fn cycle_builds_each_component_once() {
    let mut reg = Registry::new();
    let a = reg.component(vec![Dependency::Deferred(1)]).unwrap();
    let b = reg.component(vec![Dependency::Shared(a)]).unwrap();
    let mut cont = container(reg);
    let ha = cont.get(a);
    assert_eq!(cont.arena.instances.len(), 2);
    assert_eq!(cont.arena.cache[a], Some(ha));
    assert!(cont.arena.cache[b].is_some());
    let _ = cont.get(b);
    assert_eq!(cont.arena.instances.len(), 2);
}

#[test]
fn created_instance_is_not_cached() {
    let mut reg = Registry::new();
    let dep = reg.component(vec![]).unwrap();
    let comp = reg.component(vec![Dependency::Shared(dep)]).unwrap();
    let mut cont = container(reg);
    let h = cont.create(comp);
    assert!(cont.arena.cache.iter().all(|e| *e != Some(h)));
    assert_eq!(cont.arena.cache[comp], None);
    assert_eq!(cont.arena.instances.len(), 2);
}
