use pullgraph::provider::{DepHandle, ProviderHandle};
use pullgraph::{Context, Provider, PullGraph, PullGraphError};
use std::any::{Any, TypeId};

type Value = Box<dyn Any>;

/// A provider of any produced type, stored type-erased in the graph.
struct Node(Box<dyn Provider<Value>>);

impl Provider<Value> for Node {
    fn activate(&mut self) {
        self.0.activate()
    }

    fn produce(&mut self, ctx: &Context<Value>) -> Value {
        self.0.produce(ctx)
    }

    fn deactivate(&mut self) {
        self.0.deactivate()
    }
}

struct FromFn<F>(F);

impl<F: FnMut(&Context<Value>) -> Value> Provider<Value> for FromFn<F> {
    fn produce(&mut self, ctx: &Context<Value>) -> Value {
        (self.0)(ctx)
    }
}

type Graph = PullGraph<Node, Value>;

/// A provider from a closure without arguments.
#[allow(dead_code)]
fn source<T: 'static>(mut f: impl FnMut() -> T + 'static) -> Node {
    Node(Box::new(FromFn(move |_: &Context<Value>| -> Value { Box::new(f()) })))
}

/// A provider from a closure that reads the context.
#[allow(dead_code)]
fn derived<T: 'static>(mut f: impl FnMut(&Context<Value>) -> T + 'static) -> Node {
    Node(Box::new(FromFn(move |ctx: &Context<Value>| -> Value { Box::new(f(ctx)) })))
}

/// A provider given as a value implementing the trait.
#[allow(dead_code)]
fn boxed(p: impl Provider<Value> + 'static) -> Node {
    Node(Box::new(p))
}

/// The produced value read as a `T`.
#[allow(dead_code)]
fn typed<T: 'static>(v: Option<&Value>) -> Option<&T> {
    v.and_then(|b| b.downcast_ref::<T>())
}

/// Reads the value produced for `T` in `ctx`.
#[allow(dead_code)]
fn read<T: 'static>(ctx: &Context<Value>) -> Option<&T> {
    typed::<T>(ctx.get::<T>())
}

#[test]
fn default_creates_pullgraph() {
    let pullgraph: Graph = PullGraph::default();
    assert!(!pullgraph.is_demanded::<i32>());
}

#[test]
fn provide_with_deps_self_cycle_detected() {
    let mut pullgraph: Graph = PullGraph::new();
    let _h = ProviderHandle::<f64>::new();
    let deps: &[&dyn DepHandle] = &[&_h];
    let result = pullgraph.provide_with_deps::<f64>(deps, derived(|_: &Context<Value>| 1.0f64));
    assert!(matches!(result, Err(PullGraphError::DependencyCycle(_))));
}

#[test]
fn provide_with_deps_transitive_cycle_detected() {
    let mut pullgraph: Graph = PullGraph::new();
    let h1 = pullgraph.provide::<i32>(source(|| 1i32)).unwrap();
    let deps1: &[&dyn DepHandle] = &[&h1];
    let h2: ProviderHandle<i64> = pullgraph
        .derive(
            deps1,
            derived(|ctx: &Context<Value>| -> i64 { read::<i32>(ctx).map(|&v| v as i64).unwrap_or(0) }),
        )
        .unwrap();

    {
        let f64_id = TypeId::of::<f64>();
        let i64_id = TypeId::of::<i64>();
        pullgraph.inner_mut().add_dependent(f64_id, i64_id);
    }
    let deps: &[&dyn DepHandle] = &[&h2];
    let result = pullgraph.provide_with_deps::<f64>(deps, derived(|_: &Context<Value>| 1.0f64));
    assert!(matches!(result, Err(PullGraphError::DependencyCycle(_))));
}

#[test]
fn derive_self_cycle_detected() {
    let mut pullgraph: Graph = PullGraph::new();
    let _h = ProviderHandle::<f64>::new();
    let deps: &[&dyn DepHandle] = &[&_h];
    let result = pullgraph.derive::<f64>(deps, derived(|_: &Context<Value>| 1.0f64));
    assert!(matches!(result, Err(PullGraphError::DependencyCycle(_))));
}

#[test]
fn derive_transitive_cycle_detected() {
    let mut pullgraph: Graph = PullGraph::new();
    let h1 = pullgraph.provide::<i32>(source(|| 1i32)).unwrap();
    let deps1: &[&dyn DepHandle] = &[&h1];
    let h2: ProviderHandle<i64> = pullgraph
        .derive(
            deps1,
            derived(|ctx: &Context<Value>| -> i64 { read::<i32>(ctx).map(|&v| v as i64).unwrap_or(0) }),
        )
        .unwrap();

    {
        let f64_id = TypeId::of::<f64>();
        let i64_id = TypeId::of::<i64>();
        pullgraph.inner_mut().add_dependent(f64_id, i64_id);
    }
    let deps: &[&dyn DepHandle] = &[&h2];
    let result = pullgraph.derive::<f64>(deps, derived(|_: &Context<Value>| 1.0f64));
    assert!(matches!(result, Err(PullGraphError::DependencyCycle(_))));
}

#[test]
fn try_want_declines_unregistered_dependency() {
    let mut pullgraph: Graph = PullGraph::new();
    let missing = ProviderHandle::<u8>::new();
    let deps: &[&dyn DepHandle] = &[&missing];
    pullgraph.provide_with_deps::<i32>(deps, derived(|_: &Context<Value>| 1i32)).unwrap();
    assert!(!pullgraph.inner().can_acquire(TypeId::of::<i32>()));
    assert!(pullgraph.try_want::<i32>().is_none());
    assert_eq!(pullgraph.demand_count::<i32>(), 0);
    assert!(!pullgraph.is_demanded::<i32>());
}

#[test]
fn try_want_reports_missing_provider() {
    let mut pullgraph: Graph = PullGraph::new();
    match pullgraph.try_want::<i32>() {
        Some(Err(PullGraphError::NoProvider(id))) => assert_eq!(id, TypeId::of::<i32>()),
        _ => panic!("expected NoProvider"),
    }
}

#[test]
fn try_want_demands_like_want() {
    let mut pullgraph: Graph = PullGraph::new();
    let a = pullgraph.provide::<i32>(source(|| 1i32)).unwrap();
    let deps: &[&dyn DepHandle] = &[&a];
    pullgraph.derive::<i64>(deps, derived(|_: &Context<Value>| 2i64)).unwrap();
    assert!(pullgraph.inner().can_acquire(TypeId::of::<i64>()));
    let d = match pullgraph.try_want::<i64>() {
        Some(Ok(d)) => d,
        _ => panic!("expected demand"),
    };
    assert_eq!(d.activation().type_id(), TypeId::of::<i64>());
    assert_eq!(pullgraph.demand_count::<i64>(), 1);
    assert_eq!(pullgraph.demand_count::<i32>(), 1);
    assert!(pullgraph.inner().can_release(TypeId::of::<i64>()));
    pullgraph.release(d);
    assert_eq!(pullgraph.demand_count::<i64>(), 0);
    assert_eq!(pullgraph.demand_count::<i32>(), 0);
}

#[test]
fn can_release_refuses_more_than_is_demanded() {
    let mut first: Graph = PullGraph::new();
    first.provide::<i32>(source(|| 1i32)).unwrap();
    let d = first.want::<i32>().unwrap();
    assert!(first.inner().can_release(TypeId::of::<i32>()));

    let mut second: Graph = PullGraph::new();
    assert!(!second.inner().can_release(TypeId::of::<i32>()));
    second.provide::<i32>(source(|| 1i32)).unwrap();
    assert!(!second.inner().can_release(TypeId::of::<i32>()));
    let other = second.want::<i32>().unwrap();
    assert!(second.inner().can_release(TypeId::of::<i32>()));
    second.release(other);
    first.release(d);
    assert_eq!(first.demand_count::<i32>(), 0);
}

#[test]
fn providers_in_place_sees_a_removed_provider() {
    let mut pullgraph: Graph = PullGraph::new();
    pullgraph.provide::<i32>(source(|| 1i32)).unwrap();
    pullgraph.inner_mut().null_provider(TypeId::of::<i32>());
    assert!(pullgraph.inner().providers_in_place());
    let _d = pullgraph.want::<i32>().unwrap();
    assert!(!pullgraph.inner().providers_in_place());
}

#[test]
fn dropping_first_of_two_demands_keeps_dependency() {
    let mut pullgraph: Graph = PullGraph::new();
    let a = pullgraph.provide::<i32>(source(|| 10i32)).unwrap();
    let deps: &[&dyn DepHandle] = &[&a];
    pullgraph
        .derive::<i64>(
            deps,
            derived(|ctx: &Context<Value>| -> i64 { read::<i32>(ctx).map(|&v| v as i64 * 2).unwrap_or(0) }),
        )
        .unwrap();
    let d1 = pullgraph.want::<i64>().unwrap();
    let d2 = pullgraph.want::<i64>().unwrap();
    pullgraph.release(d1);
    assert_eq!(pullgraph.demand_count::<i64>(), 1);
    assert!(pullgraph.is_demanded::<i32>());
    assert_eq!(pullgraph.demand_count::<i32>(), 1);
    let mut ctx = pullgraph.context();
    assert_eq!(typed::<i64>(ctx.produce::<i64, _>(&mut pullgraph)), Some(&20));
    pullgraph.release(d2);
    assert_eq!(pullgraph.demand_count::<i64>(), 0);
    assert_eq!(pullgraph.demand_count::<i32>(), 0);
}

#[test]
fn dropping_original_of_cloned_demand_keeps_dependency() {
    let mut pullgraph: Graph = PullGraph::new();
    let a = pullgraph.provide::<i32>(source(|| 10i32)).unwrap();
    let deps: &[&dyn DepHandle] = &[&a];
    pullgraph.derive::<i64>(deps, derived(|_: &Context<Value>| 0i64)).unwrap();
    let d1 = pullgraph.want::<i64>().unwrap();
    let d2 = pullgraph.clone_demand(&d1);
    pullgraph.release(d1);
    assert_eq!(pullgraph.demand_count::<i64>(), 1);
    assert!(pullgraph.is_demanded::<i32>());
    assert_eq!(pullgraph.demand_count::<i32>(), 1);
    pullgraph.release(d2);
    assert!(!pullgraph.is_demanded::<i32>());
}

#[test]
fn shared_dependency_released_once_per_dependent() {
    let mut pullgraph: Graph = PullGraph::new();
    let a = pullgraph.provide::<i32>(source(|| 1i32)).unwrap();
    let deps: &[&dyn DepHandle] = &[&a];
    let b = pullgraph.derive::<i64>(deps, derived(|_: &Context<Value>| 2i64)).unwrap();
    let c = pullgraph.derive::<u8>(deps, derived(|_: &Context<Value>| 3u8)).unwrap();
    let deps2: &[&dyn DepHandle] = &[&b, &c];
    pullgraph.derive::<u16>(deps2, derived(|_: &Context<Value>| 4u16)).unwrap();
    let dc = pullgraph.want::<u8>().unwrap();
    let dd = pullgraph.want::<u16>().unwrap();
    assert_eq!(pullgraph.demand_count::<i32>(), 2);
    assert_eq!(pullgraph.demand_count::<u8>(), 2);
    pullgraph.release(dd);
    assert_eq!(pullgraph.demand_count::<u16>(), 0);
    assert_eq!(pullgraph.demand_count::<i64>(), 0);
    assert_eq!(pullgraph.demand_count::<u8>(), 1);
    assert_eq!(pullgraph.demand_count::<i32>(), 1);
    pullgraph.release(dc);
    assert_eq!(pullgraph.demand_count::<i32>(), 0);
}

#[test]
fn want_names_missing_dependency() {
    let mut pullgraph: Graph = PullGraph::new();
    let missing = ProviderHandle::<u8>::new();
    let deps: &[&dyn DepHandle] = &[&missing];
    pullgraph.provide_with_deps::<i32>(deps, derived(|_: &Context<Value>| 1i32)).unwrap();
    assert_eq!(pullgraph.inner().missing_dependency(TypeId::of::<i32>()), Some(TypeId::of::<u8>()));
    match pullgraph.want::<i32>() {
        Err(PullGraphError::NoProvider(id)) => assert_eq!(id, TypeId::of::<u8>()),
        _ => panic!("expected NoProvider"),
    }
    assert_eq!(pullgraph.demand_count::<i32>(), 0);
}

#[test]
fn want_ignores_unrelated_missing_dependency() {
    let mut pullgraph: Graph = PullGraph::new();
    let missing = ProviderHandle::<u8>::new();
    let deps: &[&dyn DepHandle] = &[&missing];
    pullgraph.provide_with_deps::<i32>(deps, derived(|_: &Context<Value>| 1i32)).unwrap();
    pullgraph.provide::<i64>(source(|| 2i64)).unwrap();
    assert_eq!(pullgraph.inner().missing_dependency(TypeId::of::<i64>()), None);
    let d = pullgraph.want::<i64>().unwrap();
    assert_eq!(pullgraph.demand_count::<i64>(), 1);
    pullgraph.release(d);
}

#[test]
fn register_key_refuses_cycle_and_duplicate() {
    let mut pullgraph: Graph = PullGraph::new();
    let a = TypeId::of::<i32>();
    let b = TypeId::of::<i64>();
    assert!(pullgraph.register_key(a, vec![], source(|| 1i32)).is_ok());
    assert!(pullgraph.register_key(b, vec![a], source(|| 2i64)).is_ok());
    assert!(matches!(
        pullgraph.register_key(a, vec![b], source(|| 3i32)),
        Err(PullGraphError::DependencyCycle(_))
    ));
    assert!(matches!(
        pullgraph.register_key(a, vec![], source(|| 3i32)),
        Err(PullGraphError::AlreadyRegistered(_))
    ));
}

#[test]
fn register_provider_accepts_any_dependencies() {
    let mut pullgraph: Graph = PullGraph::new();
    let a = TypeId::of::<i32>();
    let b = TypeId::of::<i64>();
    assert!(pullgraph.inner_mut().register_provider(a, source(|| 1i32), vec![b]).is_ok());
    assert!(pullgraph.inner_mut().register_provider(b, source(|| 2i64), vec![a]).is_ok());
    assert_eq!(pullgraph.inner().get_dependencies(b), vec![a]);
    assert!(matches!(
        pullgraph.inner_mut().register_provider(a, source(|| 3i32), vec![]),
        Err(PullGraphError::AlreadyRegistered(_))
    ));
}
