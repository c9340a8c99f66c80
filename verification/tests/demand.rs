use pullgraph::{Context, Demand, Provider, PullGraph};
use std::any::{Any, TypeId};

type Value = Box<dyn Any>;

/// A provider of any produced type, stored type-erased in the graph.
struct Node(Box<dyn Provider<Value>>);

impl Provider<Value> for Node {
    fn activate(&mut self) {
        self.0.activate()
    }

    fn produce(&mut self, ctx: &Context<Value>) -> Value {
        self.0.produce(ctx)
    }

    fn deactivate(&mut self) {
        self.0.deactivate()
    }
}

struct FromFn<F>(F);

impl<F: FnMut(&Context<Value>) -> Value> Provider<Value> for FromFn<F> {
    fn produce(&mut self, ctx: &Context<Value>) -> Value {
        (self.0)(ctx)
    }
}

type Graph = PullGraph<Node, Value>;

/// A provider from a closure without arguments.
#[allow(dead_code)]
fn source<T: 'static>(mut f: impl FnMut() -> T + 'static) -> Node {
    Node(Box::new(FromFn(move |_: &Context<Value>| -> Value { Box::new(f()) })))
}

/// A provider from a closure that reads the context.
#[allow(dead_code)]
fn derived<T: 'static>(mut f: impl FnMut(&Context<Value>) -> T + 'static) -> Node {
    Node(Box::new(FromFn(move |ctx: &Context<Value>| -> Value { Box::new(f(ctx)) })))
}

/// A provider given as a value implementing the trait.
#[allow(dead_code)]
fn boxed(p: impl Provider<Value> + 'static) -> Node {
    Node(Box::new(p))
}

/// The produced value read as a `T`.
#[allow(dead_code)]
fn typed<T: 'static>(v: Option<&Value>) -> Option<&T> {
    v.and_then(|b| b.downcast_ref::<T>())
}

/// Reads the value produced for `T` in `ctx`.
#[allow(dead_code)]
fn read<T: 'static>(ctx: &Context<Value>) -> Option<&T> {
    typed::<T>(ctx.get::<T>())
}

#[test]
fn demand_creates_for_registered_type() {
    let mut pullgraph: Graph = PullGraph::new();
    let _h = pullgraph.provide::<i32>(source(|| 42i32)).unwrap();
    let _demand: Demand<i32> = pullgraph.want().unwrap();
    assert!(pullgraph.is_demanded::<i32>());
}

#[test]
fn demand_increments_count() {
    let mut pullgraph: Graph = PullGraph::new();
    let _h = pullgraph.provide::<i32>(source(|| 42i32)).unwrap();
    let _d1: Demand<i32> = pullgraph.want().unwrap();
    assert_eq!(pullgraph.demand_count::<i32>(), 1);
    let _d2: Demand<i32> = pullgraph.want().unwrap();
    assert_eq!(pullgraph.demand_count::<i32>(), 2);
}

#[test]
fn demand_decrements_on_drop() {
    let mut pullgraph: Graph = PullGraph::new();
    let _h = pullgraph.provide::<i32>(source(|| 42i32)).unwrap();
    let d1: Demand<i32> = pullgraph.want().unwrap();
    let d2: Demand<i32> = pullgraph.want().unwrap();
    assert_eq!(pullgraph.demand_count::<i32>(), 2);
    pullgraph.release(d1);
    assert_eq!(pullgraph.demand_count::<i32>(), 1);
    pullgraph.release(d2);
    assert_eq!(pullgraph.demand_count::<i32>(), 0);
    assert!(!pullgraph.is_demanded::<i32>());
}

#[test]
fn demand_clone_creates_independent_reference() {
    let mut pullgraph: Graph = PullGraph::new();
    let _h = pullgraph.provide::<i32>(source(|| 42i32)).unwrap();
    let d1: Demand<i32> = pullgraph.want().unwrap();
    let d2 = pullgraph.clone_demand(&d1);
    assert_eq!(pullgraph.demand_count::<i32>(), 2);
    pullgraph.release(d1);
    assert_eq!(pullgraph.demand_count::<i32>(), 1);
    pullgraph.release(d2);
    assert_eq!(pullgraph.demand_count::<i32>(), 0);
}

#[test]
fn demand_type_id_matches() {
    let mut pullgraph: Graph = PullGraph::new();
    let _h = pullgraph.provide::<i32>(source(|| 42i32)).unwrap();
    let demand: Demand<i32> = pullgraph.want().unwrap();
    assert_eq!(demand.type_id(), TypeId::of::<i32>());
}

#[test]
fn want_error_for_unregistered_type() {
    let mut pullgraph: Graph = PullGraph::new();
    let result = pullgraph.want::<i32>();
    assert!(result.is_err());
}
