use pullgraph::provider::{DepHandle, ProviderHandle};
use pullgraph::{Context, Provider, PullGraph};
use std::any::{Any, TypeId};

type Value = Box<dyn Any>;

/// A provider of any produced type, stored type-erased in the graph.
struct Node(Box<dyn Provider<Value>>);

impl Provider<Value> for Node {
    fn activate(&mut self) {
        self.0.activate()
    }

    fn produce(&mut self, ctx: &Context<Value>) -> Value {
        self.0.produce(ctx)
    }

    fn deactivate(&mut self) {
        self.0.deactivate()
    }
}

struct FromFn<F>(F);

impl<F: FnMut(&Context<Value>) -> Value> Provider<Value> for FromFn<F> {
    fn produce(&mut self, ctx: &Context<Value>) -> Value {
        (self.0)(ctx)
    }
}

type Graph = PullGraph<Node, Value>;

/// A provider from a closure without arguments.
#[allow(dead_code)]
fn source<T: 'static>(mut f: impl FnMut() -> T + 'static) -> Node {
    Node(Box::new(FromFn(move |_: &Context<Value>| -> Value { Box::new(f()) })))
}

/// A provider from a closure that reads the context.
#[allow(dead_code)]
fn derived<T: 'static>(mut f: impl FnMut(&Context<Value>) -> T + 'static) -> Node {
    Node(Box::new(FromFn(move |ctx: &Context<Value>| -> Value { Box::new(f(ctx)) })))
}

/// A provider given as a value implementing the trait.
#[allow(dead_code)]
fn boxed(p: impl Provider<Value> + 'static) -> Node {
    Node(Box::new(p))
}

/// The produced value read as a `T`.
#[allow(dead_code)]
fn typed<T: 'static>(v: Option<&Value>) -> Option<&T> {
    v.and_then(|b| b.downcast_ref::<T>())
}

/// Reads the value produced for `T` in `ctx`.
#[allow(dead_code)]
fn read<T: 'static>(ctx: &Context<Value>) -> Option<&T> {
    typed::<T>(ctx.get::<T>())
}

#[test]
fn produce_returns_none_for_undemanded_type() {
    let mut pullgraph: Graph = PullGraph::new();
    let _h = pullgraph.provide::<i32>(source(|| 42i32)).unwrap();
    let mut ctx = pullgraph.context();
    let result = ctx.produce::<i32, _>(&mut pullgraph);
    assert!(result.is_none());
}

#[test]
fn produce_returns_false_when_provider_removed() {
    let mut pullgraph: Graph = PullGraph::new();
    let _h = pullgraph.provide::<i32>(source(|| 42i32)).unwrap();
    let _d = pullgraph.want::<i32>().unwrap();
    pullgraph.inner_mut().remove_provider(TypeId::of::<i32>());
    let mut ctx = pullgraph.context();
    let result = ctx.produce::<i32, _>(&mut pullgraph);
    assert!(result.is_none());
}

#[test]
fn get_returns_none_for_unproduced_type() {
    let pullgraph: Graph = PullGraph::new();
    let ctx = pullgraph.context();
    assert!(ctx.get::<i32>().is_none());
}

#[test]
fn produce_returns_true_for_cached_value() {
    let mut pullgraph: Graph = PullGraph::new();
    let _h = pullgraph.provide::<i32>(source(|| 42i32)).unwrap();
    let _d = pullgraph.want::<i32>().unwrap();
    let mut ctx = pullgraph.context();
    assert_eq!(typed::<i32>(ctx.produce::<i32, _>(&mut pullgraph)), Some(&42));
    assert_eq!(typed::<i32>(ctx.produce::<i32, _>(&mut pullgraph)), Some(&42));
}

#[test]
fn produce_dependency_chain() {
    let mut pullgraph: Graph = PullGraph::new();
    let src = pullgraph.provide::<i32>(source(|| 10i32)).unwrap();
    let deps: &[&dyn DepHandle] = &[&src];
    let _derived = pullgraph.derive::<i64>(
        deps,
        derived(|ctx: &Context<Value>| -> i64 { read::<i32>(ctx).map(|&v| v as i64 * 2).unwrap_or(0) }),
    );
    let _d = pullgraph.want::<i64>().unwrap();
    let mut ctx = pullgraph.context();
    let val = typed::<i64>(ctx.produce::<i64, _>(&mut pullgraph));
    assert_eq!(val, Some(&20));
}

#[test]
fn take_provider_returns_none_after_removal() {
    let mut pullgraph: Graph = PullGraph::new();
    let child_type = TypeId::of::<u64>();
    let _h = pullgraph.provide::<i32>(source(|| 42i32)).unwrap();
    let deps: &[&dyn DepHandle] = &[&ProviderHandle::<i32>::new()];
    let _child = pullgraph
        .provide_with_deps::<u64>(deps, derived(|_: &Context<Value>| 0u64))
        .unwrap();
    let _d = pullgraph.want::<u64>().unwrap();
    pullgraph.inner_mut().remove_provider(child_type);
    assert!(pullgraph.inner_mut().take_provider(child_type).is_none());
    let mut ctx = pullgraph.context();
    let result = ctx.produce::<u64, _>(&mut pullgraph);
    assert!(result.is_none());
}
