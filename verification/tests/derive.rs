use pullgraph::provider::DepHandle;
use pullgraph::{Context, Provider, PullGraph};
use std::any::Any;

type Value = Box<dyn Any>;

/// A provider of any produced type, stored type-erased in the graph.
struct Node(Box<dyn Provider<Value>>);

impl Provider<Value> for Node {
    fn activate(&mut self) {
        self.0.activate()
    }

    fn produce(&mut self, ctx: &Context<Value>) -> Value {
        self.0.produce(ctx)
    }

    fn deactivate(&mut self) {
        self.0.deactivate()
    }
}

struct FromFn<F>(F);

impl<F: FnMut(&Context<Value>) -> Value> Provider<Value> for FromFn<F> {
    fn produce(&mut self, ctx: &Context<Value>) -> Value {
        (self.0)(ctx)
    }
}

type Graph = PullGraph<Node, Value>;

/// A provider from a closure without arguments.
#[allow(dead_code)]
fn source<T: 'static>(mut f: impl FnMut() -> T + 'static) -> Node {
    Node(Box::new(FromFn(move |_: &Context<Value>| -> Value { Box::new(f()) })))
}

/// A provider from a closure that reads the context.
#[allow(dead_code)]
fn derived<T: 'static>(mut f: impl FnMut(&Context<Value>) -> T + 'static) -> Node {
    Node(Box::new(FromFn(move |ctx: &Context<Value>| -> Value { Box::new(f(ctx)) })))
}

/// A provider given as a value implementing the trait.
#[allow(dead_code)]
fn boxed(p: impl Provider<Value> + 'static) -> Node {
    Node(Box::new(p))
}

/// The produced value read as a `T`.
#[allow(dead_code)]
fn typed<T: 'static>(v: Option<&Value>) -> Option<&T> {
    v.and_then(|b| b.downcast_ref::<T>())
}

/// Reads the value produced for `T` in `ctx`.
#[allow(dead_code)]
fn read<T: 'static>(ctx: &Context<Value>) -> Option<&T> {
    typed::<T>(ctx.get::<T>())
}

struct Source(i32);
struct Middle(i64);
struct Other(i64);
struct Derived(String);

#[test]
fn derive_chain_produces_correctly() {
    let mut pullgraph: Graph = PullGraph::new();
    let source_handle = pullgraph.provide::<Source>(source(|| Source(42))).unwrap();
    let deps: &[&dyn DepHandle] = &[&source_handle];
    let middle = pullgraph
        .derive::<Middle>(
            deps,
            derived(|ctx: &Context<Value>| {
                let s = read::<Source>(ctx).unwrap();
                Middle(s.0 as i64 * 2)
            }),
        )
        .unwrap();
    let deps2: &[&dyn DepHandle] = &[&middle];
    let _derived = pullgraph
        .derive::<Derived>(
            deps2,
            derived(|ctx: &Context<Value>| {
                let m = read::<Middle>(ctx).unwrap();
                Derived(format!("value: {}", m.0))
            }),
        )
        .unwrap();

    let _demand = pullgraph.want::<Derived>().unwrap();

    let mut ctx = pullgraph.context();
    let val = typed::<Derived>(ctx.produce::<Derived, _>(&mut pullgraph));
    assert!(val.is_some());
    assert_eq!(val.unwrap().0, "value: 84");
}

#[test]
fn derive_only_produces_demanded() {
    let mut pullgraph: Graph = PullGraph::new();
    let source_handle = pullgraph.provide::<Source>(source(|| Source(42))).unwrap();
    let deps: &[&dyn DepHandle] = &[&source_handle];
    let _middle = pullgraph
        .derive::<Middle>(
            deps,
            derived(|ctx: &Context<Value>| {
                let s = read::<Source>(ctx).unwrap();
                Middle(s.0 as i64 * 2)
            }),
        )
        .unwrap();

    let mut ctx = pullgraph.context();
    let val = ctx.produce::<Source, _>(&mut pullgraph);
    assert!(val.is_none());
}

#[test]
fn diamond_dependency() {
    let mut pullgraph: Graph = PullGraph::new();
    let a = pullgraph.provide::<Source>(source(|| Source(1))).unwrap();
    let deps_a: &[&dyn DepHandle] = &[&a];
    let b = pullgraph
        .derive::<Middle>(
            deps_a,
            derived(|ctx: &Context<Value>| {
                let s = read::<Source>(ctx).unwrap();
                Middle(s.0 as i64 + 10)
            }),
        )
        .unwrap();
    let deps_a2: &[&dyn DepHandle] = &[&a];
    let c = pullgraph
        .derive::<Other>(
            deps_a2,
            derived(|ctx: &Context<Value>| {
                let s = read::<Source>(ctx).unwrap();
                Other(s.0 as i64 + 20)
            }),
        )
        .unwrap();

    #[allow(dead_code)]
    struct Diamond(i64, i64);
    let deps_bc: &[&dyn DepHandle] = &[&b, &c];
    let _d = pullgraph
        .derive::<Diamond>(
            deps_bc,
            derived(|ctx: &Context<Value>| {
                let b = read::<Middle>(ctx).unwrap();
                let c = read::<Other>(ctx).unwrap();
                Diamond(b.0, c.0)
            }),
        )
        .unwrap();

    let demand = pullgraph.want::<Diamond>().unwrap();

    assert!(pullgraph.is_demanded::<Source>());
    assert!(pullgraph.is_demanded::<Middle>());
    assert!(pullgraph.is_demanded::<Other>());
    assert!(pullgraph.is_demanded::<Diamond>());

    let mut ctx = pullgraph.context();
    let val = typed::<Diamond>(ctx.produce::<Diamond, _>(&mut pullgraph));
    assert!(val.is_some());

    pullgraph.release(demand);
    assert!(!pullgraph.is_demanded::<Diamond>());
}
