use pullgraph::provider::DepHandle;
use pullgraph::{Context, Provider, PullGraph};
use std::any::Any;
use std::cell::Cell;
use std::rc::Rc;

type Value = Box<dyn Any>;

/// A provider of any produced type, stored type-erased in the graph.
struct Node(Box<dyn Provider<Value>>);

impl Provider<Value> for Node {
    fn activate(&mut self) {
        self.0.activate()
    }

    fn produce(&mut self, ctx: &Context<Value>) -> Value {
        self.0.produce(ctx)
    }

    fn deactivate(&mut self) {
        self.0.deactivate()
    }
}

struct FromFn<F>(F);

impl<F: FnMut(&Context<Value>) -> Value> Provider<Value> for FromFn<F> {
    fn produce(&mut self, ctx: &Context<Value>) -> Value {
        (self.0)(ctx)
    }
}

type Graph = PullGraph<Node, Value>;

/// A provider from a closure without arguments.
#[allow(dead_code)]
fn source<T: 'static>(mut f: impl FnMut() -> T + 'static) -> Node {
    Node(Box::new(FromFn(move |_: &Context<Value>| -> Value { Box::new(f()) })))
}

/// A provider from a closure that reads the context.
#[allow(dead_code)]
fn derived<T: 'static>(mut f: impl FnMut(&Context<Value>) -> T + 'static) -> Node {
    Node(Box::new(FromFn(move |ctx: &Context<Value>| -> Value { Box::new(f(ctx)) })))
}

/// A provider given as a value implementing the trait.
#[allow(dead_code)]
fn boxed(p: impl Provider<Value> + 'static) -> Node {
    Node(Box::new(p))
}

/// The produced value read as a `T`.
#[allow(dead_code)]
fn typed<T: 'static>(v: Option<&Value>) -> Option<&T> {
    v.and_then(|b| b.downcast_ref::<T>())
}

/// Reads the value produced for `T` in `ctx`.
#[allow(dead_code)]
fn read<T: 'static>(ctx: &Context<Value>) -> Option<&T> {
    typed::<T>(ctx.get::<T>())
}

struct StepCounter(Rc<Cell<u32>>);

impl Provider<Value> for StepCounter {
    fn produce(&mut self, _ctx: &Context<Value>) -> Value {
        self.0.set(self.0.get() + 1);
        Box::new(self.0.get() as i32)
    }
}

#[test]
fn context_idempotency() {
    let mut pullgraph: Graph = PullGraph::new();
    let call_count = Rc::new(Cell::new(0));
    let counter = StepCounter(call_count.clone());
    let _h = pullgraph.provide::<i32>(boxed(counter)).unwrap();
    let _demand = pullgraph.want::<i32>().unwrap();

    let mut ctx = pullgraph.context();
    let val1 = typed::<i32>(ctx.produce::<i32, _>(&mut pullgraph)).copied();
    assert_eq!(val1, Some(1));
    assert_eq!(call_count.get(), 1);

    let val2 = typed::<i32>(ctx.produce::<i32, _>(&mut pullgraph)).copied();
    assert_eq!(val2, Some(1));
    assert_eq!(call_count.get(), 1);
}

#[test]
fn new_context_allows_reproduction() {
    let mut pullgraph: Graph = PullGraph::new();
    let call_count = Rc::new(Cell::new(0));
    let counter = StepCounter(call_count.clone());
    let _h = pullgraph.provide::<i32>(boxed(counter)).unwrap();
    let _demand = pullgraph.want::<i32>().unwrap();

    let mut ctx1 = pullgraph.context();
    ctx1.produce::<i32, _>(&mut pullgraph);
    assert_eq!(call_count.get(), 1);

    let mut ctx2 = pullgraph.context();
    let val = typed::<i32>(ctx2.produce::<i32, _>(&mut pullgraph)).copied();
    assert_eq!(val, Some(2));
    assert_eq!(call_count.get(), 2);
}

#[test]
fn produce_none_when_undemanded() {
    let mut pullgraph: Graph = PullGraph::new();
    let _h = pullgraph.provide::<i32>(source(|| 42i32)).unwrap();

    let mut ctx = pullgraph.context();
    let val = ctx.produce::<i32, _>(&mut pullgraph);
    assert!(val.is_none());
}

#[test]
fn get_without_produce() {
    let mut pullgraph: Graph = PullGraph::new();
    let _h = pullgraph.provide::<i32>(source(|| 42i32)).unwrap();
    let _demand = pullgraph.want::<i32>().unwrap();

    let mut ctx = pullgraph.context();
    ctx.produce::<i32, _>(&mut pullgraph);
    let val = read::<i32>(&ctx);
    assert_eq!(val, Some(&42));
}

#[test]
fn dependency_production_in_context() {
    let mut pullgraph: Graph = PullGraph::new();
    let source_handle = pullgraph.provide::<i32>(source(|| 10i32)).unwrap();
    let deps: &[&dyn DepHandle] = &[&source_handle];
    let _derived = pullgraph
        .derive::<i64>(
            deps,
            derived(|ctx: &Context<Value>| -> i64 {
                read::<i32>(ctx).map(|&v| v as i64 * 3).unwrap_or(0)
            }),
        )
        .unwrap();

    let _demand = pullgraph.want::<i64>().unwrap();

    let mut ctx = pullgraph.context();
    let val = typed::<i64>(ctx.produce::<i64, _>(&mut pullgraph));
    assert_eq!(val, Some(&30));
}
