use pullgraph::{Context, Provider, PullGraph};
use std::any::Any;
use std::cell::Cell;
use std::rc::Rc;

type Value = Box<dyn Any>;

/// A provider of any produced type, stored type-erased in the graph.
struct Node(Box<dyn Provider<Value>>);

impl Provider<Value> for Node {
    fn activate(&mut self) {
        self.0.activate()
    }

    fn produce(&mut self, ctx: &Context<Value>) -> Value {
        self.0.produce(ctx)
    }

    fn deactivate(&mut self) {
        self.0.deactivate()
    }
}

struct FromFn<F>(F);

impl<F: FnMut(&Context<Value>) -> Value> Provider<Value> for FromFn<F> {
    fn produce(&mut self, ctx: &Context<Value>) -> Value {
        (self.0)(ctx)
    }
}

type Graph = PullGraph<Node, Value>;

/// A provider from a closure without arguments.
#[allow(dead_code)]
fn source<T: 'static>(mut f: impl FnMut() -> T + 'static) -> Node {
    Node(Box::new(FromFn(move |_: &Context<Value>| -> Value { Box::new(f()) })))
}

/// A provider from a closure that reads the context.
#[allow(dead_code)]
fn derived<T: 'static>(mut f: impl FnMut(&Context<Value>) -> T + 'static) -> Node {
    Node(Box::new(FromFn(move |ctx: &Context<Value>| -> Value { Box::new(f(ctx)) })))
}

/// A provider given as a value implementing the trait.
#[allow(dead_code)]
fn boxed(p: impl Provider<Value> + 'static) -> Node {
    Node(Box::new(p))
}

/// The produced value read as a `T`.
#[allow(dead_code)]
fn typed<T: 'static>(v: Option<&Value>) -> Option<&T> {
    v.and_then(|b| b.downcast_ref::<T>())
}

/// Reads the value produced for `T` in `ctx`.
#[allow(dead_code)]
fn read<T: 'static>(ctx: &Context<Value>) -> Option<&T> {
    typed::<T>(ctx.get::<T>())
}

type Lifecycles = (Rc<Cell<bool>>, Rc<Cell<bool>>, Rc<Cell<u32>>);

struct Counter {
    activated: Rc<Cell<bool>>,
    deactivated: Rc<Cell<bool>>,
    produce_count: Rc<Cell<u32>>,
}

impl Counter {
    fn new() -> (Self, Lifecycles) {
        let activated = Rc::new(Cell::new(false));
        let deactivated = Rc::new(Cell::new(false));
        let produce_count = Rc::new(Cell::new(0));
        (
            Self {
                activated: activated.clone(),
                deactivated: deactivated.clone(),
                produce_count: produce_count.clone(),
            },
            (activated, deactivated, produce_count),
        )
    }
}

impl Provider<Value> for Counter {
    fn activate(&mut self) {
        self.activated.set(true);
    }

    fn produce(&mut self, _ctx: &Context<Value>) -> Value {
        self.produce_count.set(self.produce_count.get() + 1);
        Box::new(42i32)
    }

    fn deactivate(&mut self) {
        self.deactivated.set(true);
    }
}

#[test]
fn activate_called_on_first_demand() {
    let mut pullgraph: Graph = PullGraph::new();
    let (counter, (activated, _deactivated, _produce_count)) = Counter::new();
    let _h = pullgraph.provide::<i32>(boxed(counter)).unwrap();
    let _demand = pullgraph.want::<i32>().unwrap();
    assert!(activated.get());
}

#[test]
fn deactivate_called_on_last_drop() {
    let mut pullgraph: Graph = PullGraph::new();
    let (counter, (_activated, deactivated, _produce_count)) = Counter::new();
    let _h = pullgraph.provide::<i32>(boxed(counter)).unwrap();
    let d1 = pullgraph.want::<i32>().unwrap();
    let d2 = pullgraph.want::<i32>().unwrap();
    pullgraph.release(d1);
    assert!(!deactivated.get());
    pullgraph.release(d2);
    assert!(deactivated.get());
}

#[test]
fn produce_count_tracked() {
    let mut pullgraph: Graph = PullGraph::new();
    let (counter, (_activated, _deactivated, produce_count)) = Counter::new();
    let _h = pullgraph.provide::<i32>(boxed(counter)).unwrap();
    let _demand = pullgraph.want::<i32>().unwrap();

    let mut ctx = pullgraph.context();
    ctx.produce::<i32, _>(&mut pullgraph);
    assert_eq!(produce_count.get(), 1);
    ctx.produce::<i32, _>(&mut pullgraph);
    assert_eq!(produce_count.get(), 1);
}
