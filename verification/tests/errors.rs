use pullgraph::PullGraphError;
use std::any::TypeId;

#[test]
fn display_already_registered() {
    let err = PullGraphError::AlreadyRegistered(TypeId::of::<i32>());
    let msg = err.message();
    assert!(msg.contains("already registered"));
}

#[test]
fn display_no_provider() {
    let err = PullGraphError::NoProvider(TypeId::of::<i32>());
    let msg = err.message();
    assert!(msg.contains("no provider"));
}

#[test]
fn display_dependency_cycle() {
    let err = PullGraphError::DependencyCycle(vec![
        TypeId::of::<i32>(),
        TypeId::of::<i64>(),
        TypeId::of::<f64>(),
    ]);
    let msg = err.message();
    assert!(msg.contains("3 types"));
}

#[test]
fn debug_is_derived() {
    let err = PullGraphError::NoProvider(TypeId::of::<i32>());
    let debug = format!("{:?}", err);
    assert!(debug.contains("NoProvider"));
}

#[test]
fn message_texts_in_full() {
    let id = TypeId::of::<i32>();
    let text = format!("{:?}", id);
    assert_eq!(
        PullGraphError::AlreadyRegistered(id).message(),
        format!("provider already registered for type {}", text)
    );
    assert_eq!(
        PullGraphError::NoProvider(id).message(),
        format!("no provider registered for type {}", text)
    );
    assert_eq!(
        PullGraphError::DependencyCycle(vec![id, id]).message(),
        "dependency cycle detected involving 2 types"
    );
    assert_eq!(
        PullGraphError::DependencyCycle(vec![id; 12]).message(),
        "dependency cycle detected involving 12 types"
    );
    assert_eq!(
        PullGraphError::DependencyCycle(Vec::new()).message(),
        "dependency cycle detected involving 0 types"
    );
}

#[test]
fn decimal_notation() {
    assert_eq!(pullgraph::error::decimal_string(0), "0");
    assert_eq!(pullgraph::error::decimal_string(7), "7");
    assert_eq!(pullgraph::error::decimal_string(10), "10");
    assert_eq!(pullgraph::error::decimal_string(907), "907");
    assert_eq!(pullgraph::error::decimal_string(usize::MAX), usize::MAX.to_string());
}
