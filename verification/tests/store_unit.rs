use reactive_store::stores::{Store, StoreFunctionality};
use reactive_store::upstream::Upstream;
use reactive_store::{StoreError, Value};
use std::cell::RefCell;
use std::rc::Rc;

type Init = Box<dyn Fn(&Upstream) -> Result<Value, StoreError>>;
type Callback = Box<dyn Fn(&Value)>;

#[test]
fn a_store_alone_holds_what_was_written() {
    let mut store: Store<Init, Callback> = Store::new(Value::Int(32), None);
    assert_eq!(*Store::get(&store), Value::Int(32));
    assert_eq!(store.update(Value::Int(64)), 0);
    assert_eq!(*Store::get(&store), Value::Int(64));
}

#[test]
fn a_store_alone_tells_its_subscribers() {
    let seen = Rc::new(RefCell::new(Vec::new()));
    let mut store: Store<Init, Callback> = Store::new(Value::Int(0), None);
    for tag in ["one", "two"] {
        let sink = Rc::clone(&seen);
        store.subscribe(Box::new(move |v: &Value| sink.borrow_mut().push((tag, v.clone()))));
    }
    assert_eq!(store.update(Value::Bool(true)), 2);
    assert_eq!(*seen.borrow(), vec![("one", Value::Bool(true)), ("two", Value::Bool(true))]);
    assert_eq!(store.report_downstream(), 2);
    assert_eq!(seen.borrow().len(), 4);
}

#[test]
fn a_store_recomputes_from_the_values_it_is_given() {
    let seen = Rc::new(RefCell::new(Vec::new()));
    let init: Init = Box::new(|up: &Upstream| Ok(Value::Int(up.get("store1")?.as_int()? * 2)));
    let mut store2: Store<Init, Callback> = Store::new(Value::Int(0), Some(init));
    let sink = Rc::clone(&seen);
    store2.subscribe(Box::new(move |v: &Value| sink.borrow_mut().push(v.clone())));

    // a failed recomputation keeps the value and tells nobody
    let mut up = Upstream::new();
    assert_eq!(
        store2.initialize_from_upstream_origins(&up),
        Err(StoreError::UnboundInitializerReference)
    );
    assert_eq!(*StoreFunctionality::get(&store2), Value::Int(0));
    assert!(seen.borrow().is_empty());

    // a recomputation that succeeds stores the value and tells the subscribers
    up.push("store1".to_string(), Value::Int(64));
    assert_eq!(store2.initialize_from_upstream_origins(&up), Ok(()));
    assert_eq!(*StoreFunctionality::get(&store2), Value::Int(128));
    assert_eq!(*seen.borrow(), vec![Value::Int(128)]);
}

#[test]
fn a_store_lists_each_reader_once() {
    let mut store: Store<Init, Callback> = Store::new(Value::Int(0), None);
    assert!(store.get_upstream().is_empty());
    store.add_downstream(3);
    store.add_downstream(1);
    store.add_downstream(3);
    assert_eq!(store.update(Value::Int(1)), 0);
}
