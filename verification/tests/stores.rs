use reactive_store::stores::{Binding, Outcome, Store, StoreGraph};
use reactive_store::upstream::Upstream;
use reactive_store::{StoreError, Value};
use std::cell::RefCell;
use std::rc::Rc;

type Init = Box<dyn Fn(&Upstream) -> Result<Value, StoreError>>;
type Callback = Box<dyn Fn(&Value)>;

fn doubling(name: &'static str) -> Init {
    Box::new(move |up: &Upstream| Ok(Value::Int(up.get(name)?.as_int()? * 2)))
}

#[test]
fn main() {
    // one store alone
    let mut store1: Store<Init, Callback> = Store::new(Value::Int(32), None);
    assert_eq!(*store1.get(), Value::Int(32));
    store1.update(Value::Int(64));
    assert_eq!(*store1.get(), Value::Int(64));

    // the same store in a graph, with a store that reads it
    let mut graph: StoreGraph<Init, Callback> = StoreGraph::new();
    let store1 = graph.add_store(Value::Int(32), None);

    let value = graph.get(store1);
    println!("store1 value 1: {:?}", value);
    assert_eq!(*value, Value::Int(32));

    graph.update(store1, Value::Int(64));
    let value = graph.get(store1);
    println!("store1 value 2: {:?}", value);
    assert_eq!(*value, Value::Int(64));

    let stores = vec![Binding { name: "store1".to_string(), source: store1 }];
    let (store2, _) = graph.add_derived(Value::Int(0), doubling("store1"), &stores).unwrap();
    let value2 = graph.get(store2);
    println!("store2 value: {:?}", value2);
    assert_eq!(*value2, Value::Int(128));

    graph.update(store1, Value::Int(10));
    println!(
        "store1 value 3: {:?}; store2 value 2: {:?}",
        graph.get(store1),
        graph.get(store2)
    );
    assert_eq!(*graph.get(store1), Value::Int(10));
    assert_eq!(*graph.get(store2), Value::Int(20));
}

#[test]
fn subscriber_is_told_once_per_pulse() {
    let mut graph: StoreGraph<Init, Callback> = StoreGraph::new();
    let seen: Rc<RefCell<Vec<Value>>> = Rc::new(RefCell::new(Vec::new()));
    let source = graph.add_store(Value::Int(1), None);
    let sink = Rc::clone(&seen);
    graph.subscribe(source, Box::new(move |v: &Value| sink.borrow_mut().push(v.clone())));
    let report = graph.update(source, Value::Int(2));
    assert_eq!(*seen.borrow(), vec![Value::Int(2)]);
    assert_eq!(report.notifications, vec![(source, 0)]);
    assert_eq!(report.outcomes, vec![Outcome::Finalized]);
}

fn reading(names: &'static [&'static str]) -> Init {
    // the sum of the named upstream integers
    Box::new(move |up: &Upstream| {
        let mut total: i64 = 0;
        for name in names {
            total += up.get(name)?.as_int()?;
        }
        Ok(Value::Int(total))
    })
}

fn counting(log: &Rc<RefCell<Vec<(&'static str, Value)>>>, tag: &'static str) -> Callback {
    let log = Rc::clone(log);
    Box::new(move |v: &Value| log.borrow_mut().push((tag, v.clone())))
}

#[test]
fn counter_and_doubled_scenario() {
    let mut graph: StoreGraph<Init, Callback> = StoreGraph::new();
    let counter = graph.add_store(Value::Int(32), None);
    assert_eq!(*graph.get(counter), Value::Int(32));
    let report = graph.update(counter, Value::Int(64));
    assert_eq!(*graph.get(counter), Value::Int(64));
    assert_eq!(report.sequence, vec![counter]);

    let doubled = graph.add_store(Value::Int(0), Some(doubling("counter")));
    assert_eq!(graph.bind_upstream(doubled, "counter".to_string(), counter), Ok(()));
    // a binding recomputes nothing
    assert_eq!(*graph.get(doubled), Value::Int(0));
    let report = graph.recompute(doubled);
    assert_eq!(report.outcomes, vec![Outcome::Untouched, Outcome::Finalized]);
    assert_eq!(*graph.get(doubled), Value::Int(128));

    let report = graph.update(counter, Value::Int(10));
    assert_eq!(report.outcomes, vec![Outcome::Finalized, Outcome::Finalized]);
    assert_eq!(report.sequence, vec![counter, doubled]);
    assert_eq!(*graph.get(doubled), Value::Int(20));
}

#[test]
fn last_write_wins() {
    let mut graph: StoreGraph<Init, Callback> = StoreGraph::new();
    let s = graph.add_store(Value::Text("a".to_string()), None);
    graph.update(s, Value::Int(1));
    assert_eq!(*graph.get(s), Value::Int(1));
    graph.update(s, Value::Bool(true));
    assert_eq!(*graph.get(s), Value::Bool(true));
    graph.update(s, Value::Bool(true));
    assert_eq!(*graph.get(s), Value::Bool(true));
}

#[test]
fn mutual_binding_is_refused_as_cyclic() {
    let mut graph: StoreGraph<Init, Callback> = StoreGraph::new();
    let store_a = graph.add_store(Value::Int(0), Some(doubling("store_b")));
    let store_b = graph.add_store(Value::Int(0), Some(doubling("store_a")));
    assert_eq!(graph.bind_upstream(store_a, "store_b".to_string(), store_b), Ok(()));
    assert_eq!(
        graph.bind_upstream(store_b, "store_a".to_string(), store_a),
        Err(StoreError::CyclicDependency)
    );
    // the refused edge is held at neither of its ends
    assert!(graph.upstream_of(store_b).is_empty());
    assert!(graph.downstream_of(store_a).is_empty());
    // the graph is as it was
    assert_eq!(graph.upstream_of(store_a).len(), 1);
    assert_eq!(graph.upstream_of(store_a)[0].name, "store_b");
    assert_eq!(graph.upstream_of(store_a)[0].source, store_b);
    assert_eq!(*graph.downstream_of(store_b), vec![store_a]);
    // refused again, in the same way
    assert_eq!(
        graph.bind_upstream(store_b, "store_a".to_string(), store_a),
        Err(StoreError::CyclicDependency)
    );
    assert!(graph.upstream_of(store_b).is_empty());
}

#[test]
fn binding_a_store_to_itself_is_cyclic() {
    let mut graph: StoreGraph<Init, Callback> = StoreGraph::new();
    let a = graph.add_store(Value::Int(0), Some(doubling("a")));
    assert_eq!(graph.bind_upstream(a, "a".to_string(), a), Err(StoreError::CyclicDependency));
    assert!(graph.upstream_of(a).is_empty());
    assert!(graph.downstream_of(a).is_empty());
}

#[test]
fn long_cycle_is_refused() {
    let mut graph: StoreGraph<Init, Callback> = StoreGraph::new();
    let a = graph.add_store(Value::Int(0), Some(doubling("x")));
    let b = graph.add_store(Value::Int(0), Some(doubling("x")));
    let c = graph.add_store(Value::Int(0), Some(doubling("x")));
    let d = graph.add_store(Value::Int(0), Some(doubling("x")));
    assert_eq!(graph.bind_upstream(b, "x".to_string(), a), Ok(()));
    assert_eq!(graph.bind_upstream(c, "x".to_string(), b), Ok(()));
    assert_eq!(graph.bind_upstream(d, "x".to_string(), c), Ok(()));
    assert_eq!(graph.bind_upstream(a, "x".to_string(), d), Err(StoreError::CyclicDependency));
    assert_eq!(graph.bind_upstream(a, "x".to_string(), c), Err(StoreError::CyclicDependency));
    // an edge along the chain closes no cycle
    assert_eq!(graph.bind_upstream(d, "y".to_string(), a), Ok(()));
    assert_eq!(graph.affected(a), vec![true, true, true, true]);
    assert_eq!(graph.affected(c), vec![false, false, true, true]);
}

#[test]
fn unknown_upstream_is_refused() {
    let mut graph: StoreGraph<Init, Callback> = StoreGraph::new();
    let a = graph.add_store(Value::Int(0), Some(doubling("x")));
    assert_eq!(graph.bind_upstream(a, "x".to_string(), 7), Err(StoreError::UnknownUpstream));
    assert_eq!(graph.bind_upstream(a, "x".to_string(), 1), Err(StoreError::UnknownUpstream));
    assert!(graph.upstream_of(a).is_empty());
    assert_eq!(graph.len(), 1);
    assert!(graph.contains(a));
    assert!(!graph.contains(1));
}

#[test]
fn diamond_recomputes_the_join_once_with_settled_values() {
    let log = Rc::new(RefCell::new(Vec::new()));
    let mut graph: StoreGraph<Init, Callback> = StoreGraph::new();
    // the join is created first, so that the order of creation is not the
    // order of the pulse
    let c = graph.add_store(Value::Int(0), Some(reading(&["a", "b"])));
    let a = graph.add_store(Value::Int(0), Some(doubling("u")));
    let b = graph.add_store(Value::Int(0), Some(reading(&["u", "u"])));
    let u = graph.add_store(Value::Int(1), None);
    assert_eq!(graph.bind_upstream(c, "a".to_string(), a), Ok(()));
    assert_eq!(graph.bind_upstream(c, "b".to_string(), b), Ok(()));
    assert_eq!(graph.bind_upstream(a, "u".to_string(), u), Ok(()));
    assert_eq!(graph.bind_upstream(b, "u".to_string(), u), Ok(()));
    graph.subscribe(c, counting(&log, "c"));
    graph.subscribe(u, counting(&log, "u"));
    graph.subscribe(a, counting(&log, "a"));

    let report = graph.update(u, Value::Int(5));
    assert_eq!(*graph.get(a), Value::Int(10));
    assert_eq!(*graph.get(b), Value::Int(10));
    assert_eq!(*graph.get(c), Value::Int(20));
    // each store once, the source first and the join last
    assert_eq!(report.sequence.len(), 4);
    assert_eq!(report.sequence[0], u);
    assert_eq!(report.sequence[3], c);
    assert!(report.sequence.contains(&a) && report.sequence.contains(&b));
    assert_eq!(report.outcomes, vec![Outcome::Finalized; 4]);
    // each subscriber once, with the settled value
    let seen = log.borrow().clone();
    assert_eq!(seen.len(), 3);
    assert_eq!(seen[0], ("u", Value::Int(5)));
    assert!(seen.contains(&("a", Value::Int(10))));
    assert_eq!(seen[2], ("c", Value::Int(20)));
    assert_eq!(report.notifications.len(), 3);
    assert_eq!(report.notifications.iter().filter(|n| **n == (c, 0)).count(), 1);

    let report = graph.update(u, Value::Int(-3));
    assert_eq!(*graph.get(c), Value::Int(-12));
    assert_eq!(report.notifications.iter().filter(|n| **n == (c, 0)).count(), 1);
    assert_eq!(log.borrow().len(), 6);
}

#[test]
fn failure_stops_only_its_own_subtree() {
    let log = Rc::new(RefCell::new(Vec::new()));
    let mut graph: StoreGraph<Init, Callback> = StoreGraph::new();
    let u = graph.add_store(Value::Int(1), None);
    // reads a name that no binding provides
    let a = graph.add_store(Value::Int(100), Some(doubling("missing")));
    let b = graph.add_store(Value::Int(200), Some(doubling("u")));
    let below_a = graph.add_store(Value::Int(300), Some(doubling("a")));
    let join = graph.add_store(Value::Int(400), Some(reading(&["below_a", "b"])));
    let aside = graph.add_store(Value::Int(500), None);
    assert_eq!(graph.bind_upstream(a, "u".to_string(), u), Ok(()));
    assert_eq!(graph.bind_upstream(b, "u".to_string(), u), Ok(()));
    assert_eq!(graph.bind_upstream(below_a, "a".to_string(), a), Ok(()));
    assert_eq!(graph.bind_upstream(join, "below_a".to_string(), below_a), Ok(()));
    assert_eq!(graph.bind_upstream(join, "b".to_string(), b), Ok(()));
    for (store, tag) in [(u, "u"), (a, "a"), (b, "b"), (below_a, "below_a"), (join, "join")] {
        graph.subscribe(store, counting(&log, tag));
    }

    let report = graph.update(u, Value::Int(7));
    assert_eq!(
        report.outcomes,
        vec![
            Outcome::Finalized,
            Outcome::Failed(StoreError::UnboundInitializerReference),
            Outcome::Finalized,
            Outcome::Skipped,
            Outcome::Skipped,
            Outcome::Untouched,
        ]
    );
    assert_eq!(*graph.get(u), Value::Int(7));
    assert_eq!(*graph.get(a), Value::Int(100));
    assert_eq!(*graph.get(b), Value::Int(14));
    assert_eq!(*graph.get(below_a), Value::Int(300));
    assert_eq!(*graph.get(join), Value::Int(400));
    assert_eq!(*graph.get(aside), Value::Int(500));
    assert_eq!(*log.borrow(), vec![("u", Value::Int(7)), ("b", Value::Int(14))]);
    assert_eq!(report.notifications, vec![(u, 0), (b, 0)]);
}

#[test]
fn type_mismatch_is_returned_to_the_reader() {
    assert_eq!(Value::Int(3).as_int(), Ok(3));
    assert_eq!(Value::Int(3).as_bool(), Err(StoreError::TypeMismatch));
    assert_eq!(Value::Int(3).as_text(), Err(StoreError::TypeMismatch));
    assert_eq!(Value::Bool(true).as_bool(), Ok(true));
    assert_eq!(Value::Bool(true).as_int(), Err(StoreError::TypeMismatch));
    assert_eq!(Value::Text("x".to_string()).as_text(), Ok(&"x".to_string()));
    assert_eq!(Value::Text("x".to_string()).as_int(), Err(StoreError::TypeMismatch));
    assert_eq!(Value::Text("x".to_string()).clone(), Value::Text("x".to_string()));

    let mut graph: StoreGraph<Init, Callback> = StoreGraph::new();
    let text = graph.add_store(Value::Text("seven".to_string()), None);
    let doubled = graph.add_store(Value::Int(1), Some(doubling("text")));
    assert_eq!(graph.bind_upstream(doubled, "text".to_string(), text), Ok(()));
    let report = graph.recompute(doubled);
    assert_eq!(report.outcomes[doubled], Outcome::Failed(StoreError::TypeMismatch));
    assert_eq!(*graph.get(doubled), Value::Int(1));
    let report = graph.update(text, Value::Int(7));
    assert_eq!(report.outcomes[doubled], Outcome::Finalized);
    assert_eq!(*graph.get(doubled), Value::Int(14));
}

#[test]
fn subscribers_are_told_in_registration_order() {
    let log = Rc::new(RefCell::new(Vec::new()));
    let mut graph: StoreGraph<Init, Callback> = StoreGraph::new();
    let s = graph.add_store(Value::Int(0), None);
    graph.subscribe(s, counting(&log, "first"));
    graph.subscribe(s, counting(&log, "second"));
    graph.subscribe(s, counting(&log, "third"));
    let report = graph.update(s, Value::Int(9));
    assert_eq!(
        *log.borrow(),
        vec![("first", Value::Int(9)), ("second", Value::Int(9)), ("third", Value::Int(9))]
    );
    assert_eq!(report.notifications, vec![(s, 0), (s, 1), (s, 2)]);
}

#[test]
fn recompute_of_a_failing_store_skips_its_readers() {
    let mut graph: StoreGraph<Init, Callback> = StoreGraph::new();
    let a = graph.add_store(Value::Int(1), Some(doubling("nothing")));
    let b = graph.add_store(Value::Int(2), Some(doubling("a")));
    assert_eq!(graph.bind_upstream(b, "a".to_string(), a), Ok(()));
    assert!(!graph.is_source(a));
    let report = graph.recompute(a);
    assert_eq!(
        report.outcomes,
        vec![Outcome::Failed(StoreError::UnboundInitializerReference), Outcome::Skipped]
    );
    assert_eq!(report.sequence, vec![a, b]);
    assert!(report.notifications.is_empty());
    assert_eq!(*graph.get(a), Value::Int(1));
    assert_eq!(*graph.get(b), Value::Int(2));
}

#[test]
fn binding_the_same_upstream_twice_lists_the_reader_once() {
    let mut graph: StoreGraph<Init, Callback> = StoreGraph::new();
    let u = graph.add_store(Value::Int(4), None);
    let d = graph.add_store(Value::Int(0), Some(reading(&["x", "y"])));
    assert_eq!(graph.bind_upstream(d, "x".to_string(), u), Ok(()));
    assert_eq!(graph.bind_upstream(d, "y".to_string(), u), Ok(()));
    assert_eq!(graph.upstream_of(d).len(), 2);
    assert_eq!(*graph.downstream_of(u), vec![d]);
    let report = graph.update(u, Value::Int(21));
    assert_eq!(report.sequence, vec![u, d]);
    assert_eq!(*graph.get(d), Value::Int(42));
}

#[test]
fn upstream_reads_the_last_entry_of_a_name() {
    let mut up = Upstream::new();
    assert_eq!(up.len(), 0);
    assert_eq!(up.get("a"), Err(StoreError::UnboundInitializerReference));
    up.push("a".to_string(), Value::Int(1));
    up.push("b".to_string(), Value::Bool(false));
    up.push("a".to_string(), Value::Int(3));
    assert_eq!(up.len(), 3);
    assert_eq!(up.get("a"), Ok(&Value::Int(3)));
    assert_eq!(up.get("b"), Ok(&Value::Bool(false)));
    assert_eq!(up.get("c"), Err(StoreError::UnboundInitializerReference));
    assert_eq!(up.get(""), Err(StoreError::UnboundInitializerReference));
}

#[test]
fn error_messages() {
    assert_eq!(StoreError::UnknownUpstream.message(), "unknown upstream store");
    assert_eq!(StoreError::CyclicDependency.message(), "cyclic dependency");
    assert_eq!(StoreError::TypeMismatch.message(), "type mismatch");
    assert_eq!(
        StoreError::UnboundInitializerReference.message(),
        "unbound initializer reference"
    );
}

#[test]
fn a_derived_store_is_computed_when_it_is_added() {
    let mut graph: StoreGraph<Init, Callback> = StoreGraph::new();
    let counter = graph.add_store(Value::Int(64), None);
    let bindings = vec![Binding { name: "counter".to_string(), source: counter }];
    let (doubled, report) =
        graph.add_derived(Value::Int(0), doubling("counter"), &bindings).unwrap();
    assert_eq!(doubled, 1);
    assert_eq!(*graph.get(doubled), Value::Int(128));
    assert_eq!(report.outcomes, vec![Outcome::Untouched, Outcome::Finalized]);
    assert_eq!(report.sequence, vec![doubled]);
    assert!(report.notifications.is_empty());
    assert_eq!(graph.upstream_of(doubled).len(), 1);
    assert_eq!(*graph.downstream_of(counter), vec![doubled]);
    graph.update(counter, Value::Int(10));
    assert_eq!(*graph.get(doubled), Value::Int(20));
}

#[test]
fn a_derived_store_with_an_unknown_upstream_is_not_added() {
    let mut graph: StoreGraph<Init, Callback> = StoreGraph::new();
    let counter = graph.add_store(Value::Int(64), None);
    let bindings = vec![
        Binding { name: "counter".to_string(), source: counter },
        Binding { name: "other".to_string(), source: 5 },
    ];
    let refused = graph.add_derived(Value::Int(0), doubling("counter"), &bindings);
    assert!(matches!(refused, Err(StoreError::UnknownUpstream)));
    assert_eq!(graph.len(), 1);
    assert!(graph.downstream_of(counter).is_empty());
    // a store cannot read itself either: it does not exist yet
    let bindings = vec![Binding { name: "me".to_string(), source: 1 }];
    let refused = graph.add_derived(Value::Int(0), doubling("me"), &bindings);
    assert!(matches!(refused, Err(StoreError::UnknownUpstream)));
    assert_eq!(graph.len(), 1);
}

#[test]
fn a_derived_store_whose_initializer_fails_keeps_its_first_value() {
    let mut graph: StoreGraph<Init, Callback> = StoreGraph::new();
    let (lonely, report) = graph.add_derived(Value::Int(3), doubling("nobody"), &Vec::new()).unwrap();
    assert_eq!(*graph.get(lonely), Value::Int(3));
    assert_eq!(
        report.outcomes,
        vec![Outcome::Failed(StoreError::UnboundInitializerReference)]
    );
    assert!(!graph.is_source(lonely));
}
