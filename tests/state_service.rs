use state_service::{StateService, StateServiceSubscription, Subscriber, Subscription};
use std::cell::RefCell;
use std::rc::Rc;

#[derive(Debug, Clone, PartialEq, PartialOrd)]
struct ToDoItem {
    text: String,
    finished: bool,
}

#[derive(Debug, Clone, PartialEq, PartialOrd)]
struct ToDoListState {
    list: Vec<ToDoItem>,
}

impl ToDoListState {
    fn add_item(&mut self, text: &str) {
        self.list.push(ToDoItem { text: text.to_owned(), finished: false })
    }
}

type Callback<S> = Box<dyn Fn(&S)>;
type Log<S> = Rc<RefCell<Vec<(&'static str, S)>>>;

fn new_log<S>() -> Log<S> {
    Rc::new(RefCell::new(Vec::new()))
}

/// A callback that writes `(name, state)` into the shared log.
fn recorder<S: Clone + 'static>(name: &'static str, log: &Log<S>) -> Callback<S> {
    let log = log.clone();
    Box::new(move |s: &S| log.borrow_mut().push((name, s.clone())))
}

fn entries<S: Clone>(log: &Log<S>) -> Vec<(&'static str, S)> {
    log.borrow().clone()
}

fn demo_state() -> ToDoListState {
    ToDoListState { list: vec![ToDoItem { text: "Fun demo".to_owned(), finished: false }] }
}

#[test]
fn create_init_state() {
    let init_state = ToDoListState { list: Vec::new() };
    let service: StateService<ToDoListState, Callback<ToDoListState>> =
        StateService::new(init_state.clone());
    assert_eq!(service.get_latest_state(), init_state);
}

#[test]
fn subscribe_should_work() {
    let init_state = ToDoListState { list: Vec::new() };
    let log = new_log();
    let mut service = StateService::new(init_state.clone());
    StateService::subscribe(&mut service, recorder("a", &log));
    assert_eq!(entries(&log), vec![("a", init_state.clone())]);

    let mut latest_state = service.get_latest_state();
    latest_state.add_item("Learn Polkadot");
    latest_state.add_item("Learn Bitcoin");
    service.emit(latest_state.clone());

    latest_state.add_item("Write a demo");
    service.emit(latest_state.clone());

    assert_eq!(service.get_latest_state(), latest_state);
    assert_eq!(service.get_latest_state().list.len(), 3);
    assert_eq!(entries(&log).len(), 3);
    assert_eq!(entries(&log)[2], ("a", latest_state));
}

#[test]
fn to_do_list_end_to_end() {
    let log = new_log();
    let mut service = StateService::new(demo_state());

    let a = StateService::subscribe(&mut service, recorder("a", &log));
    assert_eq!(entries(&log), vec![("a", demo_state())]);

    let mut latest = service.get_latest_state();
    latest.add_item("Learn Polkadot");
    latest.add_item("Learn Bitcoin");
    service.emit(latest.clone());
    let two_added = latest.clone();
    assert_eq!(two_added.list.len(), 3);

    let b = StateService::subscribe(&mut service, recorder("b", &log));
    assert_eq!(entries(&log)[2], ("b", two_added.clone()));

    latest.add_item("Write a demo");
    service.emit(latest.clone());
    let three_added = latest.clone();

    b.unsubscribe(&mut service);

    latest.add_item("Final");
    service.emit(latest.clone());
    let four_added = latest.clone();

    a.unsubscribe(&mut service);

    latest.add_item("No one should see that");
    service.emit(latest.clone());
    service.emit(latest.clone());

    assert_eq!(
        entries(&log),
        vec![
            ("a", demo_state()),
            ("a", two_added.clone()),
            ("b", two_added),
            ("a", three_added.clone()),
            ("b", three_added),
            ("a", four_added),
        ]
    );
    assert_eq!(service.get_latest_state(), latest);
    assert_eq!(service.get_latest_state().list.len(), 6);
}

#[test]
fn new_holds_initial_state() {
    let service: StateService<u64, Callback<u64>> = StateService::new(42);
    assert_eq!(service.get_latest_state(), 42);
}

#[test]
fn subscriber_gets_initial_state_when_nothing_emitted() {
    let log = new_log();
    let mut service = StateService::new(7u64);
    StateService::subscribe(&mut service, recorder("a", &log));
    assert_eq!(entries(&log), vec![("a", 7)]);
}

#[test]
fn subscriber_gets_most_recent_emit_once() {
    let log = new_log();
    let mut service = StateService::new(0u64);
    service.emit(1);
    service.emit(2);
    service.emit(3);
    StateService::subscribe(&mut service, recorder("late", &log));
    assert_eq!(entries(&log), vec![("late", 3)]);
}

#[test]
fn emit_fans_out_in_registration_order() {
    let log = new_log();
    let mut service = StateService::new(0u64);
    StateService::subscribe(&mut service, recorder("s1", &log));
    StateService::subscribe(&mut service, recorder("s2", &log));
    StateService::subscribe(&mut service, recorder("s3", &log));
    log.borrow_mut().clear();
    service.emit(10);
    assert_eq!(entries(&log), vec![("s1", 10), ("s2", 10), ("s3", 10)]);
}

#[test]
fn emit_without_subscribers_only_replaces_state() {
    let mut service: StateService<u64, Callback<u64>> = StateService::new(1);
    service.emit(2);
    assert_eq!(service.get_latest_state(), 2);
}

#[test]
fn unsubscribe_removes_exactly_that_subscriber() {
    let log = new_log();
    let mut service = StateService::new(0u64);
    let _h1 = StateService::subscribe(&mut service, recorder("s1", &log));
    let h2 = StateService::subscribe(&mut service, recorder("s2", &log));
    let _h3 = StateService::subscribe(&mut service, recorder("s3", &log));
    h2.unsubscribe(&mut service);
    log.borrow_mut().clear();
    service.emit(5);
    assert_eq!(entries(&log), vec![("s1", 5), ("s3", 5)]);
}

#[test]
fn unsubscribe_twice_is_a_no_op() {
    let log = new_log();
    let mut service = StateService::new(0u64);
    let h1 = StateService::subscribe(&mut service, recorder("s1", &log));
    let _h2 = StateService::subscribe(&mut service, recorder("s2", &log));
    h1.unsubscribe(&mut service);
    h1.unsubscribe(&mut service);
    log.borrow_mut().clear();
    service.emit(8);
    assert_eq!(entries(&log), vec![("s2", 8)]);
}

#[test]
fn unknown_handle_is_a_no_op() {
    let log = new_log();
    let mut service = StateService::new(0u64);
    StateService::subscribe(&mut service, recorder("s1", &log));
    StateServiceSubscription::new(99).unsubscribe(&mut service);
    log.borrow_mut().clear();
    service.emit(4);
    assert_eq!(entries(&log), vec![("s1", 4)]);
}

#[test]
fn handle_from_another_service_is_a_no_op() {
    let log = new_log();
    let mut first = StateService::new(0u64);
    let mut second = StateService::new(0u64);
    StateService::subscribe(&mut first, recorder("first", &log));
    let _kept = StateService::subscribe(&mut second, recorder("second", &log));
    let other = StateService::subscribe(&mut second, recorder("other", &log));
    other.unsubscribe(&mut first);
    other.unsubscribe(&mut first);
    log.borrow_mut().clear();
    first.emit(1);
    assert_eq!(entries(&log), vec![("first", 1)]);
}

#[test]
fn unsubscribed_never_receives_later_emits() {
    let log = new_log();
    let mut service = StateService::new(0u64);
    let h = StateService::subscribe(&mut service, recorder("gone", &log));
    h.unsubscribe(&mut service);
    StateService::subscribe(&mut service, recorder("new", &log));
    log.borrow_mut().clear();
    for v in 1..=5u64 {
        service.emit(v);
    }
    assert_eq!(entries(&log), vec![("new", 1), ("new", 2), ("new", 3), ("new", 4), ("new", 5)]);
}

#[test]
fn latest_state_is_last_emit_whatever_the_subscribers() {
    let log = new_log();
    let mut service = StateService::new(0u64);
    service.emit(3);
    assert_eq!(service.get_latest_state(), 3);
    StateService::subscribe(&mut service, recorder("a", &log));
    StateService::subscribe(&mut service, recorder("b", &log));
    service.emit(4);
    service.emit(6);
    assert_eq!(service.get_latest_state(), 6);
}

#[test]
fn handles_are_distinct_and_unsubscribe_the_right_one() {
    let log = new_log();
    let mut service = StateService::new(0u64);
    let h1 = StateService::subscribe(&mut service, recorder("s1", &log));
    h1.unsubscribe(&mut service);
    let _h2 = StateService::subscribe(&mut service, recorder("s2", &log));
    // The stale handle must not reach the newer subscriber.
    h1.unsubscribe(&mut service);
    log.borrow_mut().clear();
    service.emit(2);
    assert_eq!(entries(&log), vec![("s2", 2)]);
}

#[test]
fn subscriber_trait_subscribes() {
    let log = new_log();
    let mut service = StateService::new(5u64);
    let h = <StateService<u64, Callback<u64>> as Subscriber<u64, Callback<u64>>>::subscribe(
        &mut service,
        recorder("t", &log),
    );
    service.emit(6);
    h.unsubscribe(&mut service);
    service.emit(7);
    assert_eq!(entries(&log), vec![("t", 5), ("t", 6)]);
}
