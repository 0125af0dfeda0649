use counter_store::database::actions;
use counter_store::database::models::{Counter, NewCounter, StoreError};
use counter_store::database::store::CounterStore;

fn counter(id: i32, name: &str, value: i32) -> Counter {
    Counter { id, name: name.to_string(), value }
}

fn request(name: &str, delta: i32) -> NewCounter {
    NewCounter { name: name.to_string(), delta }
}

#[test]
fn add_then_subtract_then_two_more() {
    let mut store = CounterStore::new();
    assert_eq!(actions::add(&mut store, request("x", 5)), Ok(counter(1, "x", 5)));
    assert_eq!(actions::subtract(&mut store, request("x", -3)), Ok(counter(1, "x", 2)));
    assert_eq!(actions::add(&mut store, request("x", 10)), Ok(counter(1, "x", 12)));
    assert_eq!(actions::subtract(&mut store, request("x", -2)), Ok(counter(1, "x", 10)));
}

#[test]
fn two_more_in_the_other_order() {
    let mut store = CounterStore::new();
    actions::add(&mut store, request("x", 5)).unwrap();
    actions::subtract(&mut store, request("x", -3)).unwrap();
    assert_eq!(actions::subtract(&mut store, request("x", -2)), Ok(counter(1, "x", 0)));
    assert_eq!(actions::add(&mut store, request("x", 10)), Ok(counter(1, "x", 10)));
    assert_eq!(
        actions::get_counter_by_name(&store, "x".to_string()),
        Ok(Some(counter(1, "x", 10)))
    );
}

#[test]
fn subtract_applies_the_delta_as_given() {
    let mut store = CounterStore::new();
    assert_eq!(actions::subtract(&mut store, request("s", 4)), Ok(counter(1, "s", 4)));
    assert_eq!(actions::add(&mut store, request("s", -6)), Ok(counter(1, "s", -2)));
}

#[test]
fn subtract_creates_a_counter_too() {
    let mut store = CounterStore::new();
    let taken = NewCounter::decrement("fresh".to_string(), 8).unwrap();
    assert_eq!(actions::subtract(&mut store, taken), Ok(counter(1, "fresh", -8)));
}

#[test]
fn amounts_go_through_requests() {
    let mut store = CounterStore::new();
    let up = NewCounter::increment("hits".to_string(), 12).unwrap();
    let down = NewCounter::decrement("hits".to_string(), 5).unwrap();
    assert_eq!(actions::add(&mut store, up), Ok(counter(1, "hits", 12)));
    assert_eq!(actions::subtract(&mut store, down), Ok(counter(1, "hits", 7)));
}

#[test]
fn absent_counter_is_no_error() {
    let mut store = CounterStore::new();
    assert_eq!(actions::get_counter_by_name(&store, "n".to_string()), Ok(None));
    actions::add(&mut store, request("m", 1)).unwrap();
    assert_eq!(actions::get_counter_by_name(&store, "n".to_string()), Ok(None));
    assert_eq!(actions::get_counter_by_name(&store, "m".to_string()), Ok(Some(counter(1, "m", 1))));
}

#[test]
fn all_counters_of_an_empty_store() {
    let store = CounterStore::new();
    assert_eq!(actions::get_all_counters(&store), Ok(vec![]));
}

#[test]
fn all_counters_after_two_names() {
    let mut store = CounterStore::new();
    actions::add(&mut store, request("a", 1)).unwrap();
    actions::add(&mut store, request("b", 2)).unwrap();
    let listed = actions::get_all_counters(&store).unwrap();
    assert_eq!(listed.len(), 2);
    assert!(listed.contains(&counter(1, "a", 1)));
    assert!(listed.contains(&counter(2, "b", 2)));
}

#[test]
fn add_reports_a_total_out_of_range() {
    let mut store = CounterStore::new();
    actions::add(&mut store, request("a", i32::MAX)).unwrap();
    assert_eq!(actions::add(&mut store, request("a", 1)), Err(StoreError::ValueOutOfRange));
    assert_eq!(
        actions::get_counter_by_name(&store, "a".to_string()),
        Ok(Some(counter(1, "a", i32::MAX)))
    );
}

#[test]
fn subtract_reports_a_total_out_of_range() {
    let mut store = CounterStore::new();
    actions::subtract(&mut store, request("a", i32::MIN)).unwrap();
    assert_eq!(actions::subtract(&mut store, request("a", -1)), Err(StoreError::ValueOutOfRange));
}

#[test]
fn add_reports_exhausted_ids() {
    let mut store = CounterStore::with_ids_after(i32::MAX).unwrap();
    assert_eq!(actions::add(&mut store, request("a", 1)), Err(StoreError::IdsExhausted));
    assert_eq!(actions::get_all_counters(&store), Ok(vec![]));
}
