use counter_store::database::models::{Counter, NewCounter, StoreError};

fn request(name: &str, delta: i32) -> NewCounter {
    NewCounter { name: name.to_string(), delta }
}

#[test]
fn increment_keeps_the_amount() {
    assert_eq!(NewCounter::increment("a".to_string(), 7), Some(request("a", 7)));
    assert_eq!(NewCounter::increment("a".to_string(), 0), Some(request("a", 0)));
}

#[test]
fn increment_takes_the_largest_delta() {
    assert_eq!(
        NewCounter::increment("a".to_string(), 2147483647),
        Some(request("a", i32::MAX))
    );
}

#[test]
fn increment_refuses_what_no_delta_holds() {
    assert_eq!(NewCounter::increment("a".to_string(), 2147483648), None);
    assert_eq!(NewCounter::increment("a".to_string(), u32::MAX), None);
}

#[test]
fn decrement_negates_the_amount() {
    assert_eq!(NewCounter::decrement("a".to_string(), 3), Some(request("a", -3)));
    assert_eq!(NewCounter::decrement("a".to_string(), 0), Some(request("a", 0)));
    assert_eq!(
        NewCounter::decrement("a".to_string(), 2147483647),
        Some(request("a", -2147483647))
    );
}

#[test]
fn decrement_takes_the_smallest_delta() {
    assert_eq!(
        NewCounter::decrement("a".to_string(), 2147483648),
        Some(request("a", i32::MIN))
    );
}

#[test]
fn decrement_refuses_what_no_delta_holds() {
    assert_eq!(NewCounter::decrement("a".to_string(), 2147483649), None);
    assert_eq!(NewCounter::decrement("a".to_string(), u32::MAX), None);
}

#[test]
fn requests_keep_the_name() {
    let name = "päivä/日".to_string();
    assert_eq!(NewCounter::increment(name.clone(), 1).unwrap().name, name);
    assert_eq!(NewCounter::decrement(name.clone(), 1).unwrap().name, name);
}

#[test]
fn clones_are_equal() {
    let c = Counter { id: 3, name: "n".to_string(), value: -4 };
    assert_eq!(c.clone(), c);
    let r = request("n", 8);
    assert_eq!(r.clone(), r);
    let e = StoreError::IdsExhausted;
    assert_eq!(e.clone(), e);
    assert_ne!(StoreError::IdsExhausted, StoreError::ValueOutOfRange);
}
