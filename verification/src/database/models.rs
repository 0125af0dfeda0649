//! The records that go into and come out of the counter table.

use vstd::prelude::*;

verus! {

/// A counter as the table holds it.
#[derive(Debug, PartialEq, Eq)]
pub struct Counter {
    /// Assigned by the table when the counter is created; never changes.
    pub id: i32,
    /// The key by which callers know the counter.
    pub name: String,
    /// The sum of all the deltas applied under `name`.
    pub value: i32,
}

/// What a `Counter` is, mathematically.
pub ghost struct CounterView {
    pub id: int,
    pub name: Seq<char>,
    pub value: int,
}

impl View for Counter {
    type V = CounterView;

    open spec fn view(&self) -> CounterView {
        CounterView { id: self.id as int, name: self.name@, value: self.value as int }
    }
}

impl Clone for Counter {
    fn clone(&self) -> (copy: Self)
        ensures
            copy@ == self@,
    {
        Counter { id: self.id, name: self.name.clone(), value: self.value }
    }
}

/// What a lookup found, as mathematics.
pub open spec fn optional_view(found: Option<Counter>) -> Option<CounterView> {
    match found {
        Some(counter) => Some(counter@),
        None => None,
    }
}

/// What a listing holds, as mathematics, in the listing's order.
pub open spec fn counter_views(counters: Seq<Counter>) -> Seq<CounterView> {
    counters.map_values(|counter: Counter| counter@)
}

/// A request to the table: apply `delta` to the counter called `name`.
///
/// The delta is signed. A caller that wants to take something away hands in
/// a negative delta; the table itself looks at no sign.
#[derive(Debug, PartialEq, Eq)]
pub struct NewCounter {
    /// The counter to change, or to create.
    pub name: String,
    /// What to add to its total; the first total of a new counter.
    pub delta: i32,
}

/// What a `NewCounter` is, mathematically.
pub ghost struct NewCounterView {
    pub name: Seq<char>,
    pub delta: int,
}

impl View for NewCounter {
    type V = NewCounterView;

    open spec fn view(&self) -> NewCounterView {
        NewCounterView { name: self.name@, delta: self.delta as int }
    }
}

impl Clone for NewCounter {
    fn clone(&self) -> (copy: Self)
        ensures
            copy@ == self@,
    {
        NewCounter { name: self.name.clone(), delta: self.delta }
    }
}

/// Why the table turns a request down. A request that is turned down leaves
/// the table as it was.
#[derive(Debug, Clone, Copy, PartialEq, Eq, Structural)]
pub enum StoreError {
    /// The total that would result is more than a counter can hold, or less.
    ValueOutOfRange,
    /// The counter would be new, and the table has no id left to give it.
    IdsExhausted,
}

impl NewCounter {
    /// The request that adds `amount` to the counter called `name`.
    ///
    /// There is none for an amount that no signed delta can hold.
    pub fn increment(name: String, amount: u32) -> (request: Option<NewCounter>)
        ensures
            request is Some <==> amount <= i32::MAX,
            request matches Some(r) ==> r@ == (NewCounterView {
                name: name@,
                delta: amount as int,
            }),
    {
        if amount <= 0x7fff_ffff {
            Some(NewCounter { name, delta: amount as i32 })
        } else {
            None
        }
    }

    /// The request that takes `amount` away from the counter called `name`.
    ///
    /// There is none for an amount whose negation no signed delta can hold.
    pub fn decrement(name: String, amount: u32) -> (request: Option<NewCounter>)
        ensures
            request is Some <==> -(amount as int) >= i32::MIN,
            request matches Some(r) ==> r@ == (NewCounterView {
                name: name@,
                delta: -(amount as int),
            }),
    {
        if amount <= 0x7fff_ffff {
            Some(NewCounter { name, delta: -(amount as i32) })
        } else if amount == 0x8000_0000 {
            Some(NewCounter { name, delta: i32::MIN })
        } else {
            None
        }
    }
}

} // verus!
