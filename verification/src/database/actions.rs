//! The operations that callers use on a store.
//!
//! `add` and `subtract` both apply the delta of a request as it stands: a
//! caller that subtracts hands in a request with a negative delta. The two
//! readers never fail; they return a `Result` so that a caller treats every
//! store operation alike.

use crate::database::models::{counter_views, optional_view, Counter, NewCounter, StoreError};
use crate::database::store::CounterStore;
use vstd::prelude::*;

verus! {

/// Applies the delta of `to_add_counter` to the counter it names, creating
/// the counter where the name is new, and returns the counter as it then is.
///
/// Fails, and leaves the store untouched, exactly where the table's
/// `refusal` gives a reason.
pub fn add(store: &mut CounterStore, to_add_counter: NewCounter) -> (outcome: Result<
    Counter,
    StoreError,
>)
    ensures
        outcome is Ok <==> old(store)@.refusal(to_add_counter@.name, to_add_counter@.delta)
            is None,
        outcome matches Ok(counter) ==> final(store)@ == old(store)@.upsert(
            to_add_counter@.name,
            to_add_counter@.delta,
        ) && final(store)@.lookup(to_add_counter@.name) == Some(counter@) && counter.id >= 1,
        outcome matches Err(error) ==> old(store)@.refusal(
            to_add_counter@.name,
            to_add_counter@.delta,
        ) == Some(error) && final(store)@ == old(store)@,
        final(store)@.well_formed(),
{
    store.apply_delta(to_add_counter.name.as_str(), to_add_counter.delta)
}

/// Applies the delta of `to_subtract_counter`, which the caller has already
/// made negative, to the counter it names. It does what `add` does: a total
/// may go below zero, and a name that is new gets a counter.
pub fn subtract(store: &mut CounterStore, to_subtract_counter: NewCounter) -> (outcome: Result<
    Counter,
    StoreError,
>)
    ensures
        outcome is Ok <==> old(store)@.refusal(
            to_subtract_counter@.name,
            to_subtract_counter@.delta,
        ) is None,
        outcome matches Ok(counter) ==> final(store)@ == old(store)@.upsert(
            to_subtract_counter@.name,
            to_subtract_counter@.delta,
        ) && final(store)@.lookup(to_subtract_counter@.name) == Some(counter@) && counter.id >= 1,
        outcome matches Err(error) ==> old(store)@.refusal(
            to_subtract_counter@.name,
            to_subtract_counter@.delta,
        ) == Some(error) && final(store)@ == old(store)@,
        final(store)@.well_formed(),
{
    store.apply_delta(to_subtract_counter.name.as_str(), to_subtract_counter.delta)
}

/// The counter called `name`, or `Ok(None)` where there is none: a name
/// without a counter is an answer, not a failure.
pub fn get_counter_by_name(store: &CounterStore, name: String) -> (outcome: Result<
    Option<Counter>,
    StoreError,
>)
    ensures
        outcome matches Ok(found) && optional_view(found) == store@.lookup(name@),
        store@.well_formed(),
{
    Ok(store.get_by_name(name.as_str()))
}

/// Every counter of the store, each once, in no promised order.
pub fn get_all_counters(store: &CounterStore) -> (outcome: Result<Vec<Counter>, StoreError>)
    ensures
        outcome matches Ok(counters) && store@.listed_by(counter_views(counters@)),
        store@.well_formed(),
{
    Ok(store.list_all())
}

} // verus!
