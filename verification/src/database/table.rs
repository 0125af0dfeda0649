//! The counter table as a mathematical object.
//!
//! A table maps names to entries and knows which id it hands out next. The
//! store's operations are specified as functions on such tables, and the
//! lemmas at the end of this module say what follows for any run of requests.

use crate::database::models::{CounterView, NewCounterView, StoreError};
use vstd::prelude::*;

verus! {

/// What the table keeps under one name.
pub ghost struct Entry {
    pub id: int,
    pub value: int,
}

/// The table: at most one entry for each name, and the id that the next new
/// counter receives.
pub ghost struct Table {
    pub entries: Map<Seq<char>, Entry>,
    pub next_id: int,
}

impl Table {
    /// The table before any request: no counters, and ids start at 1.
    pub open spec fn empty() -> Table {
        Table { entries: Map::empty(), next_id: 1 }
    }

    /// Finitely many counters, each with a positive id that was handed out
    /// before `next_id`, no id under two names, and every id and total a
    /// 32-bit signed integer.
    pub open spec fn well_formed(self) -> bool {
        &&& self.entries.dom().finite()
        &&& 1 <= self.next_id <= i32::MAX + 1
        &&& forall|name: Seq<char>| #[trigger]
            self.entries.contains_key(name) ==> 1 <= self.entries[name].id < self.next_id
                && i32::MIN <= self.entries[name].value <= i32::MAX
        &&& forall|a: Seq<char>, b: Seq<char>|
            #![trigger self.entries[a], self.entries[b]]
            self.entries.contains_key(a) && self.entries.contains_key(b) && self.entries[a].id
                == self.entries[b].id ==> a == b
    }

    /// Whether a counter called `name` exists.
    pub open spec fn contains(self, name: Seq<char>) -> bool {
        self.entries.contains_key(name)
    }

    /// The total under `name`; 0 where nothing was ever applied under it.
    pub open spec fn value_of(self, name: Seq<char>) -> int {
        if self.contains(name) {
            self.entries[name].value
        } else {
            0
        }
    }

    /// The id that `name` has, or, for a new name, the id it would get.
    pub open spec fn id_for(self, name: Seq<char>) -> int {
        if self.contains(name) {
            self.entries[name].id
        } else {
            self.next_id
        }
    }

    /// The counter called `name`, if there is one.
    pub open spec fn lookup(self, name: Seq<char>) -> Option<CounterView> {
        if self.contains(name) {
            Some(CounterView { id: self.entries[name].id, name, value: self.entries[name].value })
        } else {
            None
        }
    }

    /// The table after `delta` was applied under `name`: the counter's total
    /// moves by `delta`, or a new counter starts at `delta` under the next id.
    /// No other entry changes.
    pub open spec fn upsert(self, name: Seq<char>, delta: int) -> Table {
        Table {
            entries: self.entries.insert(
                name,
                Entry { id: self.id_for(name), value: self.value_of(name) + delta },
            ),
            next_id: if self.contains(name) {
                self.next_id
            } else {
                self.next_id + 1
            },
        }
    }

    /// Why `delta` cannot be applied under `name`, if it cannot: the total
    /// or the id that would result is no 32-bit signed integer.
    pub open spec fn refusal(self, name: Seq<char>, delta: int) -> Option<StoreError> {
        if !(i32::MIN <= self.value_of(name) + delta <= i32::MAX) {
            Some(StoreError::ValueOutOfRange)
        } else if !self.contains(name) && self.next_id > i32::MAX {
            Some(StoreError::IdsExhausted)
        } else {
            None
        }
    }

    /// Whether every request of a run is applied when its turn comes, none
    /// of them refused.
    pub open spec fn accepts(self, requests: Seq<NewCounterView>) -> bool
        decreases requests.len(),
    {
        requests.len() == 0 || (self.accepts(requests.drop_last()) && self.apply_all(
            requests.drop_last(),
        ).refusal(requests.last().name, requests.last().delta) is None)
    }

    /// The table after a run of requests, applied first to last.
    pub open spec fn apply_all(self, requests: Seq<NewCounterView>) -> Table
        decreases requests.len(),
    {
        if requests.len() == 0 {
            self
        } else {
            self.apply_all(requests.drop_last()).upsert(
                requests.last().name,
                requests.last().delta,
            )
        }
    }

    /// Whether `counters` holds every counter of the table, each once, in
    /// whatever order.
    pub open spec fn listed_by(self, counters: Seq<CounterView>) -> bool {
        &&& counters.len() == self.entries.dom().len()
        &&& forall|i: int|
            0 <= i < counters.len() ==> self.lookup((#[trigger] counters[i]).name) == Some(
                counters[i],
            )
        &&& forall|i: int, j: int|
            0 <= i < j < counters.len() ==> (#[trigger] counters[i]).name != (
            #[trigger] counters[j]).name
        &&& forall|name: Seq<char>| #[trigger]
            self.contains(name) ==> exists|i: int|
                0 <= i < counters.len() && (#[trigger] counters[i]).name == name
    }
}

/// The sum of the deltas that `requests` hold for `name`.
pub open spec fn total_for(requests: Seq<NewCounterView>, name: Seq<char>) -> int
    decreases requests.len(),
{
    if requests.len() == 0 {
        0
    } else {
        total_for(requests.drop_last(), name) + share_of(requests.last(), name)
    }
}

/// Whether one of `requests` is for `name`.
pub open spec fn mentions(requests: Seq<NewCounterView>, name: Seq<char>) -> bool {
    exists|i: int| 0 <= i < requests.len() && (#[trigger] requests[i]).name == name
}

/// What one request adds to the total of `name`.
pub open spec fn share_of(request: NewCounterView, name: Seq<char>) -> int {
    if request.name == name {
        request.delta
    } else {
        0
    }
}

/// A name that the table has not seen gets a counter that starts at the
/// first delta applied under it, whatever that delta is, with the next id.
pub proof fn lemma_first_use_creates(table: Table, name: Seq<char>, delta: int)
    requires
        !table.contains(name),
    ensures
        table.upsert(name, delta).lookup(name) == Some(
            CounterView { id: table.next_id, name, value: delta },
        ),
        table.upsert(name, delta).next_id == table.next_id + 1,
{
}

/// Applying 0 under the name of a counter that exists is never refused and
/// changes nothing.
pub proof fn lemma_zero_changes_nothing(table: Table, name: Seq<char>)
    requires
        table.well_formed(),
        table.contains(name),
    ensures
        table.refusal(name, 0) is None,
        table.upsert(name, 0) == table,
{
    assert(table.upsert(name, 0).entries =~= table.entries);
}

/// A read of `name` after a delta was applied under it finds the counter,
/// with its id and with the earlier total moved by that delta.
pub proof fn lemma_read_follows_write(table: Table, name: Seq<char>, delta: int)
    ensures
        table.upsert(name, delta).lookup(name) == Some(
            CounterView { id: table.id_for(name), name, value: table.value_of(name) + delta },
        ),
{
}

/// Applying a delta under one name touches the counter of no other name.
pub proof fn lemma_others_untouched(
    table: Table,
    name: Seq<char>,
    delta: int,
    other: Seq<char>,
)
    requires
        other != name,
    ensures
        table.upsert(name, delta).lookup(other) == table.lookup(other),
{
}

/// Every request that is applied leaves a well-formed table well-formed:
/// still no id under two names, and every total one that a counter can hold.
pub proof fn lemma_upsert_keeps_well_formed(table: Table, name: Seq<char>, delta: int)
    requires
        table.well_formed(),
        table.refusal(name, delta) is None,
    ensures
        table.upsert(name, delta).well_formed(),
{
    let after = table.upsert(name, delta);
    assert forall|a: Seq<char>, b: Seq<char>|
        #![trigger after.entries[a], after.entries[b]]
        after.entries.contains_key(a) && after.entries.contains_key(b) && after.entries[a].id
            == after.entries[b].id implies a == b by {
        // An entry other than that of `name` is an entry of `table`, and its
        // id is below `table.next_id`.
        if a != name {
            assert(table.entries.contains_key(a));
        }
        if b != name {
            assert(table.entries.contains_key(b));
        }
    }
}

/// A run holds a request for a name where its last request is one, or a
/// request before the last.
proof fn lemma_mentions_step(requests: Seq<NewCounterView>, name: Seq<char>)
    requires
        requests.len() > 0,
    ensures
        mentions(requests, name) <==> mentions(requests.drop_last(), name)
            || requests.last().name == name,
{
    let earlier = requests.drop_last();
    if mentions(earlier, name) {
        let i = choose|i: int| 0 <= i < earlier.len() && (#[trigger] earlier[i]).name == name;
        assert(requests[i].name == name);
    }
    if requests.last().name == name {
        assert(requests[requests.len() - 1].name == name);
    }
    if mentions(requests, name) && requests.last().name != name {
        let i = choose|i: int| 0 <= i < requests.len() && (#[trigger] requests[i]).name == name;
        assert(earlier[i].name == name);
    }
}

/// After any run of requests the total under a name is what it was, plus
/// the sum of the deltas that the run held for that name; and the counter
/// exists if it did before or the run held a request for it. Requests for
/// other names, wherever they stand in the run, make no difference.
pub proof fn lemma_totals_add_up(table: Table, requests: Seq<NewCounterView>, name: Seq<char>)
    ensures
        table.apply_all(requests).value_of(name) == table.value_of(name) + total_for(
            requests,
            name,
        ),
        table.apply_all(requests).contains(name) <==> table.contains(name) || mentions(
            requests,
            name,
        ),
        table.apply_all(requests).lookup(name) matches Some(counter) ==> counter.name == name
            && counter.value == table.value_of(name) + total_for(requests, name),
    decreases requests.len(),
{
    if requests.len() > 0 {
        lemma_totals_add_up(table, requests.drop_last(), name);
        lemma_mentions_step(requests, name);
    }
}

/// A name that the table has not seen, and that no request of a run is
/// for, has no counter after the run.
pub proof fn lemma_unseen_is_absent(table: Table, requests: Seq<NewCounterView>, name: Seq<char>)
    requires
        !table.contains(name),
        !mentions(requests, name),
    ensures
        table.apply_all(requests).lookup(name) is None,
{
    lemma_totals_add_up(table, requests, name);
}

/// A counter keeps the id it was created with through any run of requests.
pub proof fn lemma_id_is_kept(table: Table, requests: Seq<NewCounterView>, name: Seq<char>)
    requires
        table.contains(name),
    ensures
        table.apply_all(requests).contains(name),
        table.apply_all(requests).id_for(name) == table.id_for(name),
    decreases requests.len(),
{
    if requests.len() > 0 {
        lemma_id_is_kept(table, requests.drop_last(), name);
    }
}

/// A run of requests, each of them applied, leaves a well-formed table
/// well-formed.
pub proof fn lemma_run_keeps_well_formed(table: Table, requests: Seq<NewCounterView>)
    requires
        table.well_formed(),
        table.accepts(requests),
    ensures
        table.apply_all(requests).well_formed(),
    decreases requests.len(),
{
    if requests.len() > 0 {
        lemma_run_keeps_well_formed(table, requests.drop_last());
        lemma_upsert_keeps_well_formed(
            table.apply_all(requests.drop_last()),
            requests.last().name,
            requests.last().delta,
        );
    }
}

/// The sum for a name is the sum without one request, plus that request's
/// share.
proof fn lemma_total_without(requests: Seq<NewCounterView>, i: int, name: Seq<char>)
    requires
        0 <= i < requests.len(),
    ensures
        total_for(requests, name) == total_for(requests.remove(i), name) + share_of(
            requests[i],
            name,
        ),
    decreases requests.len(),
{
    if i == requests.len() - 1 {
        assert(requests.remove(i) =~= requests.drop_last());
    } else {
        lemma_total_without(requests.drop_last(), i, name);
        assert(requests.remove(i).drop_last() =~= requests.drop_last().remove(i));
    }
}

/// Two runs that hold the same requests, in whatever order, give every name
/// the same sum.
proof fn lemma_total_of_reordered(
    first: Seq<NewCounterView>,
    second: Seq<NewCounterView>,
    name: Seq<char>,
)
    requires
        first.to_multiset() == second.to_multiset(),
    ensures
        total_for(first, name) == total_for(second, name),
    decreases first.len(),
{
    vstd::seq_lib::to_multiset_len(first);
    vstd::seq_lib::to_multiset_len(second);
    if first.len() > 0 {
        // Take the last request of `first` out of both runs.
        let last = first.last();
        let rest = first.drop_last();
        assert(first =~= rest.push(last));
        vstd::seq_lib::to_multiset_build(rest, last);
        vstd::seq_lib::to_multiset_contains(second, last);
        let j = choose|j: int| 0 <= j < second.len() && second[j] == last;
        vstd::seq_lib::to_multiset_remove(second, j);
        assert(rest.to_multiset() =~= first.to_multiset().remove(last));
        lemma_total_of_reordered(rest, second.remove(j), name);
        lemma_total_without(second, j, name);
    }
}

/// A run that holds a request for a name holds one in every order.
proof fn lemma_mentions_of_reordered(
    first: Seq<NewCounterView>,
    second: Seq<NewCounterView>,
    name: Seq<char>,
)
    requires
        first.to_multiset() == second.to_multiset(),
        mentions(first, name),
    ensures
        mentions(second, name),
{
    let i = choose|i: int| 0 <= i < first.len() && (#[trigger] first[i]).name == name;
    vstd::seq_lib::to_multiset_contains(first, first[i]);
    vstd::seq_lib::to_multiset_contains(second, first[i]);
    assert(first.contains(first[i]));
    let j = choose|j: int| 0 <= j < second.len() && second[j] == first[i];
    assert(second[j].name == name);
}

/// The order in which requests arrive does not show in the totals: two runs
/// that hold the same requests leave every name with the same total.
pub proof fn lemma_order_is_irrelevant(
    table: Table,
    first: Seq<NewCounterView>,
    second: Seq<NewCounterView>,
    name: Seq<char>,
)
    requires
        first.to_multiset() == second.to_multiset(),
    ensures
        table.apply_all(first).value_of(name) == table.apply_all(second).value_of(name),
        table.apply_all(first).contains(name) == table.apply_all(second).contains(name),
{
    lemma_totals_add_up(table, first, name);
    lemma_totals_add_up(table, second, name);
    lemma_total_of_reordered(first, second, name);
    if mentions(first, name) {
        lemma_mentions_of_reordered(first, second, name);
    }
    if mentions(second, name) {
        lemma_mentions_of_reordered(second, first, name);
    }
}

} // verus!
