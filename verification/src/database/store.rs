//! The store: the counter table, kept in memory.

use crate::database::models::{counter_views, optional_view, Counter, StoreError};
use crate::database::table::{Entry, Table};
use vstd::prelude::*;
use vstd::string::StringSliceAdditionalSpecFns;

verus! {

/// A counter table in memory.
///
/// Its view is the `Table` it stands for. The rows are kept in the order in
/// which the counters were created; nothing in the contracts depends on it.
pub struct CounterStore {
    rows: Vec<Counter>,
    /// The last id handed out; 0 before the first.
    issued: i32,
}

/// Whether two names are the same, letter for letter.
///
/// Names are compared by their bytes: two texts with the same encoding are
/// the same text.
fn same_name(a: &str, b: &str) -> (same: bool)
    ensures
        same == (a@ == b@),
{
    let left = a.as_bytes();
    let right = b.as_bytes();
    proof {
        vstd::utf8::encode_utf8_decode_utf8(a@);
        vstd::utf8::encode_utf8_decode_utf8(b@);
    }
    if left.len() != right.len() {
        return false;
    }
    let mut i: usize = 0;
    while i < left.len()
        invariant
            left@ == a.spec_bytes(),
            right@ == b.spec_bytes(),
            left.len() == right.len(),
            i <= left.len(),
            forall|k: int| 0 <= k < i ==> left[k] == right[k],
        decreases left.len() - i,
    {
        if left[i] != right[i] {
            return false;
        }
        i += 1;
    }
    assert(left@ =~= right@);
    true
}

/// The names of the rows, in the rows' order.
spec fn names_of(rows: Seq<Counter>) -> Seq<Seq<char>> {
    rows.map_values(|c: Counter| c.name@)
}

/// The table that rows with distinct names stand for.
spec fn table_of(rows: Seq<Counter>, issued: int) -> Table {
    Table {
        entries: Map::new(
            |name: Seq<char>| names_of(rows).contains(name),
            |name: Seq<char>|
                {
                    let row = rows[names_of(rows).index_of(name)];
                    Entry { id: row.id as int, value: row.value as int }
                },
        ),
        next_id: issued + 1,
    }
}

/// What the store keeps true of its rows.
spec fn consistent(rows: Seq<Counter>, issued: int) -> bool {
    &&& 0 <= issued <= i32::MAX
    &&& names_of(rows).no_duplicates()
    &&& forall|i: int| 0 <= i < rows.len() ==> 1 <= (#[trigger] rows[i]).id <= issued
    &&& forall|i: int, j: int|
        0 <= i < j < rows.len() ==> (#[trigger] rows[i]).id != (#[trigger] rows[j]).id
}

/// With distinct names, a row is found again under its own name.
proof fn lemma_row_is_entry(rows: Seq<Counter>, issued: int, i: int)
    requires
        names_of(rows).no_duplicates(),
        0 <= i < rows.len(),
    ensures
        names_of(rows).contains(rows[i].name@),
        names_of(rows).index_of(rows[i].name@) == i,
        table_of(rows, issued).lookup(rows[i].name@) == Some(rows[i]@),
{
    assert(names_of(rows)[i] == rows[i].name@);
}

/// Consistent rows stand for a well-formed table with one entry for each row.
proof fn lemma_table_well_formed(rows: Seq<Counter>, issued: int)
    requires
        consistent(rows, issued),
    ensures
        table_of(rows, issued).well_formed(),
        table_of(rows, issued).entries.dom().len() == rows.len(),
{
    let names = names_of(rows);
    let table = table_of(rows, issued);
    assert(table.entries.dom() =~= names.to_set());
    vstd::seq_lib::seq_to_set_is_finite(names);
    names.unique_seq_to_set();
    assert forall|name: Seq<char>| #[trigger] table.entries.contains_key(name) implies 1
        <= table.entries[name].id < table.next_id && i32::MIN <= table.entries[name].value
        <= i32::MAX by {
        let k = names.index_of(name);
        assert(1 <= rows[k].id <= issued);
    }
    assert forall|a: Seq<char>, b: Seq<char>|
        #![trigger table.entries[a], table.entries[b]]
        table.entries.contains_key(a) && table.entries.contains_key(b) && table.entries[a].id
            == table.entries[b].id implies a == b by {
        let i = names.index_of(a);
        let j = names.index_of(b);
        assert(rows[i].id == rows[j].id);
        assert(i == j);
    }
}

/// A row under a new name, with the next id, is the table's upsert of a new
/// counter.
proof fn lemma_push_is_upsert(rows: Seq<Counter>, issued: int, row: Counter)
    requires
        consistent(rows, issued),
        issued < i32::MAX,
        !names_of(rows).contains(row.name@),
        row.id == issued + 1,
    ensures
        consistent(rows.push(row), issued + 1),
        table_of(rows.push(row), issued + 1) == table_of(rows, issued).upsert(
            row.name@,
            row.value as int,
        ),
{
    let after = rows.push(row);
    let names = names_of(rows);
    assert(names_of(after) =~= names.push(row.name@));
    assert(consistent(after, issued + 1));
    let before = table_of(rows, issued);
    let pushed = table_of(after, issued + 1);
    let upserted = before.upsert(row.name@, row.value as int);
    assert forall|name: Seq<char>| #[trigger]
        upserted.entries.contains_key(name) implies pushed.entries.contains_key(name)
        && pushed.entries[name] == upserted.entries[name] by {
        if name == row.name@ {
            lemma_row_is_entry(after, issued + 1, rows.len() as int);
        } else {
            let k = names.index_of(name);
            lemma_row_is_entry(rows, issued, k);
            lemma_row_is_entry(after, issued + 1, k);
        }
    }
    assert(pushed.entries =~= upserted.entries);
}

/// A row replaced by one of the same name and id is the table's upsert of
/// the difference between the two totals.
proof fn lemma_update_is_upsert(rows: Seq<Counter>, issued: int, i: int, row: Counter)
    requires
        consistent(rows, issued),
        0 <= i < rows.len(),
        row.name@ == rows[i].name@,
        row.id == rows[i].id,
    ensures
        consistent(rows.update(i, row), issued),
        table_of(rows.update(i, row), issued) == table_of(rows, issued).upsert(
            row.name@,
            row.value - rows[i].value,
        ),
{
    let after = rows.update(i, row);
    let names = names_of(rows);
    assert(names_of(after) =~= names);
    assert(consistent(after, issued));
    let before = table_of(rows, issued);
    let updated = table_of(after, issued);
    let upserted = before.upsert(row.name@, row.value - rows[i].value);
    lemma_row_is_entry(rows, issued, i);
    assert forall|name: Seq<char>| #[trigger]
        updated.entries.contains_key(name) implies updated.entries[name]
        == upserted.entries[name] by {
        let k = names.index_of(name);
        lemma_row_is_entry(rows, issued, k);
        lemma_row_is_entry(after, issued, k);
    }
    assert(updated.entries =~= upserted.entries);
}

impl View for CounterStore {
    type V = Table;

    closed spec fn view(&self) -> Table {
        table_of(self.rows@, self.issued as int)
    }
}

impl CounterStore {
    #[verifier::type_invariant]
    spec fn inv(self) -> bool {
        consistent(self.rows@, self.issued as int)
    }

    /// An empty store, whose first counter gets the id 1.
    pub fn new() -> (store: Self)
        ensures
            store@ == Table::empty(),
            store@.well_formed(),
    {
        let store = CounterStore { rows: Vec::new(), issued: 0 };
        assert(store@.entries =~= Table::empty().entries);
        store
    }

    /// An empty store that has already handed out the ids up to `last_id`,
    /// so that its first counter gets the id after it. There is none for a
    /// negative `last_id`.
    pub fn with_ids_after(last_id: i32) -> (store: Option<Self>)
        ensures
            store is Some <==> 0 <= last_id,
            store matches Some(s) ==> s@ == (Table { entries: Map::empty(), next_id: last_id + 1 })
                && s@.well_formed(),
    {
        if last_id < 0 {
            None
        } else {
            let s = CounterStore { rows: Vec::new(), issued: last_id };
            assert(s@.entries =~= Map::<Seq<char>, Entry>::empty());
            Some(s)
        }
    }

    /// The row that holds `name`, if there is one.
    fn position(&self, name: &str) -> (found: Option<usize>)
        ensures
            found matches Some(i) ==> i < self.rows.len() && self.rows[i as int].name@ == name@,
            found is None ==> !names_of(self.rows@).contains(name@),
    {
        let mut i: usize = 0;
        while i < self.rows.len()
            invariant
                i <= self.rows.len(),
                forall|k: int| 0 <= k < i ==> (#[trigger] self.rows[k]).name@ != name@,
            decreases self.rows.len() - i,
        {
            if same_name(self.rows[i].name.as_str(), name) {
                return Some(i);
            }
            i += 1;
        }
        assert(!names_of(self.rows@).contains(name@)) by {
            if names_of(self.rows@).contains(name@) {
                let k = names_of(self.rows@).index_of(name@);
                assert(self.rows[k].name@ == name@);
            }
        }
        None
    }

    /// Applies `delta` under `name`, and returns the counter as it then is.
    ///
    /// A counter that exists moves by `delta`. A name that is new gets a
    /// counter that starts at `delta`, whatever `delta` is, with the next id.
    /// The request is turned down, and nothing changes, exactly where the new
    /// total or the new id would not fit.
    pub fn apply_delta(&mut self, name: &str, delta: i32) -> (outcome: Result<Counter, StoreError>)
        ensures
            outcome is Ok <==> old(self)@.refusal(name@, delta as int) is None,
            outcome matches Ok(counter) ==> final(self)@ == old(self)@.upsert(name@, delta as int)
                && final(self)@.lookup(name@) == Some(counter@) && counter.id >= 1,
            outcome matches Err(error) ==> old(self)@.refusal(name@, delta as int) == Some(error)
                && final(self)@ == old(self)@,
            final(self)@.well_formed(),
    {
        proof {
            use_type_invariant(&*self);
            lemma_table_well_formed(self.rows@, self.issued as int);
        }
        match self.position(name) {
            Some(i) => {
                proof {
                    lemma_row_is_entry(self.rows@, self.issued as int, i as int);
                }
                match self.rows[i].value.checked_add(delta) {
                    Some(total) => {
                        // The rows leave the store while they change, so that
                        // the store is consistent at every step.
                        let mut rows = Vec::new();
                        std::mem::swap(&mut rows, &mut self.rows);
                        let ghost before = rows@;
                        rows[i].value = total;
                        let counter = rows[i].clone();
                        proof {
                            let issued = self.issued as int;
                            lemma_update_is_upsert(before, issued, i as int, rows@[i as int]);
                            lemma_table_well_formed(rows@, issued);
                            lemma_row_is_entry(rows@, issued, i as int);
                        }
                        self.rows = rows;
                        Ok(counter)
                    },
                    None => Err(StoreError::ValueOutOfRange),
                }
            },
            None => {
                if self.issued == i32::MAX {
                    Err(StoreError::IdsExhausted)
                } else {
                    let row = Counter { id: self.issued + 1, name: name.to_owned(), value: delta };
                    let counter = row.clone();
                    proof {
                        lemma_push_is_upsert(self.rows@, self.issued as int, row);
                        lemma_table_well_formed(self.rows@.push(row), self.issued + 1);
                        lemma_row_is_entry(
                            self.rows@.push(row),
                            self.issued + 1,
                            self.rows@.len() as int,
                        );
                    }
                    let mut rows = Vec::new();
                    std::mem::swap(&mut rows, &mut self.rows);
                    rows.push(row);
                    self.issued = self.issued + 1;
                    self.rows = rows;
                    Ok(counter)
                }
            },
        }
    }

    /// The counter called `name`, letter for letter, or `None` where there
    /// is no such counter. The store stays as it is.
    pub fn get_by_name(&self, name: &str) -> (found: Option<Counter>)
        ensures
            optional_view(found) == self@.lookup(name@),
            self@.well_formed(),
    {
        proof {
            use_type_invariant(self);
            lemma_table_well_formed(self.rows@, self.issued as int);
        }
        match self.position(name) {
            Some(i) => {
                proof {
                    lemma_row_is_entry(self.rows@, self.issued as int, i as int);
                }
                Some(self.rows[i].clone())
            },
            None => None,
        }
    }

    /// Every counter of the store, each once. The store stays as it is.
    pub fn list_all(&self) -> (counters: Vec<Counter>)
        ensures
            self@.listed_by(counter_views(counters@)),
            self@.well_formed(),
    {
        proof {
            use_type_invariant(self);
        }
        let mut counters: Vec<Counter> = Vec::new();
        let mut i: usize = 0;
        while i < self.rows.len()
            invariant
                i <= self.rows.len(),
                counters.len() == i,
                forall|k: int| 0 <= k < i ==> (#[trigger] counters[k])@ == self.rows[k]@,
            decreases self.rows.len() - i,
        {
            counters.push(self.rows[i].clone());
            i += 1;
        }
        proof {
            let rows = self.rows@;
            let listed = counter_views(counters@);
            lemma_table_well_formed(rows, self.issued as int);
            assert forall|k: int| 0 <= k < listed.len() implies self@.lookup(
                (#[trigger] listed[k]).name,
            ) == Some(listed[k]) by {
                lemma_row_is_entry(rows, self.issued as int, k);
            }
            assert forall|k: int, j: int| 0 <= k < j < listed.len() implies (
            #[trigger] listed[k]).name != (#[trigger] listed[j]).name by {
                assert(names_of(rows)[k] == listed[k].name && names_of(rows)[j] == listed[j].name);
            }
            assert forall|name: Seq<char>| #[trigger] self@.contains(name) implies exists|k: int|
                0 <= k < listed.len() && (#[trigger] listed[k]).name == name by {
                let k = names_of(rows).index_of(name);
                assert(listed[k].name == name);
            }
        }
        counters
    }
}

} // verus!
