use vstd::prelude::*;

use crate::command::{columns_view, strings_view};
use crate::data_types::{lower_seq, CaseInsensitiveString, Column, ColumnView, Value, ValueView};
use crate::table::{
    all_found, arity_message, column_not_found_message, first_mismatch, row_fits, rows_view,
    select_rows, type_mismatch_message, values_view, with_row, Row, Table, TableView,
};

verus! {

/// Mathematical view of a database: tables by case-folded name, and the
/// next row id to hand out.
pub struct DatabaseView {
    pub tables: Map<Seq<char>, TableView>,
    pub next_row_id: usize,
}

/// The map of named tables that a list of entries describes.
pub open spec fn entries_map(s: Seq<(Seq<char>, TableView)>) -> Map<Seq<char>, TableView>
    decreases s.len(),
{
    if s.len() == 0 {
        Map::empty()
    } else {
        entries_map(s.drop_last()).insert(s.last().0, s.last().1)
    }
}

pub open spec fn table_not_found_message(name: Seq<char>) -> Seq<char> {
    "Table '"@ + name + "' not found"@
}

pub open spec fn ids_exhausted_message() -> Seq<char> {
    "No row ids are left"@
}

/// An empty table with the given schema.
pub open spec fn empty_table(columns: Seq<ColumnView>) -> TableView {
    TableView { columns, rows: Seq::empty() }
}

/// The catalog: tables by case-insensitive name, and one row-id counter
/// shared by all of them.
#[derive(Debug)]
pub struct Database {
    tables: Vec<(CaseInsensitiveString, Table)>,
    next_row_id: usize,
}

impl View for Database {
    type V = DatabaseView;

    closed spec fn view(&self) -> DatabaseView {
        DatabaseView { tables: entries_map(self.entries()), next_row_id: self.next_row_id }
    }
}

proof fn lemma_entries_map_domain(s: Seq<(Seq<char>, TableView)>, key: Seq<char>)
    ensures
        entries_map(s).contains_key(key) <==> exists|k: int| 0 <= k < s.len() && s[k].0 == key,
    decreases s.len(),
{
    if s.len() > 0 {
        lemma_entries_map_domain(s.drop_last(), key);
        if entries_map(s.drop_last()).contains_key(key) {
            let k = choose|k: int| 0 <= k < s.drop_last().len() && s.drop_last()[k].0 == key;
            assert(s[k].0 == key);
        }
        if exists|k: int| 0 <= k < s.len() && s[k].0 == key {
            let k = choose|k: int| 0 <= k < s.len() && s[k].0 == key;
            if k < s.len() - 1 {
                assert(s.drop_last()[k].0 == key);
            }
        }
    }
}

proof fn lemma_entries_map_at(s: Seq<(Seq<char>, TableView)>, k: int)
    requires
        0 <= k < s.len(),
        forall|i: int, j: int| 0 <= i < j < s.len() ==> s[i].0 != s[j].0,
    ensures
        entries_map(s).contains_key(s[k].0),
        entries_map(s)[s[k].0] == s[k].1,
    decreases s.len(),
{
    if k < s.len() - 1 {
        lemma_entries_map_at(s.drop_last(), k);
    }
}

proof fn lemma_entries_map_update(s: Seq<(Seq<char>, TableView)>, k: int, t: TableView)
    requires
        0 <= k < s.len(),
        forall|i: int, j: int| 0 <= i < j < s.len() ==> s[i].0 != s[j].0,
    ensures
        entries_map(s.update(k, (s[k].0, t))) == entries_map(s).insert(s[k].0, t),
    decreases s.len(),
{
    let u = s.update(k, (s[k].0, t));
    if k == s.len() - 1 {
        assert(u.drop_last() =~= s.drop_last());
        assert(entries_map(u) =~= entries_map(s).insert(s[k].0, t));
    } else {
        assert(u.drop_last() =~= s.drop_last().update(k, (s[k].0, t)));
        lemma_entries_map_update(s.drop_last(), k, t);
        assert(s.last().0 != s[k].0);
        assert(entries_map(u) =~= entries_map(s).insert(s[k].0, t));
    }
}

impl Database {
    /// The entries as (name, table view) pairs.
    pub closed spec fn entries(&self) -> Seq<(Seq<char>, TableView)> {
        self.tables@.map_values(|e: (CaseInsensitiveString, Table)| (e.0.0@, e.1@))
    }

    /// The invariant: names are unique and folded, every table is
    /// well formed, and every stored row id is below the counter.
    pub closed spec fn wf(&self) -> bool {
        let es = self.entries();
        &&& forall|i: int, j: int| 0 <= i < j < es.len() ==> es[i].0 != es[j].0
        &&& forall|i: int| 0 <= i < es.len() ==> lower_seq(#[trigger] es[i].0) == es[i].0
        &&& forall|i: int| 0 <= i < self.tables@.len() ==> (#[trigger] self.tables@[i]).1.wf()
        &&& forall|i: int, r: int|
            0 <= i < es.len() && 0 <= r < es[i].1.rows.len() ==> (#[trigger] es[i].1.rows[r]).0
                < self.next_row_id
    }

    /// An empty database.
    pub fn new() -> (r: Database)
        ensures
            r.wf(),
            r@.tables == Map::<Seq<char>, TableView>::empty(),
            r@.next_row_id == 0,
    {
        let d = Database { tables: Vec::new(), next_row_id: 0 };
        assert(d.entries() =~= Seq::empty());
        d
    }

    /// Position of the entry whose name is `key`.
    fn find(&self, key: &CaseInsensitiveString) -> (r: Option<usize>)
        requires
            self.wf(),
        ensures
            match r {
                Some(k) => k < self.tables@.len() && self.entries()[k as int].0 == key.0@,
                None => !self@.tables.contains_key(key.0@),
            },
    {
        let ghost es = self.entries();
        let n = self.tables.len();
        let mut k: usize = 0;
        while k < n
            invariant
                k <= n,
                n == self.tables@.len(),
                es == self.entries(),
                forall|j: int| 0 <= j < k ==> es[j].0 != key.0@,
            decreases n - k,
        {
            if self.tables[k].0.0.eq(&key.0) {
                return Some(k);
            }
            k = k + 1;
        }
        proof {
            lemma_entries_map_domain(es, key.0@);
        }
        None
    }
}

impl Database {
    /// Creates an empty table named `table_name` (folded to lower case),
    /// replacing any table of the same folded name.
    pub fn create_table(&mut self, table_name: String, columns: Vec<Column>)
        requires
            old(self).wf(),
        ensures
            final(self).wf(),
            final(self)@.tables == old(self)@.tables.insert(
                lower_seq(table_name@),
                empty_table(columns_view(columns@)),
            ),
            final(self)@.next_row_id == old(self)@.next_row_id,
    {
        let key = CaseInsensitiveString::new(table_name.as_str());
        let table = Table::new(columns);
        let ghost es = self.entries();
        let ghost entry = (key.0@, table@);
        assert(table@.rows =~= Seq::<(usize, Seq<ValueView>)>::empty());
        assert(table@ == empty_table(columns_view(columns@)));
        assert(lower_seq(key.0@) =~= key.0@);
        match self.find(&key) {
            Some(k) => {
                self.tables.set(k, (key, table));
                proof {
                    assert(self.entries() =~= es.update(k as int, entry));
                    lemma_entries_map_update(es, k as int, table@);
                }
            },
            None => {
                self.tables.push((key, table));
                proof {
                    assert(self.entries() =~= es.push(entry));
                    assert(self.entries().drop_last() =~= es);
                    lemma_entries_map_domain(es, key.0@);
                }
            },
        }
        proof {
            let es2 = self.entries();
            assert forall|i: int| 0 <= i < self.tables@.len() implies (#[trigger] self.tables@[i]).1.wf() by {
                if es2[i].0 != entry.0 {
                    assert(self.tables@[i] == old(self).tables@[i]);
                }
            }
            assert forall|i: int, j: int| 0 <= i < j < es2.len() implies es2[i].0 != es2[j].0 by {
                if es2[i].0 != entry.0 && es2[j].0 != entry.0 {
                    assert(es2[i] == es[i] && es2[j] == es[j]);
                }
            }
            assert forall|i: int| 0 <= i < es2.len() implies lower_seq(#[trigger] es2[i].0) == es2[i].0 by {
                if es2[i].0 != entry.0 {
                    assert(es2[i] == es[i]);
                }
            }
            assert forall|i: int, r: int|
                0 <= i < es2.len() && 0 <= r < es2[i].1.rows.len() implies (#[trigger] es2[i].1.rows[r]).0
                < self.next_row_id by {
                assert(es2[i] == es[i]);
            }
        }
    }
}

/// What inserting `vals` into the table named `name` does to a database:
/// the message and unchanged state of each failure, checked in this order,
/// or the new state.
pub open spec fn insert_outcome(
    old: DatabaseView,
    name: Seq<char>,
    vals: Seq<ValueView>,
    r: Result<(), String>,
    new: DatabaseView,
) -> bool {
    let key = lower_seq(name);
    let t = old.tables[key];
    if !old.tables.contains_key(key) {
        r matches Err(m) && m@ == table_not_found_message(name) && new == old
    } else if old.next_row_id == usize::MAX {
        r matches Err(m) && m@ == ids_exhausted_message() && new == old
    } else if vals.len() != t.columns.len() {
        r matches Err(m) && m@ == arity_message() && new == old
    } else if !row_fits(t.columns, vals) {
        r matches Err(m) && new == old && exists|k: int|
            first_mismatch(t.columns, vals, k) && m@ == type_mismatch_message(t.columns[k].name)
    } else {
        r is Ok && new == DatabaseView {
            tables: old.tables.insert(key, with_row(t, old.next_row_id, vals)),
            next_row_id: (old.next_row_id + 1) as usize,
        }
    }
}

fn not_found(name: &str) -> (r: String)
    ensures
        r@ == table_not_found_message(name@),
{
    let mut m = String::from_str("Table '");
    m.append(name);
    m.append("' not found");
    m
}

impl Database {
    /// Appends a row to the table named `table_name` (any letter case),
    /// under the next row id, which is then used up. On failure nothing
    /// changes, the counter included.
    pub fn insert_row(&mut self, table_name: &str, values: Vec<Value>) -> (r: Result<(), String>)
        requires
            old(self).wf(),
        ensures
            final(self).wf(),
            insert_outcome(old(self)@, table_name@, values_view(values@), r, final(self)@),
    {
        let key = CaseInsensitiveString::new(table_name);
        let k = match self.find(&key) {
            None => return Err(not_found(table_name)),
            Some(k) => k,
        };
        proof {
            lemma_entries_map_at(self.entries(), k as int);
        }
        if self.next_row_id == usize::MAX {
            return Err(String::from_str("No row ids are left"));
        }
        let row_id = self.next_row_id;
        let ghost es = self.entries();
        proof {
            lemma_entries_map_at(es, k as int);
            assert(es[k as int].1 == self.tables@[k as int].1@);
            assert forall|i: int| 0 <= i < self.tables@[k as int].1@.rows.len() implies (
            #[trigger] self.tables@[k as int].1@.rows[i]).0 < row_id by {
                assert(es[k as int].1.rows[i].0 < self.next_row_id);
            }
        }
        let res = self.tables[k].1.insert_row(row_id, values);
        match res {
            Ok(()) => {
                self.next_row_id = row_id + 1;
                proof {
                    let es2 = self.entries();
                    assert(es2 =~= es.update(k as int, (es[k as int].0, es2[k as int].1)));
                    lemma_entries_map_update(es, k as int, es2[k as int].1);
                    assert forall|i: int| 0 <= i < self.tables@.len() implies (
                    #[trigger] self.tables@[i]).1.wf() by {
                        if i != k {
                            assert(self.tables@[i] == old(self).tables@[i]);
                        }
                    }
                    assert forall|i: int, j: int| 0 <= i < j < es2.len() implies es2[i].0
                        != es2[j].0 by {
                        assert(es2[i].0 == es[i].0 && es2[j].0 == es[j].0);
                    }
                    assert forall|i: int| 0 <= i < es2.len() implies lower_seq(#[trigger] es2[i].0)
                        == es2[i].0 by {
                        assert(es2[i].0 == es[i].0);
                    }
                    assert forall|i: int, r: int|
                        0 <= i < es2.len() && 0 <= r < es2[i].1.rows.len() implies (
                        #[trigger] es2[i].1.rows[r]).0 < self.next_row_id by {
                        if i != k {
                            assert(es2[i] == es[i]);
                        } else if r < es[k as int].1.rows.len() {
                            assert(es2[i].1.rows[r] == es[k as int].1.rows[r]);
                        }
                    }
                }
                Ok(())
            },
            Err(m) => {
                proof {
                    assert(self.tables@ =~= old(self).tables@);
                    assert(self.entries() =~= es);
                }
                Err(m)
            },
        }
    }

    /// The rows of the table named `table_name` (any letter case),
    /// projected on the named columns.
    pub fn select(&self, table_name: &str, columns: &[String]) -> (r: Result<Vec<Row>, String>)
        requires
            self.wf(),
        ensures
            ({
                let key = lower_seq(table_name@);
                let t = self@.tables[key];
                let names = strings_view(columns@);
                if !self@.tables.contains_key(key) {
                    r matches Err(m) && m@ == table_not_found_message(table_name@)
                } else if !all_found(t.columns, names) {
                    r matches Err(m) && m@ == column_not_found_message()
                } else {
                    r matches Ok(v) && rows_view(v@) == select_rows(t, names)
                }
            }),
    {
        match self.get_table(table_name) {
            Err(m) => Err(m),
            Ok(t) => t.select(columns),
        }
    }

    /// The table named `table_name` (any letter case).
    pub fn get_table(&self, table_name: &str) -> (r: Result<&Table, String>)
        requires
            self.wf(),
        ensures
            ({
                let key = lower_seq(table_name@);
                if self@.tables.contains_key(key) {
                    r matches Ok(t) && t@ == self@.tables[key] && t.wf()
                } else {
                    r matches Err(m) && m@ == table_not_found_message(table_name@)
                }
            }),
    {
        let key = CaseInsensitiveString::new(table_name);
        match self.find(&key) {
            None => Err(not_found(table_name)),
            Some(k) => {
                proof {
                    lemma_entries_map_at(self.entries(), k as int);
                }
                Ok(&self.tables[k].1)
            },
        }
    }

    /// The counter from which the next row id is drawn.
    pub fn next_row_id(&self) -> (r: usize)
        ensures
            r == self@.next_row_id,
    {
        self.next_row_id
    }

    /// The tables with their folded names.
    pub fn tables(&self) -> (r: &Vec<(CaseInsensitiveString, Table)>)
        ensures
            r@.map_values(|e: (CaseInsensitiveString, Table)| (e.0.0@, e.1@)) == self.entries(),
    {
        &self.tables
    }
}

/// Every row id stored in any table is below the counter.
pub open spec fn ids_below_counter(d: DatabaseView) -> bool {
    forall|key: Seq<char>, i: int|
        d.tables.contains_key(key) && 0 <= i < d.tables[key].rows.len() ==> (
        #[trigger] d.tables[key].rows[i]).0 < d.next_row_id
}

impl Database {
    /// A well-formed database keeps every stored row id below its counter.
    pub proof fn lemma_ids_below_counter(&self)
        requires
            self.wf(),
        ensures
            ids_below_counter(self@),
    {
        let es = self.entries();
        assert forall|key: Seq<char>, i: int|
            self@.tables.contains_key(key) && 0 <= i < self@.tables[key].rows.len() implies (
            #[trigger] self@.tables[key].rows[i]).0 < self@.next_row_id by {
            lemma_entries_map_domain(es, key);
            let k = choose|k: int| 0 <= k < es.len() && es[k].0 == key;
            lemma_entries_map_at(es, k);
            assert(es[k].1.rows[i].0 < self.next_row_id);
        }
    }
}

/// Row ids are handed out fresh and in increasing order, whatever the table:
/// a successful insert stores its row under the old counter value, which
/// exceeds every id already stored in any table, and moves the counter up by
/// one, so the invariant holds again for the next insert.
pub proof fn lemma_insert_ids_increase(
    d0: DatabaseView,
    name: Seq<char>,
    vals: Seq<ValueView>,
    r: Result<(), String>,
    d1: DatabaseView,
)
    requires
        ids_below_counter(d0),
        insert_outcome(d0, name, vals, r, d1),
        r is Ok,
    ensures
        d1.tables[lower_seq(name)].rows.last().0 == d0.next_row_id,
        forall|key: Seq<char>, i: int|
            d0.tables.contains_key(key) && 0 <= i < d0.tables[key].rows.len() ==> (
            #[trigger] d0.tables[key].rows[i]).0 < d1.tables[lower_seq(name)].rows.last().0,
        d1.next_row_id == d0.next_row_id + 1,
        ids_below_counter(d1),
{
    let key = lower_seq(name);
    assert forall|k: Seq<char>, i: int|
        d1.tables.contains_key(k) && 0 <= i < d1.tables[k].rows.len() implies (
        #[trigger] d1.tables[k].rows[i]).0 < d1.next_row_id by {
        if k != key {
            assert(d1.tables[k] == d0.tables[k]);
        } else if i < d0.tables[key].rows.len() {
            assert(d1.tables[k].rows[i] == d0.tables[key].rows[i]);
        }
    }
}

/// Table names are case-insensitive: after creating a table under `a`, a
/// name `b` that folds to the same text finds that new, empty table.
pub proof fn lemma_create_then_find(
    d0: DatabaseView,
    a: Seq<char>,
    b: Seq<char>,
    columns: Seq<ColumnView>,
    d1: DatabaseView,
)
    requires
        d1.tables == d0.tables.insert(lower_seq(a), empty_table(columns)),
        lower_seq(a) == lower_seq(b),
    ensures
        d1.tables.contains_key(lower_seq(b)),
        d1.tables[lower_seq(b)] == empty_table(columns),
{
}


/// What restoring the row `(row_id, vals)` into the table named `name` does
/// to a database: the id must be below the counter and above every id of
/// that table; the counter does not move.
pub open spec fn restore_outcome(
    old: DatabaseView,
    name: Seq<char>,
    row_id: usize,
    vals: Seq<ValueView>,
    r: Result<(), String>,
    new: DatabaseView,
) -> bool {
    let key = lower_seq(name);
    let t = old.tables[key];
    if !old.tables.contains_key(key) {
        r matches Err(m) && m@ == table_not_found_message(name) && new == old
    } else if row_id >= old.next_row_id || !(forall|i: int|
        0 <= i < t.rows.len() ==> (#[trigger] t.rows[i]).0 < row_id) {
        r matches Err(m) && m@ == id_out_of_order_message() && new == old
    } else if vals.len() != t.columns.len() {
        r matches Err(m) && m@ == arity_message() && new == old
    } else if !row_fits(t.columns, vals) {
        r matches Err(m) && new == old && exists|k: int|
            first_mismatch(t.columns, vals, k) && m@ == type_mismatch_message(t.columns[k].name)
    } else {
        r is Ok && new == DatabaseView {
            tables: old.tables.insert(key, with_row(t, row_id, vals)),
            next_row_id: old.next_row_id,
        }
    }
}

pub open spec fn id_out_of_order_message() -> Seq<char> {
    "Row id out of order"@
}

impl Database {
    /// An empty database whose counter starts at `next_row_id`; used to
    /// rebuild a saved database together with `restore_row`.
    pub fn with_next_row_id(next_row_id: usize) -> (r: Database)
        ensures
            r.wf(),
            r@.tables == Map::<Seq<char>, TableView>::empty(),
            r@.next_row_id == next_row_id,
    {
        let d = Database { tables: Vec::new(), next_row_id };
        assert(d.entries() =~= Seq::empty());
        d
    }

    /// Puts back a saved row under its own id, which must be below the
    /// counter and above every id already in that table.
    pub fn restore_row(&mut self, table_name: &str, row_id: usize, values: Vec<Value>) -> (r: Result<
        (),
        String,
    >)
        requires
            old(self).wf(),
        ensures
            final(self).wf(),
            restore_outcome(old(self)@, table_name@, row_id, values_view(values@), r, final(self)@),
    {
        let key = CaseInsensitiveString::new(table_name);
        let k = match self.find(&key) {
            None => return Err(not_found(table_name)),
            Some(k) => k,
        };
        let ghost es = self.entries();
        proof {
            lemma_entries_map_at(es, k as int);
            assert(es[k as int].1 == self.tables@[k as int].1@);
        }
        let last = self.tables[k].1.last_row_id();
        let in_order = match last {
            None => row_id < self.next_row_id,
            Some(id) => id < row_id && row_id < self.next_row_id,
        };
        if !in_order {
            return Err(String::from_str("Row id out of order"));
        }
        let res = self.tables[k].1.insert_row(row_id, values);
        match res {
            Ok(()) => {
                proof {
                    let es2 = self.entries();
                    assert(es2 =~= es.update(k as int, (es[k as int].0, es2[k as int].1)));
                    lemma_entries_map_update(es, k as int, es2[k as int].1);
                    assert forall|i: int| 0 <= i < self.tables@.len() implies (
                    #[trigger] self.tables@[i]).1.wf() by {
                        if i != k {
                            assert(self.tables@[i] == old(self).tables@[i]);
                        }
                    }
                    assert forall|i: int, j: int| 0 <= i < j < es2.len() implies es2[i].0
                        != es2[j].0 by {
                        assert(es2[i].0 == es[i].0 && es2[j].0 == es[j].0);
                    }
                    assert forall|i: int| 0 <= i < es2.len() implies lower_seq(#[trigger] es2[i].0)
                        == es2[i].0 by {
                        assert(es2[i].0 == es[i].0);
                    }
                    assert forall|i: int, r: int|
                        0 <= i < es2.len() && 0 <= r < es2[i].1.rows.len() implies (
                        #[trigger] es2[i].1.rows[r]).0 < self.next_row_id by {
                        if i != k {
                            assert(es2[i] == es[i]);
                        } else if r < es[k as int].1.rows.len() {
                            assert(es2[i].1.rows[r] == es[k as int].1.rows[r]);
                        }
                    }
                }
                Ok(())
            },
            Err(m) => {
                proof {
                    assert(self.tables@ =~= old(self).tables@);
                    assert(self.entries() =~= es);
                }
                Err(m)
            },
        }
    }
}

} // verus!
