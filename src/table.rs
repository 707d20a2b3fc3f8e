use vstd::prelude::*;

use crate::command::{columns_view, strings_view};
use crate::data_types::{
    decimal_of, i64_to_decimal, lemma_value_order, value_fits, value_lt, Column, ColumnView, Value, ValueView};

verus! {

/// One stored row: a value per column, in column order.
#[derive(Debug, Clone, PartialEq)]
pub struct Row {
    pub values: Vec<Value>,
}

pub open spec fn values_view(v: Seq<Value>) -> Seq<ValueView> {
    v.map_values(|x: Value| x@)
}

impl View for Row {
    type V = Seq<ValueView>;

    open spec fn view(&self) -> Seq<ValueView> {
        values_view(self.values@)
    }
}

pub open spec fn rows_view(v: Seq<Row>) -> Seq<Seq<ValueView>> {
    v.map_values(|r: Row| r@)
}

/// One bucket of a column's secondary index: a value and the ids of the rows
/// that hold it in that column, in ascending id order.
#[derive(Debug, Clone)]
pub struct IndexBucket {
    pub value: Value,
    pub row_ids: Vec<usize>,
}

pub open spec fn buckets_view(bs: Seq<IndexBucket>) -> Seq<(ValueView, Seq<usize>)> {
    bs.map_values(|b: IndexBucket| (b.value@, b.row_ids@))
}

/// No two buckets hold the same value.
pub open spec fn distinct_values(bs: Seq<(ValueView, Seq<usize>)>) -> bool {
    forall|i: int, j: int| 0 <= i < j < bs.len() ==> bs[i].0 != bs[j].0
}

/// Buckets in strictly ascending value order.
pub open spec fn sorted_values(bs: Seq<(ValueView, Seq<usize>)>) -> bool {
    forall|i: int, j: int| 0 <= i < j < bs.len() ==> value_lt(bs[i].0, bs[j].0)
}

/// The ids that the index holds for `v`; empty when it has no bucket for `v`.
pub open spec fn bucket_ids(bs: Seq<(ValueView, Seq<usize>)>, v: ValueView) -> Seq<usize> {
    if exists|k: int| 0 <= k < bs.len() && bs[k].0 == v {
        bs[choose|k: int| 0 <= k < bs.len() && bs[k].0 == v].1
    } else {
        Seq::empty()
    }
}

/// Mathematical view of a table: its schema and its rows, keyed by row id,
/// in ascending id order.
pub struct TableView {
    pub columns: Seq<ColumnView>,
    pub rows: Seq<(usize, Seq<ValueView>)>,
}

/// Whether `vals` is a valid row for the schema `cols`: one value per column,
/// each of its column's declared type.
pub open spec fn row_fits(cols: Seq<ColumnView>, vals: Seq<ValueView>) -> bool {
    vals.len() == cols.len() && forall|i: int|
        0 <= i < vals.len() ==> value_fits(#[trigger] vals[i], cols[i].data_type)
}

/// Ids of the rows whose value in column `c` is `v`, in row order.
pub open spec fn matching_ids(rows: Seq<(usize, Seq<ValueView>)>, c: int, v: ValueView) -> Seq<
    usize,
>
    decreases rows.len(),
{
    if rows.len() == 0 {
        Seq::empty()
    } else {
        let prev = matching_ids(rows.drop_last(), c, v);
        if rows.last().1[c] == v {
            prev.push(rows.last().0)
        } else {
            prev
        }
    }
}

/// Position of the first column named `name`; `cols.len()` when there is none.
pub open spec fn first_position(cols: Seq<ColumnView>, name: Seq<char>) -> int
    decreases cols.len(),
{
    if cols.len() == 0 {
        0
    } else if cols[0].name == name {
        0
    } else {
        1 + first_position(cols.drop_first(), name)
    }
}

/// Whether every name in `names` is the name of a column.
pub open spec fn all_found(cols: Seq<ColumnView>, names: Seq<Seq<char>>) -> bool {
    forall|k: int| 0 <= k < names.len() ==> first_position(cols, #[trigger] names[k]) < cols.len()
}

/// The values of `vals` at the columns named `names`, in that order.
pub open spec fn project(cols: Seq<ColumnView>, names: Seq<Seq<char>>, vals: Seq<ValueView>) -> Seq<
    ValueView,
> {
    names.map_values(|n: Seq<char>| vals[first_position(cols, n)])
}

/// The rows of a table projected on the columns named `names`, in row order.
pub open spec fn select_rows(t: TableView, names: Seq<Seq<char>>) -> Seq<Seq<ValueView>> {
    t.rows.map_values(|r: (usize, Seq<ValueView>)| project(t.columns, names, r.1))
}

/// The names of all columns, in schema order.
pub open spec fn column_names(cols: Seq<ColumnView>) -> Seq<Seq<char>> {
    cols.map_values(|c: ColumnView| c.name)
}

/// `k` is the first position whose value does not fit its column's type.
pub open spec fn first_mismatch(cols: Seq<ColumnView>, vals: Seq<ValueView>, k: int) -> bool {
    &&& 0 <= k < vals.len()
    &&& !value_fits(vals[k], cols[k].data_type)
    &&& forall|j: int| 0 <= j < k ==> value_fits(#[trigger] vals[j], cols[j].data_type)
}

/// The table `t` with the row `(id, vals)` added after its other rows.
pub open spec fn with_row(t: TableView, id: usize, vals: Seq<ValueView>) -> TableView {
    TableView { columns: t.columns, rows: t.rows.push((id, vals)) }
}

pub open spec fn arity_message() -> Seq<char> {
    "Arity mismatch: number of values doesn't match number of columns"@
}

pub open spec fn type_mismatch_message(name: Seq<char>) -> Seq<char> {
    "Type mismatch for column '"@ + name + "'"@
}

pub open spec fn column_not_found_message() -> Seq<char> {
    "One or more columns not found"@
}

/// A table: a fixed schema, rows ordered by id, and one secondary index per
/// column mapping each stored value to the ids of the rows that hold it.
#[derive(Debug)]
pub struct Table {
    columns: Vec<Column>,
    data: Vec<(usize, Row)>,
    indexes: Vec<Vec<IndexBucket>>,
}

impl View for Table {
    type V = TableView;

    closed spec fn view(&self) -> TableView {
        TableView {
            columns: columns_view(self.columns@),
            rows: self.data@.map_values(|p: (usize, Row)| (p.0, p.1@)),
        }
    }
}

impl Table {
    /// The index of column `c`, as (value, row ids) pairs.
    pub closed spec fn index_view(&self, c: int) -> Seq<(ValueView, Seq<usize>)> {
        buckets_view(self.indexes@[c]@)
    }

    /// The table's invariant: ids ascend, every row fits the schema, and each
    /// column's index holds exactly the ids of the rows with each value.
    pub closed spec fn wf(&self) -> bool {
        let rows = self@.rows;
        let cols = self@.columns;
        &&& forall|i: int, j: int| 0 <= i < j < rows.len() ==> rows[i].0 < rows[j].0
        &&& forall|i: int| 0 <= i < rows.len() ==> row_fits(cols, #[trigger] rows[i].1)
        &&& self.indexes@.len() == cols.len()
        &&& forall|c: int| 0 <= c < cols.len() ==> distinct_values(#[trigger] self.index_view(c))
        &&& forall|c: int| 0 <= c < cols.len() ==> sorted_values(#[trigger] self.index_view(c))
        &&& forall|c: int, k: int|
            0 <= c < cols.len() && 0 <= k < self.index_view(c).len() ==> #[trigger] self.index_view(
                c,
            )[k].1.len() > 0
        &&& forall|c: int, v: ValueView|
            0 <= c < cols.len() ==> #[trigger] bucket_ids(self.index_view(c), v) == matching_ids(
                rows,
                c,
                v,
            )
    }

    /// An empty table with the given schema.
    pub fn new(columns: Vec<Column>) -> (r: Table)
        ensures
            r.wf(),
            r@.columns == columns_view(columns@),
            r@.rows.len() == 0,
    {
        let n = columns.len();
        let mut indexes: Vec<Vec<IndexBucket>> = Vec::new();
        let mut i: usize = 0;
        while i < n
            invariant
                i <= n,
                indexes@.len() == i,
                forall|c: int| 0 <= c < i ==> (#[trigger] indexes@[c])@.len() == 0,
            decreases n - i,
        {
            indexes.push(Vec::new());
            i = i + 1;
        }
        let t = Table { columns, data: Vec::new(), indexes };
        proof {
            assert(t@.rows =~= Seq::empty());
            assert forall|c: int, v: ValueView| 0 <= c < t@.columns.len() implies #[trigger] bucket_ids(
                t.index_view(c),
                v,
            ) == matching_ids(t@.rows, c, v) by {
                assert(t.index_view(c) =~= Seq::empty());
            }
        }
        t
    }
}

fn value_equal(a: &Value, b: &Value) -> (r: bool)
    ensures
        r == (a@ == b@),
{
    match (a, b) {
        (Value::Integer(x), Value::Integer(y)) => *x == *y,
        (Value::Text(s), Value::Text(t)) => s.eq(t),
        _ => false,
    }
}

proof fn lemma_bucket_at(bs: Seq<(ValueView, Seq<usize>)>, v: ValueView, k: int)
    requires
        distinct_values(bs),
        0 <= k < bs.len(),
        bs[k].0 == v,
    ensures
        bucket_ids(bs, v) == bs[k].1,
{
    let j = choose|j: int| 0 <= j < bs.len() && bs[j].0 == v;
    assert(bs[j].0 == v);
    assert(j == k);
}

proof fn lemma_matching_push(
    rows: Seq<(usize, Seq<ValueView>)>,
    r: (usize, Seq<ValueView>),
    c: int,
    v: ValueView,
)
    ensures
        matching_ids(rows.push(r), c, v) == (if r.1[c] == v {
            matching_ids(rows, c, v).push(r.0)
        } else {
            matching_ids(rows, c, v)
        }),
{
    assert(rows.push(r).drop_last() =~= rows);
}

/// Records `row_id` under `value` in one column's index, whose buckets are
/// kept in ascending value order.
fn index_add(buckets: &mut Vec<IndexBucket>, value: &Value, row_id: usize)
    requires
        distinct_values(buckets_view(old(buckets)@)),
        sorted_values(buckets_view(old(buckets)@)),
        forall|k: int|
            0 <= k < old(buckets)@.len() ==> (#[trigger] buckets_view(old(buckets)@)[k]).1.len() > 0,
    ensures
        distinct_values(buckets_view(final(buckets)@)),
        sorted_values(buckets_view(final(buckets)@)),
        forall|k: int|
            0 <= k < final(buckets)@.len() ==> (#[trigger] buckets_view(final(buckets)@)[k]).1.len()
                > 0,
        forall|v: ValueView| #[trigger] bucket_ids(buckets_view(final(buckets)@), v) == (if v == value@ {
            bucket_ids(buckets_view(old(buckets)@), v).push(row_id)
        } else {
            bucket_ids(buckets_view(old(buckets)@), v)
        }),
{
    let ghost before = buckets_view(buckets@);
    let n = buckets.len();
    let mut k: usize = 0;
    while k < n && buckets[k].value.less_than(value)
        invariant
            k <= n,
            n == buckets@.len(),
            buckets@ == old(buckets)@,
            before == buckets_view(old(buckets)@),
            forall|j: int| 0 <= j < k ==> value_lt(#[trigger] before[j].0, value@),
        decreases n - k,
    {
        k = k + 1;
    }
    proof {
        assert forall|j: int| 0 <= j < k implies #[trigger] before[j].0 != value@ by {
            lemma_value_order(value@, value@, value@);
        }
        assert forall|j: int| k <= j < n implies #[trigger] before[j].0 != value@ || j == k by {
            if j > k {
                assert(value_lt(before[k as int].0, before[j].0));
                assert(!value_lt(before[k as int].0, value@));
            }
        }
    }
    if k < n && value_equal(&buckets[k].value, value) {
        buckets[k].row_ids.push(row_id);
        proof {
            let after = buckets_view(buckets@);
            assert(before[k as int].0 == value@);
            assert(after =~= before.update(k as int, (value@, before[k as int].1.push(row_id))));
            assert forall|i: int, j: int| 0 <= i < j < after.len() implies after[i].0
                != after[j].0 && value_lt(after[i].0, after[j].0) by {
                assert(after[i].0 == before[i].0);
                assert(after[j].0 == before[j].0);
            }
            assert forall|v: ValueView| #[trigger] bucket_ids(after, v) == (if v == value@ {
                bucket_ids(before, v).push(row_id)
            } else {
                bucket_ids(before, v)
            }) by {
                if v == value@ {
                    lemma_bucket_at(before, v, k as int);
                    lemma_bucket_at(after, v, k as int);
                } else if exists|j: int| 0 <= j < before.len() && before[j].0 == v {
                    let j = choose|j: int| 0 <= j < before.len() && before[j].0 == v;
                    lemma_bucket_at(before, v, j);
                    lemma_bucket_at(after, v, j);
                } else {
                    assert(!exists|j: int| 0 <= j < after.len() && after[j].0 == v);
                }
            }
        }
        return;
    }
    let mut ids: Vec<usize> = Vec::new();
    ids.push(row_id);
    buckets.insert(k, IndexBucket { value: value.duplicate(), row_ids: ids });
    proof {
        let after = buckets_view(buckets@);
        let entry = (value@, seq![row_id]);
        assert(after =~= before.insert(k as int, entry));
        assert forall|j: int| 0 <= j < before.len() implies before[j].0 != value@ by {
            if j == k {
                assert(before[j].0 != value@);
            }
        }
        if k < n {
            lemma_value_order(before[k as int].0, value@, value@);
            assert(value_lt(value@, before[k as int].0));
        }
        assert forall|i: int, j: int| 0 <= i < j < after.len() implies after[i].0
            != after[j].0 && value_lt(after[i].0, after[j].0) by {
            if j < k {
                assert(after[i] == before[i] && after[j] == before[j]);
            } else if j == k {
                assert(after[i] == before[i]);
                assert(value_lt(before[i].0, value@));
            } else if i == k {
                assert(after[j] == before[j - 1]);
                if j - 1 > k {
                    assert(value_lt(before[k as int].0, before[j - 1].0));
                    lemma_value_order(value@, before[k as int].0, before[j - 1].0);
                }
            } else if i < k {
                assert(after[i] == before[i] && after[j] == before[j - 1]);
            } else {
                assert(after[i] == before[i - 1] && after[j] == before[j - 1]);
            }
        }
        assert forall|v: ValueView| #[trigger] bucket_ids(after, v) == (if v == value@ {
            bucket_ids(before, v).push(row_id)
        } else {
            bucket_ids(before, v)
        }) by {
            if v == value@ {
                lemma_bucket_at(after, v, k as int);
                assert(!exists|j: int| 0 <= j < before.len() && before[j].0 == v);
                assert(Seq::<usize>::empty().push(row_id) =~= seq![row_id]);
            } else if exists|j: int| 0 <= j < before.len() && before[j].0 == v {
                let j = choose|j: int| 0 <= j < before.len() && before[j].0 == v;
                lemma_bucket_at(before, v, j);
                if j < k {
                    lemma_bucket_at(after, v, j);
                } else {
                    assert(after[j + 1] == before[j]);
                    lemma_bucket_at(after, v, j + 1);
                }
            } else {
                assert forall|j: int| 0 <= j < after.len() implies after[j].0 != v by {
                    if j < k {
                        assert(after[j] == before[j]);
                    } else if j > k {
                        assert(after[j] == before[j - 1]);
                    }
                }
            }
        }
        assert forall|j: int| 0 <= j < after.len() implies (#[trigger] after[j]).1.len() > 0 by {
            if j < k {
                assert(after[j] == before[j]);
            } else if j > k {
                assert(after[j] == before[j - 1]);
            }
        }
    }
}

impl Table {
    /// Stores a row under `row_id`, which must exceed every id already in the
    /// table. Fails, leaving the table as it was, when the number of values
    /// differs from the number of columns or a value does not fit its
    /// column's type.
    pub fn insert_row(&mut self, row_id: usize, values: Vec<Value>) -> (r: Result<(), String>)
        requires
            old(self).wf(),
            forall|i: int| 0 <= i < old(self)@.rows.len() ==> (#[trigger] old(self)@.rows[i]).0 < row_id,
        ensures
            final(self).wf(),
            values@.len() != old(self)@.columns.len() ==> (r matches Err(m) && m@ == arity_message()
                && *final(self) == *old(self)),
            values@.len() == old(self)@.columns.len() && !row_fits(
                old(self)@.columns,
                values_view(values@),
            ) ==> (r matches Err(m) && *final(self) == *old(self) && exists|k: int|
                first_mismatch(old(self)@.columns, values_view(values@), k) && m@
                    == type_mismatch_message(old(self)@.columns[k].name)),
            row_fits(old(self)@.columns, values_view(values@)) ==> (r is Ok && final(self)@
                == with_row(old(self)@, row_id, values_view(values@))),
    {
        let n = self.columns.len();
        if values.len() != n {
            return Err(String::from_str(
                "Arity mismatch: number of values doesn't match number of columns",
            ));
        }
        let mut i: usize = 0;
        while i < n
            invariant
                i <= n,
                n == values@.len(),
                n == self.columns@.len(),
                self@.columns == columns_view(self.columns@),
                forall|j: int| 0 <= j < i ==> value_fits(#[trigger] values@[j]@, self@.columns[j].data_type),
                *self == *old(self),
                self.wf(),
            decreases n - i,
        {
            if !values[i].matches_type(&self.columns[i].data_type) {
                assert(first_mismatch(self@.columns, values_view(values@), i as int));
                let mut m = String::from_str("Type mismatch for column '");
                m.append(self.columns[i].name.as_str());
                m.append("'");
                return Err(m);
            }
            i = i + 1;
        }
        assert(row_fits(self@.columns, values_view(values@)));
        let ghost old_rows = self@.rows;
        let ghost new_row = (row_id, values_view(values@));
        let mut c: usize = 0;
        while c < n
            invariant
                c <= n,
                n == values@.len(),
                self.columns == old(self).columns,
                self.data == old(self).data,
                self.indexes@.len() == n,
                n == self.columns@.len(),
                old(self).wf(),
                old_rows == old(self)@.rows,
                new_row == (row_id, values_view(values@)),
                forall|d: int| c <= d < n ==> #[trigger] self.indexes@[d] == old(self).indexes@[d],
                forall|d: int| 0 <= d < n ==> distinct_values(#[trigger] self.index_view(d)),
                forall|d: int| 0 <= d < n ==> sorted_values(#[trigger] self.index_view(d)),
                forall|d: int, k: int|
                    0 <= d < n && 0 <= k < self.index_view(d).len() ==> #[trigger] self.index_view(
                        d,
                    )[k].1.len() > 0,
                forall|d: int, v: ValueView|
                    0 <= d < c ==> #[trigger] bucket_ids(self.index_view(d), v) == matching_ids(
                        old_rows.push(new_row),
                        d,
                        v,
                    ),
            decreases n - c,
        {
            let ghost before = self.index_view(c as int);
            assert(before == old(self).index_view(c as int));
            assert(old(self)@.columns.len() == n);
            let ghost idx0 = self.indexes@;
            assert forall|d: int| 0 <= d < n implies distinct_values(buckets_view(idx0[d]@))
                && sorted_values(buckets_view(idx0[d]@)) && (
            forall|k: int| 0 <= k < idx0[d]@.len() ==> #[trigger] buckets_view(idx0[d]@)[k].1.len()
                > 0) by {
                assert(self.index_view(d) == buckets_view(idx0[d]@));
                assert forall|k2: int| 0 <= k2 < idx0[d]@.len() implies #[trigger] buckets_view(
                    idx0[d]@,
                )[k2].1.len() > 0 by {
                    assert(self.index_view(d)[k2].1.len() > 0);
                }
            }
            assert forall|d: int, v: ValueView| 0 <= d < c implies #[trigger] bucket_ids(
                buckets_view(idx0[d]@),
                v,
            ) == matching_ids(old_rows.push(new_row), d, v) by {
                assert(self.index_view(d) == buckets_view(idx0[d]@));
                assert(bucket_ids(self.index_view(d), v) == matching_ids(old_rows.push(new_row), d, v));
            }
            index_add(&mut self.indexes[c], &values[c], row_id);
            proof {
                assert(self.indexes@ =~= idx0.update(c as int, self.indexes@[c as int]));
                assert forall|d: int| 0 <= d < n && d != c implies #[trigger] self.index_view(d)
                    == buckets_view(idx0[d]@) by {}
                assert forall|v: ValueView| #[trigger] bucket_ids(self.index_view(c as int), v)
                    == matching_ids(old_rows.push(new_row), c as int, v) by {
                    lemma_matching_push(old_rows, new_row, c as int, v);
                    assert(old(self).index_view(c as int) == before);
                    assert(bucket_ids(before, v) == matching_ids(old_rows, c as int, v));
                }
            }
            c = c + 1;
        }
        let ghost idx = self.indexes@;
        assert forall|d: int| 0 <= d < n implies #[trigger] distinct_values(buckets_view(idx[d]@))
            && sorted_values(buckets_view(idx[d]@)) && forall|k: int|
            0 <= k < idx[d]@.len() ==> #[trigger] buckets_view(idx[d]@)[k].1.len() > 0 by {
            assert(self.index_view(d) == buckets_view(idx[d]@));
            assert forall|k: int| 0 <= k < idx[d]@.len() implies #[trigger] buckets_view(
                idx[d]@,
            )[k].1.len() > 0 by {
                assert(self.index_view(d)[k].1.len() > 0);
            }
        }
        assert forall|d: int| 0 <= d < n implies #[trigger] self.index_view(d) == buckets_view(
            idx[d]@,
        ) by {}
        assert forall|d: int, v: ValueView| 0 <= d < n implies #[trigger] bucket_ids(
            buckets_view(idx[d]@),
            v,
        ) == matching_ids(old_rows.push(new_row), d, v) by {
            assert(self.index_view(d) == buckets_view(idx[d]@));
        }
        self.data.push((row_id, Row { values }));
        proof {
            assert forall|d: int| 0 <= d < n implies #[trigger] self.index_view(d) == buckets_view(
                idx[d]@,
            ) by {}
            assert(self@.rows =~= old_rows.push(new_row));
            assert(self@.columns == old(self)@.columns);
            let rows = self@.rows;
            assert forall|i: int, j: int| 0 <= i < j < rows.len() implies rows[i].0 < rows[j].0 by {
                if j == rows.len() - 1 {
                    assert(old_rows[i].0 < row_id);
                } else {
                    assert(old_rows[i].0 < old_rows[j].0);
                }
            }
            assert forall|i: int| 0 <= i < rows.len() implies row_fits(self@.columns, #[trigger] rows[i].1) by {
                if i < rows.len() - 1 {
                    assert(rows[i] == old_rows[i]);
                }
            }
            assert(self.indexes@.len() == self@.columns.len());
            assert forall|d: int| 0 <= d < n implies distinct_values(#[trigger] self.index_view(d)) by {
                assert(self.index_view(d) == buckets_view(idx[d]@));
            }
            assert forall|d: int| 0 <= d < n implies sorted_values(#[trigger] self.index_view(d)) by {
                assert(self.index_view(d) == buckets_view(idx[d]@));
            }
            assert forall|d: int, k: int|
                0 <= d < n && 0 <= k < self.index_view(d).len() implies #[trigger] self.index_view(
                    d,
                )[k].1.len() > 0 by {
                assert(self.index_view(d) == buckets_view(idx[d]@));
                assert(buckets_view(idx[d]@)[k].1.len() > 0);
            }
            assert forall|d: int, v: ValueView| 0 <= d < n implies #[trigger] bucket_ids(
                self.index_view(d),
                v,
            ) == matching_ids(rows, d, v) by {
                assert(self.index_view(d) == buckets_view(idx[d]@));
            }
        }
        Ok(())
    }
}

proof fn lemma_first_position(cols: Seq<ColumnView>, name: Seq<char>, i: int)
    requires
        0 <= i <= cols.len(),
        forall|j: int| 0 <= j < i ==> (#[trigger] cols[j]).name != name,
        i == cols.len() || cols[i].name == name,
    ensures
        first_position(cols, name) == i,
    decreases i,
{
    if i > 0 {
        let t = cols.drop_first();
        assert forall|j: int| 0 <= j < i - 1 implies (#[trigger] t[j]).name != name by {
            assert(t[j] == cols[j + 1]);
        }
        if i < cols.len() {
            assert(t[i - 1] == cols[i]);
        }
        lemma_first_position(t, name, i - 1);
    }
}

/// Position of the first column named `name`.
fn find_column(cols: &Vec<Column>, name: &String) -> (r: Option<usize>)
    ensures
        match r {
            Some(i) => i == first_position(columns_view(cols@), name@) && i < cols@.len(),
            None => first_position(columns_view(cols@), name@) == cols@.len(),
        },
{
    let ghost cv = columns_view(cols@);
    let n = cols.len();
    let mut i: usize = 0;
    while i < n
        invariant
            i <= n,
            n == cols@.len(),
            cv == columns_view(cols@),
            forall|j: int| 0 <= j < i ==> (#[trigger] cv[j]).name != name@,
        decreases n - i,
    {
        if cols[i].name.eq(name) {
            proof {
                lemma_first_position(cv, name@, i as int);
            }
            return Some(i);
        }
        i = i + 1;
    }
    proof {
        lemma_first_position(cv, name@, n as int);
    }
    None
}

/// The text of a value: an integer in decimal, a text as it is.
pub open spec fn value_text(v: ValueView) -> Seq<char> {
    match v {
        ValueView::Integer(i) => decimal_of(i as int),
        ValueView::Text(s) => s,
    }
}

/// Renders a value as text.
pub fn value_to_string(value: &Value) -> (r: String)
    ensures
        r@ == value_text(value@),
{
    match value {
        Value::Integer(i) => i64_to_decimal(*i),
        Value::Text(s) => s.clone(),
    }
}

fn copy_ids(src: &Vec<usize>) -> (r: Vec<usize>)
    ensures
        r@ == src@,
{
    let mut ids: Vec<usize> = Vec::new();
    let mut j: usize = 0;
    while j < src.len()
        invariant
            j <= src@.len(),
            ids@ == src@.take(j as int),
        decreases src@.len() - j,
    {
        ids.push(src[j]);
        j = j + 1;
        assert(ids@ =~= src@.take(j as int));
    }
    assert(ids@ =~= src@);
    ids
}

impl Table {
    /// The rows, projected on the named columns (in the order given), in
    /// ascending row-id order. Fails when a name is not a column's.
    pub fn select(&self, columns: &[String]) -> (r: Result<Vec<Row>, String>)
        requires
            self.wf(),
        ensures
            all_found(self@.columns, strings_view(columns@)) ==> (r matches Ok(v) && rows_view(v@)
                == select_rows(self@, strings_view(columns@))),
            !all_found(self@.columns, strings_view(columns@)) ==> (r matches Err(m) && m@
                == column_not_found_message()),
    {
        let ghost names = strings_view(columns@);
        let ghost cols = self@.columns;
        let nc = columns.len();
        let mut positions: Vec<usize> = Vec::new();
        let mut k: usize = 0;
        while k < nc
            invariant
                k <= nc,
                nc == columns@.len(),
                names == strings_view(columns@),
                cols == self@.columns,
                cols == columns_view(self.columns@),
                positions@.len() == k,
                forall|j: int|
                    0 <= j < k ==> #[trigger] positions@[j] == first_position(cols, names[j])
                        && positions@[j] < cols.len(),
            decreases nc - k,
        {
            match find_column(&self.columns, &columns[k]) {
                Some(p) => {
                    positions.push(p);
                },
                None => {
                    assert(first_position(cols, names[k as int]) == cols.len());
                    return Err(String::from_str("One or more columns not found"));
                },
            }
            k = k + 1;
        }
        assert forall|j: int| 0 <= j < names.len() implies first_position(cols, #[trigger] names[j])
            < cols.len() by {
            assert(positions@[j] == first_position(cols, names[j]));
        }
        let ghost expected = select_rows(self@, names);
        let nr = self.data.len();
        let mut out: Vec<Row> = Vec::new();
        let mut i: usize = 0;
        while i < nr
            invariant
                i <= nr,
                nr == self.data@.len(),
                self.wf(),
                names == strings_view(columns@),
                cols == self@.columns,
                positions@.len() == nc,
                nc == names.len(),
                forall|j: int|
                    0 <= j < nc ==> #[trigger] positions@[j] == first_position(cols, names[j])
                        && positions@[j] < cols.len(),
                expected == select_rows(self@, names),
                rows_view(out@) == expected.take(i as int),
            decreases nr - i,
        {
            let row = &self.data[i].1;
            assert(self@.rows[i as int].1 == row@);
            assert(expected[i as int] == project(cols, names, row@));
            assert(row_fits(cols, self@.rows[i as int].1));
            let mut vals: Vec<Value> = Vec::new();
            let mut k: usize = 0;
            while k < nc
                invariant
                    k <= nc,
                    positions@.len() == nc,
                    nc == names.len(),
                    row@.len() == cols.len(),
                    i < nr,
                    nr == self@.rows.len(),
                    row@ == self@.rows[i as int].1,
                    forall|j: int|
                        0 <= j < nc ==> #[trigger] positions@[j] == first_position(cols, names[j])
                            && positions@[j] < cols.len(),
                    values_view(vals@) == project(cols, names, row@).take(k as int),
                decreases nc - k,
            {
                let p = positions[k];
                let v = row.values[p].duplicate();
                assert(project(cols, names, row@)[k as int] == row@[p as int]);
                assert(row@[p as int] == v@);
                let ghost prev = vals@;
                let ghost pr = project(cols, names, row@);
                vals.push(v);
                assert(values_view(vals@) =~= values_view(prev).push(v@));
                assert(pr.take(k + 1) =~= pr.take(k as int).push(pr[k as int]));
                k = k + 1;
            }
            assert(project(cols, names, row@).take(nc as int) =~= project(cols, names, row@));
            let new_row = Row { values: vals };
            assert(new_row@ == expected[i as int]);
            let ghost prev_out = out@;
            out.push(new_row);
            assert(rows_view(out@) =~= rows_view(prev_out).push(new_row@));
            assert(expected.take(i + 1) =~= expected.take(i as int).push(expected[i as int]));
            i = i + 1;
        }
        assert(expected.take(nr as int) =~= expected);
        Ok(out)
    }

    /// The schema.
    pub fn get_columns(&self) -> (r: &Vec<Column>)
        ensures
            columns_view(r@) == self@.columns,
    {
        &self.columns
    }

    /// The stored rows with their ids, in ascending id order.
    pub fn rows(&self) -> (r: &Vec<(usize, Row)>)
        ensures
            r@.map_values(|p: (usize, Row)| (p.0, p.1@)) == self@.rows,
    {
        &self.data
    }

    /// Number of stored rows.
    pub fn row_count(&self) -> (r: usize)
        ensures
            r == self@.rows.len(),
    {
        self.data.len()
    }

    /// Ids of the rows holding `value` in the column named `column`, read
    /// from that column's index; `None` when no column has that name.
    pub fn lookup(&self, column: &String, value: &Value) -> (r: Option<Vec<usize>>)
        requires
            self.wf(),
        ensures
            ({
                let c = first_position(self@.columns, column@);
                if c < self@.columns.len() {
                    r matches Some(ids) && ids@ == matching_ids(self@.rows, c, value@)
                } else {
                    r is None
                }
            }),
    {
        let c = match find_column(&self.columns, column) {
            Some(c) => c,
            None => return None,
        };
        let buckets = &self.indexes[c];
        let ghost bv = buckets_view(buckets@);
        assert(bv == self.index_view(c as int));
        assert(distinct_values(bv));
        assert(bucket_ids(bv, value@) == matching_ids(self@.rows, c as int, value@));
        let n = buckets.len();
        let mut k: usize = 0;
        while k < n
            invariant
                k <= n,
                n == buckets@.len(),
                bv == buckets_view(buckets@),
                distinct_values(bv),
                bucket_ids(bv, value@) == matching_ids(self@.rows, c as int, value@),
                c == first_position(self@.columns, column@),
                c < self@.columns.len(),
                forall|j: int| 0 <= j < k ==> bv[j].0 != value@,
            decreases n - k,
        {
            if value_equal(&buckets[k].value, value) {
                let ids = copy_ids(&buckets[k].row_ids);
                proof {
                    assert(bv[k as int].0 == value@);
                    assert(bv[k as int].1 == ids@);
                    lemma_bucket_at(bv, value@, k as int);
                }
                return Some(ids);
            }
            k = k + 1;
        }
        assert(bucket_ids(bv, value@) == Seq::<usize>::empty());
        Some(Vec::new())
    }
}

proof fn lemma_first_position_at_most(cols: Seq<ColumnView>, k: int)
    requires
        0 <= k < cols.len(),
    ensures
        first_position(cols, cols[k].name) <= k,
    decreases k,
{
    if k > 0 && cols[0].name != cols[k].name {
        lemma_first_position_at_most(cols.drop_first(), k - 1);
        assert(cols.drop_first()[k - 1] == cols[k]);
    }
}

/// Selecting every column after inserting a valid row `vals` yields one
/// more row than before, and the last of them is `vals` projected on the
/// schema's column names (the row itself when those names are distinct).
pub proof fn lemma_insert_then_select_all(t: TableView, id: usize, vals: Seq<ValueView>)
    requires
        row_fits(t.columns, vals),
    ensures
        all_found(t.columns, column_names(t.columns)),
        select_rows(with_row(t, id, vals), column_names(t.columns)).len() == select_rows(
            t,
            column_names(t.columns),
        ).len() + 1,
        select_rows(with_row(t, id, vals), column_names(t.columns)).last() == project(
            t.columns,
            column_names(t.columns),
            vals,
        ),
        select_rows(with_row(t, id, vals), column_names(t.columns)).contains(
            project(t.columns, column_names(t.columns), vals),
        ),
{
    let names = column_names(t.columns);
    assert forall|k: int| 0 <= k < names.len() implies first_position(t.columns, #[trigger] names[k])
        < t.columns.len() by {
        lemma_first_position_at_most(t.columns, k);
    }
    let after = select_rows(with_row(t, id, vals), names);
    assert(after[after.len() - 1] == project(t.columns, names, vals));
}

/// With distinct column names, projecting a row on all of them gives the row
/// back.
pub proof fn lemma_project_all_distinct(cols: Seq<ColumnView>, vals: Seq<ValueView>)
    requires
        vals.len() == cols.len(),
        forall|i: int, j: int| 0 <= i < j < cols.len() ==> cols[i].name != cols[j].name,
    ensures
        project(cols, column_names(cols), vals) == vals,
{
    assert forall|k: int| 0 <= k < cols.len() implies first_position(cols, #[trigger] cols[k].name)
        == k by {
        lemma_first_position(cols, cols[k].name, k);
    }
    assert(project(cols, column_names(cols), vals) =~= vals);
}

impl Table {
    /// The largest row id stored, if any.
    pub fn last_row_id(&self) -> (r: Option<usize>)
        requires
            self.wf(),
        ensures
            r is None <==> self@.rows.len() == 0,
            r matches Some(id) ==> forall|i: int|
                0 <= i < self@.rows.len() ==> (#[trigger] self@.rows[i]).0 <= id,
            r matches Some(id) ==> exists|i: int| 0 <= i < self@.rows.len() && self@.rows[i].0 == id,
    {
        let n = self.data.len();
        if n == 0 {
            None
        } else {
            let id = self.data[n - 1].0;
            assert(self@.rows[n - 1].0 == id);
            assert forall|i: int| 0 <= i < self@.rows.len() implies (#[trigger] self@.rows[i]).0
                <= id by {
                if i < n - 1 {
                    assert(self@.rows[i].0 < self@.rows[n - 1].0);
                }
            }
            Some(id)
        }
    }
}

} // verus!
