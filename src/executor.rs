use vstd::prelude::*;

use crate::command::{columns_view, strings_view, SqlCommand};
use crate::data_types::{lower_seq, Value, ValueView};
use crate::database::{empty_table, insert_outcome, Database, DatabaseView, table_not_found_message};
use crate::table::{all_found, column_not_found_message, rows_view, select_rows, values_view, Row};
use crate::tokenizer::{chars_of, digits_to_i64, digits_value, is_digit};

verus! {

/// What a successfully executed command reports.
#[derive(Debug, Clone, PartialEq)]
pub enum ExecOutcome {
    TableCreated(String),
    RowInserted(String),
    Rows(Vec<Row>),
}

/// The value that a literal's raw text stands for: a run of decimal digits
/// that fits in an `i64` is an integer, anything else is text.
pub open spec fn literal_value(s: Seq<char>) -> ValueView {
    if s.len() > 0 && (forall|i: int| 0 <= i < s.len() ==> is_digit(#[trigger] s[i]))
        && digits_value(s) <= i64::MAX {
        ValueView::Integer(digits_value(s) as i64)
    } else {
        ValueView::Text(s)
    }
}

/// The values of a list of literals.
pub open spec fn literal_values(texts: Seq<Seq<char>>) -> Seq<ValueView> {
    texts.map_values(|s: Seq<char>| literal_value(s))
}

fn all_digits(s: &String) -> (r: bool)
    ensures
        r == (forall|i: int| 0 <= i < s@.len() ==> is_digit(#[trigger] s@[i])),
{
    let n = s.as_str().unicode_len();
    let mut i: usize = 0;
    while i < n
        invariant
            i <= n,
            n == s@.len(),
            forall|j: int| 0 <= j < i ==> is_digit(#[trigger] s@[j]),
        decreases n - i,
    {
        let c = s.as_str().get_char(i);
        if !('0' <= c && c <= '9') {
            return false;
        }
        i = i + 1;
    }
    true
}

/// Converts a literal's raw text to a value.
pub fn literal_to_value(s: &String) -> (r: Value)
    ensures
        r@ == literal_value(s@),
{
    let n = s.as_str().unicode_len();
    if n > 0 && all_digits(s) {
        let chars = chars_of(s.as_str());
        assert(chars@.subrange(0, n as int) =~= s@);
        if let Some(v) = digits_to_i64(&chars, 0, n) {
            return Value::Integer(v);
        }
    }
    Value::Text(s.clone())
}

fn literals_to_values(texts: &Vec<String>) -> (r: Vec<Value>)
    ensures
        values_view(r@) == literal_values(strings_view(texts@)),
{
    let mut out: Vec<Value> = Vec::new();
    let mut i: usize = 0;
    while i < texts.len()
        invariant
            i <= texts@.len(),
            values_view(out@) == literal_values(strings_view(texts@)).take(i as int),
        decreases texts@.len() - i,
    {
        let v = literal_to_value(&texts[i]);
        let ghost prev = out@;
        out.push(v);
        proof {
            let want = literal_values(strings_view(texts@));
            assert(values_view(out@) =~= values_view(prev).push(v@));
            assert(want.take(i + 1) =~= want.take(i as int).push(want[i as int]));
        }
        i = i + 1;
    }
    assert(literal_values(strings_view(texts@)).take(texts@.len() as int) =~= literal_values(
        strings_view(texts@),
    ));
    out
}

impl Database {
    /// Runs a parsed command. CREATE TABLE replaces any table of the same
    /// folded name; INSERT stores its literals, in the order given, as the
    /// values of a new row; SELECT returns the projected rows (its WHERE
    /// conditions are not applied).
    pub fn execute(&mut self, command: SqlCommand) -> (r: Result<ExecOutcome, String>)
        requires
            old(self).wf(),
        ensures
            final(self).wf(),
            match command {
                SqlCommand::CreateTable { name, columns } => r matches Ok(ExecOutcome::TableCreated(
                    n,
                )) && n@ == name@ && final(self)@ == (DatabaseView {
                    tables: old(self)@.tables.insert(
                        lower_seq(name@),
                        empty_table(columns_view(columns@)),
                    ),
                    next_row_id: old(self)@.next_row_id,
                }),
                SqlCommand::Insert { table, columns, values } => exists|inner: Result<(), String>|
                    insert_outcome(
                        old(self)@,
                        table@,
                        literal_values(strings_view(values@)),
                        inner,
                        final(self)@,
                    ) && match inner {
                        Ok(_) => r matches Ok(ExecOutcome::RowInserted(n)) && n@ == table@,
                        Err(m) => r matches Err(x) && x@ == m@,
                    },
                SqlCommand::Select { table, columns, where_clause, join_clause } => {
                    let key = lower_seq(table@);
                    let t = old(self)@.tables[key];
                    let names = strings_view(columns@);
                    &&& final(self)@ == old(self)@
                    &&& if !old(self)@.tables.contains_key(key) {
                        r matches Err(m) && m@ == table_not_found_message(table@)
                    } else if !all_found(t.columns, names) {
                        r matches Err(m) && m@ == column_not_found_message()
                    } else {
                        r matches Ok(ExecOutcome::Rows(v)) && rows_view(v@) == select_rows(t, names)
                    }
                },
            },
    {
        match command {
            SqlCommand::CreateTable { name, columns } => {
                let reported = name.clone();
                self.create_table(name, columns);
                Ok(ExecOutcome::TableCreated(reported))
            },
            SqlCommand::Insert { table, columns, values } => {
                let vals = literals_to_values(&values);
                let inner = self.insert_row(table.as_str(), vals);
                match inner {
                    Ok(()) => Ok(ExecOutcome::RowInserted(table)),
                    Err(m) => Err(m),
                }
            },
            SqlCommand::Select { table, columns, where_clause, join_clause } => {
                match self.select(table.as_str(), columns.as_slice()) {
                    Ok(rows) => Ok(ExecOutcome::Rows(rows)),
                    Err(m) => Err(m),
                }
            },
        }
    }
}

} // verus!
