use vstd::prelude::*;

use crate::data_types::{Column, ColumnView};
use crate::parser::{parse, parse_result_ok, parse_spec};
use crate::tokenizer::{lex, lex_error_message, tokenize};

verus! {

/// A comparison in a WHERE clause, as raw operand text.
#[derive(Debug, Clone, PartialEq)]
pub enum Condition {
    Comparison { left: String, operator: String, right: String },
}

pub enum ConditionView {
    Comparison { left: Seq<char>, operator: Seq<char>, right: Seq<char> },
}

impl View for Condition {
    type V = ConditionView;

    open spec fn view(&self) -> ConditionView {
        match self {
            Condition::Comparison { left, operator, right } => ConditionView::Comparison {
                left: left@,
                operator: operator@,
                right: right@,
            },
        }
    }
}

/// A join between two tables (recognized by the grammar, never built).
#[derive(Debug, Clone, PartialEq)]
pub enum Join {
    InnerJoin { table_a: String, table_b: String },
}

pub enum JoinView {
    InnerJoin { table_a: Seq<char>, table_b: Seq<char> },
}

impl View for Join {
    type V = JoinView;

    open spec fn view(&self) -> JoinView {
        match self {
            Join::InnerJoin { table_a, table_b } => JoinView::InnerJoin {
                table_a: table_a@,
                table_b: table_b@,
            },
        }
    }
}

/// A parsed statement.
#[derive(Debug, Clone, PartialEq)]
pub enum SqlCommand {
    CreateTable { name: String, columns: Vec<Column> },
    Insert { table: String, columns: Vec<String>, values: Vec<String> },
    Select {
        table: String,
        columns: Vec<String>,
        where_clause: Option<Vec<Condition>>,
        join_clause: Option<Vec<Join>>,
    },
}

pub enum CommandView {
    CreateTable { name: Seq<char>, columns: Seq<ColumnView> },
    Insert { table: Seq<char>, columns: Seq<Seq<char>>, values: Seq<Seq<char>> },
    Select {
        table: Seq<char>,
        columns: Seq<Seq<char>>,
        where_clause: Option<Seq<ConditionView>>,
        join_clause: Option<Seq<JoinView>>,
    },
}

pub open spec fn strings_view(v: Seq<String>) -> Seq<Seq<char>> {
    v.map_values(|s: String| s@)
}

pub open spec fn columns_view(v: Seq<Column>) -> Seq<ColumnView> {
    v.map_values(|c: Column| c@)
}

pub open spec fn conditions_view(v: Seq<Condition>) -> Seq<ConditionView> {
    v.map_values(|c: Condition| c@)
}

pub open spec fn joins_view(v: Seq<Join>) -> Seq<JoinView> {
    v.map_values(|j: Join| j@)
}

impl View for SqlCommand {
    type V = CommandView;

    open spec fn view(&self) -> CommandView {
        match self {
            SqlCommand::CreateTable { name, columns } => CommandView::CreateTable {
                name: name@,
                columns: columns_view(columns@),
            },
            SqlCommand::Insert { table, columns, values } => CommandView::Insert {
                table: table@,
                columns: strings_view(columns@),
                values: strings_view(values@),
            },
            SqlCommand::Select { table, columns, where_clause, join_clause } => CommandView::Select {
                table: table@,
                columns: strings_view(columns@),
                where_clause: match where_clause {
                    Some(c) => Some(conditions_view(c@)),
                    None => None,
                },
                join_clause: match join_clause {
                    Some(j) => Some(joins_view(j@)),
                    None => None,
                },
            },
        }
    }
}

/// What processing a statement text yields: its command, or the message of
/// the first lexing or parsing error.
pub open spec fn process_spec(text: Seq<char>, r: Result<SqlCommand, String>) -> bool {
    match lex(text) {
        Ok(ts) => parse_result_ok(r, parse_spec(ts)),
        Err(e) => r matches Err(m) && m@ == lex_error_message(e),
    }
}

/// Tokenizes and parses one statement.
pub fn process_sql(input: &str) -> (r: Result<SqlCommand, String>)
    ensures
        process_spec(input@, r),
{
    match tokenize(input) {
        Ok(tokens) => parse(tokens.as_slice()),
        Err(e) => Err(e),
    }
}

} // verus!
