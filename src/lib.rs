//! A small SQL front end and row store: a tokenizer, a recursive-descent
//! parser producing typed commands, and a catalog of tables with per-column
//! secondary indexes.

pub mod command;
pub mod data_types;
pub mod database;
pub mod executor;
pub mod parser;
pub mod table;
pub mod tokenizer;

pub use command::{process_sql, Condition, Join, SqlCommand};
pub use data_types::{CaseInsensitiveString, Column, DataType, ForeignKey, Keyword, Value};
pub use database::Database;
pub use executor::{literal_to_value, ExecOutcome};
pub use parser::{parse, parse_create_table, parse_insert, parse_select};
pub use table::{value_to_string, Row, Table};
pub use tokenizer::{render_tokens, tokenize, Token};
