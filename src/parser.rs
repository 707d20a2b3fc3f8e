use vstd::prelude::*;

use crate::command::{
    columns_view, conditions_view, strings_view, CommandView, Condition, ConditionView, SqlCommand,
};
use crate::data_types::{decimal_of, i64_to_decimal, Column, ColumnView, Keyword};
use crate::tokenizer::{
    lemma_lex_render, lex, lexable_token, render, tokens_view, LexError, Token, TokenView,
};

verus! {

/// Why a token sequence is not a statement of the grammar.
#[derive(Debug, Clone, Copy, PartialEq, Eq, Structural)]
pub enum ParseError {
    InvalidCommand,
    UnsupportedCommand,
    ExpectedCreateTable,
    ExpectedTableName,
    ExpectedOpenParen,
    ExpectedColumnName,
    ExpectedDataType,
    ExpectedCommaOrClose,
    TrailingTokens,
    ExpectedInsert,
    ExpectedInto,
    ExpectedValues,
    ExpectedValue,
    CountMismatch,
    ExpectedSelect,
    ExpectedSelectItem,
    ExpectedCommaOrFrom,
    ExpectedOperand,
    ExpectedOperator,
    ExpectedEqualsAfterBang,
    JoinUnsupported,
}

pub open spec fn parse_error_message(e: ParseError) -> Seq<char> {
    match e {
        ParseError::InvalidCommand => "Invalid SQL command"@,
        ParseError::UnsupportedCommand => "Unable to parse token: unsupported command."@,
        ParseError::ExpectedCreateTable => "Parser: unexpected token. Expected CREATE TABLE keywords"@,
        ParseError::ExpectedTableName => "Expected table name"@,
        ParseError::ExpectedOpenParen => "Parser: expected '('"@,
        ParseError::ExpectedColumnName => "Parser: expected a column name"@,
        ParseError::ExpectedDataType => "Expected a data type after column name"@,
        ParseError::ExpectedCommaOrClose => "Parser: expected ',' or ')'"@,
        ParseError::TrailingTokens => "Parser: unexpected tokens after end of statement"@,
        ParseError::ExpectedInsert => "Expected INSERT keyword"@,
        ParseError::ExpectedInto => "Expected INTO keyword"@,
        ParseError::ExpectedValues => "Expected VALUES keyword"@,
        ParseError::ExpectedValue => "Parser: expected a literal value"@,
        ParseError::CountMismatch => "Parser: number of values does not match number of columns"@,
        ParseError::ExpectedSelect => "Expected SELECT keyword"@,
        ParseError::ExpectedSelectItem => "Parser: expected '*' or a column name"@,
        ParseError::ExpectedCommaOrFrom => "Expected column name or FROM keyword"@,
        ParseError::ExpectedOperand => "Parser: expected identifier or value in WHERE clause"@,
        ParseError::ExpectedOperator => "Parser: expected comparison operator in WHERE clause"@,
        ParseError::ExpectedEqualsAfterBang => "Parser: expected '=' after '!' in WHERE clause"@,
        ParseError::JoinUnsupported => "Parser: JOIN is not supported"@,
    }
}

impl ParseError {
    /// The text reported for this error.
    pub fn message(&self) -> (r: String)
        ensures
            r@ == parse_error_message(*self),
    {
        let s = match self {
            ParseError::InvalidCommand => "Invalid SQL command",
            ParseError::UnsupportedCommand => "Unable to parse token: unsupported command.",
            ParseError::ExpectedCreateTable => "Parser: unexpected token. Expected CREATE TABLE keywords",
            ParseError::ExpectedTableName => "Expected table name",
            ParseError::ExpectedOpenParen => "Parser: expected '('",
            ParseError::ExpectedColumnName => "Parser: expected a column name",
            ParseError::ExpectedDataType => "Expected a data type after column name",
            ParseError::ExpectedCommaOrClose => "Parser: expected ',' or ')'",
            ParseError::TrailingTokens => "Parser: unexpected tokens after end of statement",
            ParseError::ExpectedInsert => "Expected INSERT keyword",
            ParseError::ExpectedInto => "Expected INTO keyword",
            ParseError::ExpectedValues => "Expected VALUES keyword",
            ParseError::ExpectedValue => "Parser: expected a literal value",
            ParseError::CountMismatch => "Parser: number of values does not match number of columns",
            ParseError::ExpectedSelect => "Expected SELECT keyword",
            ParseError::ExpectedSelectItem => "Parser: expected '*' or a column name",
            ParseError::ExpectedCommaOrFrom => "Expected column name or FROM keyword",
            ParseError::ExpectedOperand => "Parser: expected identifier or value in WHERE clause",
            ParseError::ExpectedOperator => "Parser: expected comparison operator in WHERE clause",
            ParseError::ExpectedEqualsAfterBang => "Parser: expected '=' after '!' in WHERE clause",
            ParseError::JoinUnsupported => "Parser: JOIN is not supported",
        };
        String::from_str(s)
    }
}

/// A parse outcome as the public functions report it: the command, or the
/// error's message.
pub open spec fn parse_result_ok(
    r: Result<SqlCommand, String>,
    s: Result<CommandView, ParseError>,
) -> bool {
    match s {
        Ok(c) => r matches Ok(v) && v@ == c,
        Err(e) => r matches Err(m) && m@ == parse_error_message(e),
    }
}

/// The token at position `i`, if there is one.
pub open spec fn tok(ts: Seq<TokenView>, i: int) -> Option<TokenView> {
    if 0 <= i < ts.len() {
        Some(ts[i])
    } else {
        None
    }
}

/// The end of a statement at `i`: nothing, or a single semicolon.
pub open spec fn end_spec(ts: Seq<TokenView>, i: int) -> Result<(), ParseError> {
    if i >= ts.len() || (tok(ts, i) == Some(TokenView::Semicolon) && i + 1 >= ts.len()) {
        Ok(())
    } else {
        Err(ParseError::TrailingTokens)
    }
}

/// `name type (, name type)* )` from `i`: the columns and the position
/// after the closing parenthesis.
pub open spec fn column_defs_spec(ts: Seq<TokenView>, i: int) -> Result<
    (Seq<ColumnView>, int),
    ParseError,
>
    decreases ts.len() - i,
{
    match tok(ts, i) {
        Some(TokenView::Identifier(name)) => match tok(ts, i + 1) {
            Some(TokenView::DataType(d)) => {
                let col = ColumnView { name, data_type: d };
                if tok(ts, i + 2) == Some(TokenView::Symbol(',')) {
                    match column_defs_spec(ts, i + 3) {
                        Ok((cs, j)) => Ok((seq![col] + cs, j)),
                        Err(e) => Err(e),
                    }
                } else if tok(ts, i + 2) == Some(TokenView::Symbol(')')) {
                    Ok((seq![col], i + 3))
                } else {
                    Err(ParseError::ExpectedCommaOrClose)
                }
            },
            _ => Err(ParseError::ExpectedDataType),
        },
        _ => Err(ParseError::ExpectedColumnName),
    }
}

/// `CREATE TABLE name ( column definitions ) [;]`
pub open spec fn create_spec(ts: Seq<TokenView>) -> Result<CommandView, ParseError> {
    if tok(ts, 0) != Some(TokenView::Keyword(Keyword::Create)) || tok(ts, 1) != Some(
        TokenView::Keyword(Keyword::Table),
    ) {
        Err(ParseError::ExpectedCreateTable)
    } else {
        match tok(ts, 2) {
            Some(TokenView::Identifier(name)) => if tok(ts, 3) != Some(TokenView::Symbol('(')) {
                Err(ParseError::ExpectedOpenParen)
            } else {
                match column_defs_spec(ts, 4) {
                    Err(e) => Err(e),
                    Ok((cols, j)) => match end_spec(ts, j) {
                        Err(e) => Err(e),
                        Ok(_) => Ok(CommandView::CreateTable { name, columns: cols }),
                    },
                }
            },
            _ => Err(ParseError::ExpectedTableName),
        }
    }
}

/// `name (, name)* )` from `i`.
pub open spec fn name_list_spec(ts: Seq<TokenView>, i: int) -> Result<
    (Seq<Seq<char>>, int),
    ParseError,
>
    decreases ts.len() - i,
{
    match tok(ts, i) {
        Some(TokenView::Identifier(name)) => if tok(ts, i + 1) == Some(TokenView::Symbol(',')) {
            match name_list_spec(ts, i + 2) {
                Ok((ns, j)) => Ok((seq![name] + ns, j)),
                Err(e) => Err(e),
            }
        } else if tok(ts, i + 1) == Some(TokenView::Symbol(')')) {
            Ok((seq![name], i + 2))
        } else {
            Err(ParseError::ExpectedCommaOrClose)
        },
        _ => Err(ParseError::ExpectedColumnName),
    }
}

/// One literal of a VALUES list at `i`, as raw text, and the position after
/// it: a number, a string, a bare word, or a word between `'` symbols.
pub open spec fn literal_spec(ts: Seq<TokenView>, i: int) -> Option<(Seq<char>, int)> {
    match tok(ts, i) {
        Some(TokenView::Number(n)) => Some((decimal_of(n as int), i + 1)),
        Some(TokenView::String(s)) => Some((s, i + 1)),
        Some(TokenView::Identifier(s)) => Some((s, i + 1)),
        Some(TokenView::Symbol(q)) => if q == '\'' && tok(ts, i + 2) == Some(
            TokenView::Symbol('\''),
        ) {
            match tok(ts, i + 1) {
                Some(TokenView::Identifier(s)) => Some((s, i + 3)),
                _ => None,
            }
        } else {
            None
        },
        _ => None,
    }
}

/// `literal (, literal)* )` from `i`.
pub open spec fn value_list_spec(ts: Seq<TokenView>, i: int) -> Result<
    (Seq<Seq<char>>, int),
    ParseError,
>
    decreases ts.len() - i,
{
    match literal_spec(ts, i) {
        Some((v, k)) => if tok(ts, k) == Some(TokenView::Symbol(',')) {
            match value_list_spec(ts, k + 1) {
                Ok((vs, j)) => Ok((seq![v] + vs, j)),
                Err(e) => Err(e),
            }
        } else if tok(ts, k) == Some(TokenView::Symbol(')')) {
            Ok((seq![v], k + 1))
        } else {
            Err(ParseError::ExpectedCommaOrClose)
        },
        None => Err(ParseError::ExpectedValue),
    }
}

/// `INSERT INTO name ( names ) VALUES ( literals ) [;]`, with as many
/// literals as names.
pub open spec fn insert_spec(ts: Seq<TokenView>) -> Result<CommandView, ParseError> {
    if tok(ts, 0) != Some(TokenView::Keyword(Keyword::Insert)) {
        Err(ParseError::ExpectedInsert)
    } else if tok(ts, 1) != Some(TokenView::Keyword(Keyword::Into)) {
        Err(ParseError::ExpectedInto)
    } else {
        match tok(ts, 2) {
            Some(TokenView::Identifier(table)) => if tok(ts, 3) != Some(TokenView::Symbol('(')) {
                Err(ParseError::ExpectedOpenParen)
            } else {
                match name_list_spec(ts, 4) {
                    Err(e) => Err(e),
                    Ok((cols, j)) => if tok(ts, j) != Some(TokenView::Keyword(Keyword::Values)) {
                        Err(ParseError::ExpectedValues)
                    } else if tok(ts, j + 1) != Some(TokenView::Symbol('(')) {
                        Err(ParseError::ExpectedOpenParen)
                    } else {
                        match value_list_spec(ts, j + 2) {
                            Err(e) => Err(e),
                            Ok((vals, k)) => match end_spec(ts, k) {
                                Err(e) => Err(e),
                                Ok(_) => if cols.len() != vals.len() {
                                    Err(ParseError::CountMismatch)
                                } else {
                                    Ok(CommandView::Insert { table, columns: cols, values: vals })
                                },
                            },
                        }
                    },
                }
            },
            _ => Err(ParseError::ExpectedTableName),
        }
    }
}

/// `item (, item)* FROM` from `i`, where an item is a name, a quoted name or
/// `*`; the position returned is the one after FROM.
pub open spec fn select_items_spec(ts: Seq<TokenView>, i: int) -> Result<
    (Seq<Seq<char>>, int),
    ParseError,
>
    decreases ts.len() - i,
{
    let item: Option<Seq<char>> = match tok(ts, i) {
        Some(TokenView::Identifier(n)) => Some(n),
        Some(TokenView::QuotedIdentifier(n)) => Some(n),
        Some(TokenView::Symbol(c)) => if c == '*' {
            Some("*"@)
        } else {
            None
        },
        _ => None,
    };
    match item {
        None => Err(ParseError::ExpectedSelectItem),
        Some(n) => if tok(ts, i + 1) == Some(TokenView::Symbol(',')) {
            match select_items_spec(ts, i + 2) {
                Ok((ns, j)) => Ok((seq![n] + ns, j)),
                Err(e) => Err(e),
            }
        } else if tok(ts, i + 1) == Some(TokenView::Keyword(Keyword::From)) {
            Ok((seq![n], i + 2))
        } else {
            Err(ParseError::ExpectedCommaOrFrom)
        },
    }
}

/// An operand of a comparison at `i`, as raw text.
pub open spec fn operand_spec(ts: Seq<TokenView>, i: int) -> Option<Seq<char>> {
    match tok(ts, i) {
        Some(TokenView::Identifier(n)) => Some(n),
        Some(TokenView::QuotedIdentifier(n)) => Some(n),
        Some(TokenView::String(s)) => Some(s),
        Some(TokenView::Number(n)) => Some(decimal_of(n as int)),
        _ => None,
    }
}

/// A comparison operator at `i`, and the position after it.
pub open spec fn operator_spec(ts: Seq<TokenView>, i: int) -> Result<(Seq<char>, int), ParseError> {
    match tok(ts, i) {
        Some(TokenView::Symbol(c)) => if c == '=' {
            Ok(("="@, i + 1))
        } else if c == '>' {
            Ok((">"@, i + 1))
        } else if c == '<' {
            Ok(("<"@, i + 1))
        } else if c == '!' {
            if tok(ts, i + 1) == Some(TokenView::Symbol('=')) {
                Ok(("!="@, i + 2))
            } else {
                Err(ParseError::ExpectedEqualsAfterBang)
            }
        } else {
            Err(ParseError::ExpectedOperator)
        },
        _ => Err(ParseError::ExpectedOperator),
    }
}

/// `condition ((AND | OR) condition)*` from `i`; the position returned is
/// the first one after the last condition.
pub open spec fn conditions_spec(ts: Seq<TokenView>, i: int) -> Result<
    (Seq<ConditionView>, int),
    ParseError,
>
    decreases ts.len() - i,
{
    match operand_spec(ts, i) {
        None => Err(ParseError::ExpectedOperand),
        Some(left) => match operator_spec(ts, i + 1) {
            Err(e) => Err(e),
            Ok((op, k)) => match operand_spec(ts, k) {
                None => Err(ParseError::ExpectedOperand),
                Some(right) => {
                    let c = ConditionView::Comparison { left, operator: op, right };
                    if (tok(ts, k + 1) == Some(TokenView::Keyword(Keyword::And)) || tok(ts, k + 1)
                        == Some(TokenView::Keyword(Keyword::Or))) {
                        match conditions_spec(ts, k + 2) {
                            Ok((cs, j)) => Ok((seq![c] + cs, j)),
                            Err(e) => Err(e),
                        }
                    } else {
                        Ok((seq![c], k + 1))
                    }
                },
            },
        },
    }
}

/// What may follow a SELECT's table name and WHERE clause at `k`.
pub open spec fn select_tail_spec(ts: Seq<TokenView>, k: int, cmd: CommandView) -> Result<
    CommandView,
    ParseError,
> {
    if tok(ts, k) == Some(TokenView::Keyword(Keyword::Join)) {
        Err(ParseError::JoinUnsupported)
    } else {
        match end_spec(ts, k) {
            Ok(_) => Ok(cmd),
            Err(e) => Err(e),
        }
    }
}

/// `SELECT items FROM name [WHERE conditions] [;]`
pub open spec fn select_spec(ts: Seq<TokenView>) -> Result<CommandView, ParseError> {
    if tok(ts, 0) != Some(TokenView::Keyword(Keyword::Select)) {
        Err(ParseError::ExpectedSelect)
    } else {
        match select_items_spec(ts, 1) {
            Err(e) => Err(e),
            Ok((cols, j)) => match tok(ts, j) {
                Some(TokenView::Identifier(table)) => if tok(ts, j + 1) == Some(
                    TokenView::Keyword(Keyword::Where),
                ) {
                    match conditions_spec(ts, j + 2) {
                        Err(e) => Err(e),
                        Ok((conds, k)) => select_tail_spec(
                            ts,
                            k,
                            CommandView::Select {
                                table,
                                columns: cols,
                                where_clause: Some(conds),
                                join_clause: None,
                            },
                        ),
                    }
                } else {
                    select_tail_spec(
                        ts,
                        j + 1,
                        CommandView::Select {
                            table,
                            columns: cols,
                            where_clause: None,
                            join_clause: None,
                        },
                    )
                },
                _ => Err(ParseError::ExpectedTableName),
            },
        }
    }
}

/// The command of a token sequence, chosen by its first token.
pub open spec fn parse_spec(ts: Seq<TokenView>) -> Result<CommandView, ParseError> {
    match tok(ts, 0) {
        Some(TokenView::Keyword(k)) => if k == Keyword::Create {
            create_spec(ts)
        } else if k == Keyword::Insert {
            insert_spec(ts)
        } else if k == Keyword::Select {
            select_spec(ts)
        } else {
            Err(ParseError::UnsupportedCommand)
        },
        _ => Err(ParseError::InvalidCommand),
    }
}

fn symbol_at(tokens: &[Token], i: usize, c: char) -> (r: bool)
    ensures
        r == (tok(tokens_view(tokens@), i as int) == Some(TokenView::Symbol(c))),
{
    if i < tokens.len() {
        match &tokens[i] {
            Token::Symbol(d) => *d == c,
            _ => false,
        }
    } else {
        false
    }
}

fn keyword_at(tokens: &[Token], i: usize, k: Keyword) -> (r: bool)
    ensures
        r == (tok(tokens_view(tokens@), i as int) == Some(TokenView::Keyword(k))),
{
    if i < tokens.len() {
        match &tokens[i] {
            Token::Keyword(x) => *x == k,
            _ => false,
        }
    } else {
        false
    }
}

fn end_at(tokens: &[Token], i: usize) -> (r: Result<(), ParseError>)
    ensures
        r == end_spec(tokens_view(tokens@), i as int),
{
    if i >= tokens.len() {
        Ok(())
    } else {
        match &tokens[i] {
            Token::Semicolon => if i + 1 >= tokens.len() {
                Ok(())
            } else {
                Err(ParseError::TrailingTokens)
            },
            _ => Err(ParseError::TrailingTokens),
        }
    }
}

fn parse_column_defs(tokens: &[Token], i: usize) -> (r: Result<(Vec<Column>, usize), ParseError>)
    ensures
        match column_defs_spec(tokens_view(tokens@), i as int) {
            Ok((cs, j)) => r matches Ok((v, k)) && columns_view(v@) == cs && k == j,
            Err(e) => r matches Err(x) && x == e,
        },
    decreases tokens.len() - i,
{
    if i >= tokens.len() {
        return Err(ParseError::ExpectedColumnName);
    }
    match &tokens[i] {
        Token::Identifier(name) => {
            if i + 1 >= tokens.len() {
                return Err(ParseError::ExpectedDataType);
            }
            match &tokens[i + 1] {
                Token::DataType(d) => {
                    let col = Column { name: name.clone(), data_type: *d };
                    if symbol_at(tokens, i + 2, ',') {
                        match parse_column_defs(tokens, i + 3) {
                            Ok((rest, j)) => {
                                let mut v = rest;
                                v.insert(0, col);
                                assert(columns_view(v@) =~= seq![col@] + columns_view(rest@));
                                Ok((v, j))
                            },
                            Err(e) => Err(e),
                        }
                    } else if symbol_at(tokens, i + 2, ')') {
                        let mut v: Vec<Column> = Vec::new();
                        v.push(col);
                        assert(columns_view(v@) =~= seq![col@]);
                        Ok((v, i + 3))
                    } else {
                        Err(ParseError::ExpectedCommaOrClose)
                    }
                },
                _ => Err(ParseError::ExpectedDataType),
            }
        },
        _ => Err(ParseError::ExpectedColumnName),
    }
}

/// Parses `CREATE TABLE name (col type, ...) [;]`.
pub fn parse_create_table(tokens: &[Token]) -> (r: Result<SqlCommand, String>)
    ensures
        parse_result_ok(r, create_spec(tokens_view(tokens@))),
{
    if !keyword_at(tokens, 0, Keyword::Create) || !keyword_at(tokens, 1, Keyword::Table) {
        return Err(ParseError::ExpectedCreateTable.message());
    }
    if tokens.len() <= 2 {
        return Err(ParseError::ExpectedTableName.message());
    }
    let name = match &tokens[2] {
        Token::Identifier(n) => n.clone(),
        _ => return Err(ParseError::ExpectedTableName.message()),
    };
    if !symbol_at(tokens, 3, '(') {
        return Err(ParseError::ExpectedOpenParen.message());
    }
    match parse_column_defs(tokens, 4) {
        Err(e) => Err(e.message()),
        Ok((columns, j)) => match end_at(tokens, j) {
            Err(e) => Err(e.message()),
            Ok(_) => Ok(SqlCommand::CreateTable { name, columns }),
        },
    }
}

fn parse_name_list(tokens: &[Token], i: usize) -> (r: Result<(Vec<String>, usize), ParseError>)
    ensures
        match name_list_spec(tokens_view(tokens@), i as int) {
            Ok((ns, j)) => r matches Ok((v, k)) && strings_view(v@) == ns && k == j,
            Err(e) => r matches Err(x) && x == e,
        },
    decreases tokens.len() - i,
{
    if i >= tokens.len() {
        return Err(ParseError::ExpectedColumnName);
    }
    match &tokens[i] {
        Token::Identifier(name) => {
            let n = name.clone();
            if symbol_at(tokens, i + 1, ',') {
                match parse_name_list(tokens, i + 2) {
                    Ok((rest, j)) => {
                        let mut v = rest;
                        v.insert(0, n);
                        assert(strings_view(v@) =~= seq![n@] + strings_view(rest@));
                        Ok((v, j))
                    },
                    Err(e) => Err(e),
                }
            } else if symbol_at(tokens, i + 1, ')') {
                let mut v: Vec<String> = Vec::new();
                v.push(n);
                assert(strings_view(v@) =~= seq![n@]);
                Ok((v, i + 2))
            } else {
                Err(ParseError::ExpectedCommaOrClose)
            }
        },
        _ => Err(ParseError::ExpectedColumnName),
    }
}

fn literal_at(tokens: &[Token], i: usize) -> (r: Option<(String, usize)>)
    ensures
        match literal_spec(tokens_view(tokens@), i as int) {
            Some((s, k)) => r matches Some((t, m)) && t@ == s && m == k,
            None => r is None,
        },
{
    if i >= tokens.len() {
        return None;
    }
    match &tokens[i] {
        Token::Number(n) => Some((i64_to_decimal(*n), i + 1)),
        Token::String(s) => Some((s.clone(), i + 1)),
        Token::Identifier(s) => Some((s.clone(), i + 1)),
        Token::Symbol(q) => {
            if *q == '\'' && i + 1 < tokens.len() && symbol_at(tokens, i + 2, '\'') {
                match &tokens[i + 1] {
                    Token::Identifier(s) => Some((s.clone(), i + 3)),
                    _ => None,
                }
            } else {
                None
            }
        },
        _ => None,
    }
}

fn parse_value_list(tokens: &[Token], i: usize) -> (r: Result<(Vec<String>, usize), ParseError>)
    ensures
        match value_list_spec(tokens_view(tokens@), i as int) {
            Ok((vs, j)) => r matches Ok((v, k)) && strings_view(v@) == vs && k == j,
            Err(e) => r matches Err(x) && x == e,
        },
    decreases tokens.len() - i,
{
    match literal_at(tokens, i) {
        None => Err(ParseError::ExpectedValue),
        Some((lit, k)) => {
            if symbol_at(tokens, k, ',') {
                match parse_value_list(tokens, k + 1) {
                    Ok((rest, j)) => {
                        let mut v = rest;
                        v.insert(0, lit);
                        assert(strings_view(v@) =~= seq![lit@] + strings_view(rest@));
                        Ok((v, j))
                    },
                    Err(e) => Err(e),
                }
            } else if symbol_at(tokens, k, ')') {
                let mut v: Vec<String> = Vec::new();
                v.push(lit);
                assert(strings_view(v@) =~= seq![lit@]);
                Ok((v, k + 1))
            } else {
                Err(ParseError::ExpectedCommaOrClose)
            }
        },
    }
}

/// Parses `INSERT INTO name (col, ...) VALUES (literal, ...) [;]`.
pub fn parse_insert(tokens: &[Token]) -> (r: Result<SqlCommand, String>)
    ensures
        parse_result_ok(r, insert_spec(tokens_view(tokens@))),
{
    if !keyword_at(tokens, 0, Keyword::Insert) {
        return Err(ParseError::ExpectedInsert.message());
    }
    if !keyword_at(tokens, 1, Keyword::Into) {
        return Err(ParseError::ExpectedInto.message());
    }
    if tokens.len() <= 2 {
        return Err(ParseError::ExpectedTableName.message());
    }
    let table = match &tokens[2] {
        Token::Identifier(n) => n.clone(),
        _ => return Err(ParseError::ExpectedTableName.message()),
    };
    if !symbol_at(tokens, 3, '(') {
        return Err(ParseError::ExpectedOpenParen.message());
    }
    let (columns, j) = match parse_name_list(tokens, 4) {
        Err(e) => return Err(e.message()),
        Ok(p) => p,
    };
    if !keyword_at(tokens, j, Keyword::Values) {
        return Err(ParseError::ExpectedValues.message());
    }
    if !symbol_at(tokens, j + 1, '(') {
        return Err(ParseError::ExpectedOpenParen.message());
    }
    let (values, k) = match parse_value_list(tokens, j + 2) {
        Err(e) => return Err(e.message()),
        Ok(p) => p,
    };
    if let Err(e) = end_at(tokens, k) {
        return Err(e.message());
    }
    if columns.len() != values.len() {
        return Err(ParseError::CountMismatch.message());
    }
    Ok(SqlCommand::Insert { table, columns, values })
}

fn parse_select_items(tokens: &[Token], i: usize) -> (r: Result<(Vec<String>, usize), ParseError>)
    ensures
        match select_items_spec(tokens_view(tokens@), i as int) {
            Ok((ns, j)) => r matches Ok((v, k)) && strings_view(v@) == ns && k == j,
            Err(e) => r matches Err(x) && x == e,
        },
    decreases tokens.len() - i,
{
    if i >= tokens.len() {
        return Err(ParseError::ExpectedSelectItem);
    }
    let item = match &tokens[i] {
        Token::Identifier(n) => n.clone(),
        Token::QuotedIdentifier(n) => n.clone(),
        Token::Symbol(c) => {
            if *c == '*' {
                String::from_str("*")
            } else {
                return Err(ParseError::ExpectedSelectItem);
            }
        },
        _ => return Err(ParseError::ExpectedSelectItem),
    };
    if symbol_at(tokens, i + 1, ',') {
        match parse_select_items(tokens, i + 2) {
            Ok((rest, j)) => {
                let mut v = rest;
                v.insert(0, item);
                assert(strings_view(v@) =~= seq![item@] + strings_view(rest@));
                Ok((v, j))
            },
            Err(e) => Err(e),
        }
    } else if keyword_at(tokens, i + 1, Keyword::From) {
        let mut v: Vec<String> = Vec::new();
        v.push(item);
        assert(strings_view(v@) =~= seq![item@]);
        Ok((v, i + 2))
    } else {
        Err(ParseError::ExpectedCommaOrFrom)
    }
}

fn operand_at(tokens: &[Token], i: usize) -> (r: Option<String>)
    ensures
        match operand_spec(tokens_view(tokens@), i as int) {
            Some(s) => r matches Some(t) && t@ == s,
            None => r is None,
        },
{
    if i >= tokens.len() {
        return None;
    }
    match &tokens[i] {
        Token::Identifier(n) => Some(n.clone()),
        Token::QuotedIdentifier(n) => Some(n.clone()),
        Token::String(s) => Some(s.clone()),
        Token::Number(n) => Some(i64_to_decimal(*n)),
        _ => None,
    }
}

fn operator_at(tokens: &[Token], i: usize) -> (r: Result<(String, usize), ParseError>)
    ensures
        match operator_spec(tokens_view(tokens@), i as int) {
            Ok((s, k)) => r matches Ok((t, m)) && t@ == s && m == k,
            Err(e) => r matches Err(x) && x == e,
        },
{
    if i >= tokens.len() {
        return Err(ParseError::ExpectedOperator);
    }
    match &tokens[i] {
        Token::Symbol(c) => {
            if *c == '=' {
                Ok((String::from_str("="), i + 1))
            } else if *c == '>' {
                Ok((String::from_str(">"), i + 1))
            } else if *c == '<' {
                Ok((String::from_str("<"), i + 1))
            } else if *c == '!' {
                if symbol_at(tokens, i + 1, '=') {
                    Ok((String::from_str("!="), i + 2))
                } else {
                    Err(ParseError::ExpectedEqualsAfterBang)
                }
            } else {
                Err(ParseError::ExpectedOperator)
            }
        },
        _ => Err(ParseError::ExpectedOperator),
    }
}

/// Parses the comparisons of a WHERE clause that starts at `i`. AND and OR
/// both separate comparisons; neither is given a meaning here.
fn parse_where_clause(tokens: &[Token], i: usize) -> (r: Result<(Vec<Condition>, usize), ParseError>)
    ensures
        match conditions_spec(tokens_view(tokens@), i as int) {
            Ok((cs, j)) => r matches Ok((v, k)) && conditions_view(v@) == cs && k == j,
            Err(e) => r matches Err(x) && x == e,
        },
    decreases tokens.len() - i,
{
    let left = match operand_at(tokens, i) {
        None => return Err(ParseError::ExpectedOperand),
        Some(l) => l,
    };
    let (operator, k) = match operator_at(tokens, i + 1) {
        Err(e) => return Err(e),
        Ok(p) => p,
    };
    let right = match operand_at(tokens, k) {
        None => return Err(ParseError::ExpectedOperand),
        Some(x) => x,
    };
    let c = Condition::Comparison { left, operator, right };
    if keyword_at(tokens, k + 1, Keyword::And) || keyword_at(tokens, k + 1, Keyword::Or) {
        match parse_where_clause(tokens, k + 2) {
            Ok((rest, j)) => {
                let mut v = rest;
                v.insert(0, c);
                assert(conditions_view(v@) =~= seq![c@] + conditions_view(rest@));
                Ok((v, j))
            },
            Err(e) => Err(e),
        }
    } else {
        let mut v: Vec<Condition> = Vec::new();
        v.push(c);
        assert(conditions_view(v@) =~= seq![c@]);
        Ok((v, k + 1))
    }
}

/// Parses `SELECT items FROM name [WHERE conditions] [;]`. A JOIN is
/// recognized and refused.
pub fn parse_select(tokens: &[Token]) -> (r: Result<SqlCommand, String>)
    ensures
        parse_result_ok(r, select_spec(tokens_view(tokens@))),
{
    if !keyword_at(tokens, 0, Keyword::Select) {
        return Err(ParseError::ExpectedSelect.message());
    }
    let (columns, j) = match parse_select_items(tokens, 1) {
        Err(e) => return Err(e.message()),
        Ok(p) => p,
    };
    if j >= tokens.len() {
        return Err(ParseError::ExpectedTableName.message());
    }
    let table = match &tokens[j] {
        Token::Identifier(n) => n.clone(),
        _ => return Err(ParseError::ExpectedTableName.message()),
    };
    let mut where_clause: Option<Vec<Condition>> = None;
    let mut k = j + 1;
    if keyword_at(tokens, j + 1, Keyword::Where) {
        match parse_where_clause(tokens, j + 2) {
            Err(e) => return Err(e.message()),
            Ok((conds, next)) => {
                where_clause = Some(conds);
                k = next;
            },
        }
    }
    if keyword_at(tokens, k, Keyword::Join) {
        return Err(ParseError::JoinUnsupported.message());
    }
    if let Err(e) = end_at(tokens, k) {
        return Err(e.message());
    }
    Ok(SqlCommand::Select { table, columns, where_clause, join_clause: None })
}

/// Parses one statement, dispatching on its first token.
pub fn parse(tokens: &[Token]) -> (r: Result<SqlCommand, String>)
    ensures
        parse_result_ok(r, parse_spec(tokens_view(tokens@))),
{
    if tokens.len() == 0 {
        return Err(ParseError::InvalidCommand.message());
    }
    match &tokens[0] {
        Token::Keyword(k) => match k {
            Keyword::Create => parse_create_table(tokens),
            Keyword::Insert => parse_insert(tokens),
            Keyword::Select => parse_select(tokens),
            _ => Err(ParseError::UnsupportedCommand.message()),
        },
        _ => Err(ParseError::InvalidCommand.message()),
    }
}

/// The tokens of a column-definition list and its closing parenthesis:
/// `name type , ... , name type )`.
pub open spec fn column_def_tokens(cols: Seq<ColumnView>) -> Seq<TokenView>
    decreases cols.len(),
{
    if cols.len() <= 1 {
        if cols.len() == 0 {
            seq![TokenView::Symbol(')')]
        } else {
            seq![
                TokenView::Identifier(cols[0].name),
                TokenView::DataType(cols[0].data_type),
                TokenView::Symbol(')'),
            ]
        }
    } else {
        seq![
            TokenView::Identifier(cols[0].name),
            TokenView::DataType(cols[0].data_type),
            TokenView::Symbol(','),
        ] + column_def_tokens(cols.drop_first())
    }
}

/// The tokens of `CREATE TABLE name ( column definitions ) ;`.
pub open spec fn create_tokens(name: Seq<char>, cols: Seq<ColumnView>) -> Seq<TokenView> {
    seq![
        TokenView::Keyword(Keyword::Create),
        TokenView::Keyword(Keyword::Table),
        TokenView::Identifier(name),
        TokenView::Symbol('('),
    ] + column_def_tokens(cols) + seq![TokenView::Semicolon]
}

proof fn lemma_column_defs(ts: Seq<TokenView>, i: int, cols: Seq<ColumnView>)
    requires
        cols.len() >= 1,
        0 <= i,
        i + column_def_tokens(cols).len() <= ts.len(),
        ts.subrange(i, i + column_def_tokens(cols).len()) == column_def_tokens(cols),
    ensures
        column_defs_spec(ts, i) == Ok::<(Seq<ColumnView>, int), ParseError>(
            (cols, i + column_def_tokens(cols).len()),
        ),
    decreases cols.len(),
{
    let d = column_def_tokens(cols);
    assert(ts[i] == d[0]);
    assert(ts[i + 1] == d[1]);
    assert(ts[i + 2] == d[2]);
    if cols.len() == 1 {
        assert(seq![cols[0]] =~= cols);
    } else {
        let rest = cols.drop_first();
        let dr = column_def_tokens(rest);
        assert(d.len() == 3 + dr.len());
        assert(ts.subrange(i + 3, i + 3 + dr.len()) =~= dr) by {
            assert forall|k: int| 0 <= k < dr.len() implies ts.subrange(i + 3, i + 3 + dr.len())[k]
                == dr[k] by {
                assert(ts[i + 3 + k] == d[3 + k]);
            }
        }
        lemma_column_defs(ts, i + 3, rest);
        assert(seq![cols[0]] + rest =~= cols);
    }
}

/// A CREATE TABLE statement that lists `(name, type)` pairs parses to a
/// command with exactly those columns, in the same order.
pub proof fn lemma_create_table_columns(name: Seq<char>, cols: Seq<ColumnView>)
    requires
        cols.len() >= 1,
    ensures
        parse_spec(create_tokens(name, cols)) == Ok::<CommandView, ParseError>(
            CommandView::CreateTable { name, columns: cols },
        ),
{
    let ts = create_tokens(name, cols);
    let d = column_def_tokens(cols);
    assert(ts.subrange(4, 4 + d.len() as int) =~= d);
    lemma_column_defs(ts, 4, cols);
    assert(ts[4 + d.len() as int] == TokenView::Semicolon);
}

proof fn lemma_column_def_tokens_lexable(cols: Seq<ColumnView>)
    requires
        forall|k: int|
            0 <= k < cols.len() ==> lexable_token(TokenView::Identifier(#[trigger] cols[k].name)),
    ensures
        forall|i: int|
            0 <= i < column_def_tokens(cols).len() ==> lexable_token(
                #[trigger] column_def_tokens(cols)[i],
            ),
    decreases cols.len(),
{
    let d = column_def_tokens(cols);
    if cols.len() > 1 {
        let rest = cols.drop_first();
        assert forall|k: int| 0 <= k < rest.len() implies lexable_token(
            TokenView::Identifier(#[trigger] rest[k].name),
        ) by {
            assert(rest[k] == cols[k + 1]);
        }
        lemma_column_def_tokens_lexable(rest);
        assert forall|i: int| 0 <= i < d.len() implies lexable_token(#[trigger] d[i]) by {
            if i >= 3 {
                assert(d[i] == column_def_tokens(rest)[i - 3]);
            }
        }
    } else if cols.len() == 1 {
        assert(lexable_token(TokenView::Identifier(cols[0].name)));
    }
}

/// The same at the level of text: when the table and column names are plain
/// identifiers, the canonical text of such a statement tokenizes to its
/// tokens, which parse to exactly the listed columns in order.
pub proof fn lemma_create_table_text(name: Seq<char>, cols: Seq<ColumnView>)
    requires
        cols.len() >= 1,
        lexable_token(TokenView::Identifier(name)),
        forall|k: int|
            0 <= k < cols.len() ==> lexable_token(TokenView::Identifier(#[trigger] cols[k].name)),
    ensures
        lex(render(create_tokens(name, cols))) == Ok::<Seq<TokenView>, LexError>(
            create_tokens(name, cols),
        ),
        parse_spec(create_tokens(name, cols)) == Ok::<CommandView, ParseError>(
            CommandView::CreateTable { name, columns: cols },
        ),
{
    let ts = create_tokens(name, cols);
    let d = column_def_tokens(cols);
    lemma_column_def_tokens_lexable(cols);
    assert forall|i: int| 0 <= i < ts.len() implies lexable_token(#[trigger] ts[i]) by {
        if 4 <= i < 4 + d.len() {
            assert(ts[i] == d[i - 4]);
        }
    }
    lemma_lex_render(ts);
    lemma_create_table_columns(name, cols);
}

} // verus!
