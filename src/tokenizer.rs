use vstd::prelude::*;

use crate::data_types::{
    decimal_of, digit_char, i64_to_decimal, nat_decimal, push_char, to_upper_char, upper_seq, DataType, Keyword,
};

verus! {

/// One lexical unit of a statement.
#[derive(Debug, Clone, PartialEq)]
pub enum Token {
    Keyword(Keyword),
    Identifier(String),
    QuotedIdentifier(String),
    Number(i64),
    String(String),
    Symbol(char),
    DataType(DataType),
    Semicolon,
}

/// Mathematical view of a token.
pub enum TokenView {
    Keyword(Keyword),
    Identifier(Seq<char>),
    QuotedIdentifier(Seq<char>),
    Number(i64),
    String(Seq<char>),
    Symbol(char),
    DataType(DataType),
    Semicolon,
}

impl View for Token {
    type V = TokenView;

    open spec fn view(&self) -> TokenView {
        match self {
            Token::Keyword(k) => TokenView::Keyword(*k),
            Token::Identifier(s) => TokenView::Identifier(s@),
            Token::QuotedIdentifier(s) => TokenView::QuotedIdentifier(s@),
            Token::Number(n) => TokenView::Number(*n),
            Token::String(s) => TokenView::String(s@),
            Token::Symbol(c) => TokenView::Symbol(*c),
            Token::DataType(d) => TokenView::DataType(*d),
            Token::Semicolon => TokenView::Semicolon,
        }
    }
}

pub open spec fn tokens_view(ts: Seq<Token>) -> Seq<TokenView> {
    ts.map_values(|t: Token| t@)
}

/// Why a statement text could not be split into tokens.
pub enum LexError {
    UnterminatedString,
    UnterminatedQuotedIdentifier,
    UnexpectedCharacter(char),
    NumberOutOfRange,
}

pub open spec fn lex_error_message(e: LexError) -> Seq<char> {
    match e {
        LexError::UnterminatedString => "Unterminated string literal"@,
        LexError::UnterminatedQuotedIdentifier => "Unterminated quoted identifier"@,
        LexError::UnexpectedCharacter(c) => "Unexpected character: "@.push(c),
        LexError::NumberOutOfRange => "Number literal out of range"@,
    }
}

pub open spec fn is_letter(c: char) -> bool {
    ('A' <= c && c <= 'Z') || ('a' <= c && c <= 'z')
}

pub open spec fn is_digit(c: char) -> bool {
    '0' <= c && c <= '9'
}

pub open spec fn is_word_start(c: char) -> bool {
    is_letter(c) || c == '_'
}

pub open spec fn is_word_char(c: char) -> bool {
    is_letter(c) || is_digit(c) || c == '_'
}

pub open spec fn is_space(c: char) -> bool {
    c == ' ' || c == '\t' || c == '\n'
}

pub open spec fn is_symbol(c: char) -> bool {
    c == ',' || c == '(' || c == ')' || c == '>' || c == '<' || c == '=' || c == '*'
}

/// The kinds of character runs that the tokenizer consumes.
#[derive(Clone, Copy, PartialEq, Eq, Structural)]
pub enum Run {
    /// letters, digits and underscores
    Word,
    /// decimal digits
    Digits,
    /// anything but the given closing character
    Until(char),
}

pub open spec fn in_run(k: Run, c: char) -> bool {
    match k {
        Run::Word => is_word_char(c),
        Run::Digits => is_digit(c),
        Run::Until(q) => c != q,
    }
}

/// Length of the longest prefix of `s` whose characters all belong to run `k`.
pub open spec fn run_len(s: Seq<char>, k: Run) -> nat
    decreases s.len(),
{
    if s.len() > 0 && in_run(k, s[0]) {
        1 + run_len(s.drop_first(), k)
    } else {
        0
    }
}

pub proof fn lemma_run_len_bound(s: Seq<char>, k: Run)
    ensures
        run_len(s, k) <= s.len(),
        s.len() > 0 && in_run(k, s[0]) ==> run_len(s, k) >= 1,
    decreases s.len(),
{
    if s.len() > 0 && in_run(k, s[0]) {
        lemma_run_len_bound(s.drop_first(), k);
    }
}

pub proof fn lemma_run_len_exact(s: Seq<char>, k: Run, m: nat)
    requires
        m <= s.len(),
        forall|j: int| 0 <= j < m ==> in_run(k, #[trigger] s[j]),
        m == s.len() || !in_run(k, s[m as int]),
    ensures
        run_len(s, k) == m,
    decreases m,
{
    if m > 0 {
        let t = s.drop_first();
        assert forall|j: int| 0 <= j < m - 1 implies in_run(k, #[trigger] t[j]) by {
            assert(t[j] == s[j + 1]);
        }
        if m < s.len() {
            assert(t[m - 1] == s[m as int]);
        }
        lemma_run_len_exact(t, k, (m - 1) as nat);
    }
}

/// The number a decimal digit character stands for.
pub open spec fn digit_value(c: char) -> int {
    (c as u32) as int - 48
}

/// The number that a sequence of decimal digits denotes.
pub open spec fn digits_value(d: Seq<char>) -> int
    decreases d.len(),
{
    if d.len() == 0 {
        0
    } else {
        10 * digits_value(d.drop_last()) + digit_value(d.last())
    }
}

/// The keyword that a word spells, in any letter case.
pub open spec fn keyword_of(w: Seq<char>) -> Option<Keyword> {
    let u = upper_seq(w);
    if u == "SELECT"@ {
        Some(Keyword::Select)
    } else if u == "FROM"@ {
        Some(Keyword::From)
    } else if u == "WHERE"@ {
        Some(Keyword::Where)
    } else if u == "INSERT"@ {
        Some(Keyword::Insert)
    } else if u == "INTO"@ {
        Some(Keyword::Into)
    } else if u == "VALUES"@ {
        Some(Keyword::Values)
    } else if u == "CREATE"@ {
        Some(Keyword::Create)
    } else if u == "TABLE"@ {
        Some(Keyword::Table)
    } else if u == "OR"@ {
        Some(Keyword::Or)
    } else if u == "AND"@ {
        Some(Keyword::And)
    } else if u == "JOIN"@ {
        Some(Keyword::Join)
    } else if u == "ON"@ {
        Some(Keyword::On)
    } else {
        None
    }
}

/// The data type that a word names, in any letter case.
pub open spec fn data_type_of(w: Seq<char>) -> Option<DataType> {
    let u = upper_seq(w);
    if u == "INTEGER"@ {
        Some(DataType::Integer)
    } else if u == "TEXT"@ {
        Some(DataType::Text)
    } else if u == "REAL"@ {
        Some(DataType::Real)
    } else if u == "BLOB"@ {
        Some(DataType::Blob)
    } else if u == "NULL"@ {
        Some(DataType::Null)
    } else if u == "BOOLEAN"@ {
        Some(DataType::Boolean)
    } else if u == "DATE"@ {
        Some(DataType::Date)
    } else if u == "TIMESTAMP"@ {
        Some(DataType::Timestamp)
    } else if u == "VARCHAR"@ {
        Some(DataType::Varchar)
    } else if u == "CHAR"@ {
        Some(DataType::Char)
    } else if u == "FLOAT"@ {
        Some(DataType::Float)
    } else if u == "DOUBLE"@ {
        Some(DataType::Double)
    } else if u == "DECIMAL"@ {
        Some(DataType::Decimal)
    } else {
        None
    }
}

/// The token for a word: a keyword, else a data type, else an identifier.
pub open spec fn word_token(w: Seq<char>) -> TokenView {
    match keyword_of(w) {
        Some(k) => TokenView::Keyword(k),
        None => match data_type_of(w) {
            Some(d) => TokenView::DataType(d),
            None => TokenView::Identifier(w),
        },
    }
}

/// A lexing outcome with one more token in front.
pub open spec fn prepend(
    t: TokenView,
    r: Result<Seq<TokenView>, LexError>,
) -> Result<Seq<TokenView>, LexError> {
    match r {
        Ok(ts) => Ok(seq![t] + ts),
        Err(e) => Err(e),
    }
}

/// A lexing outcome with the tokens `pre` in front.
pub open spec fn append_lex(
    pre: Seq<TokenView>,
    r: Result<Seq<TokenView>, LexError>,
) -> Result<Seq<TokenView>, LexError> {
    match r {
        Ok(ts) => Ok(pre + ts),
        Err(e) => Err(e),
    }
}

/// The token sequence of a statement text, or the first lexing error.
pub open spec fn lex(s: Seq<char>) -> Result<Seq<TokenView>, LexError>
    decreases s.len(),
{
    if s.len() == 0 {
        Ok(Seq::empty())
    } else {
        let c = s[0];
        if c == ';' {
            prepend(TokenView::Semicolon, lex(s.drop_first()))
        } else if is_space(c) {
            lex(s.drop_first())
        } else if is_word_start(c) {
            let n = run_len(s, Run::Word);
            proof {
                lemma_run_len_bound(s, Run::Word);
            }
            prepend(word_token(s.take(n as int)), lex(s.skip(n as int)))
        } else if is_digit(c) {
            let n = run_len(s, Run::Digits);
            proof {
                lemma_run_len_bound(s, Run::Digits);
            }
            let v = digits_value(s.take(n as int));
            if v > i64::MAX {
                Err(LexError::NumberOutOfRange)
            } else {
                prepend(TokenView::Number(v as i64), lex(s.skip(n as int)))
            }
        } else if c == '\'' || c == '"' {
            let body = s.drop_first();
            let n = run_len(body, Run::Until(c));
            proof {
                lemma_run_len_bound(body, Run::Until(c));
            }
            if n >= body.len() {
                if c == '\'' {
                    Err(LexError::UnterminatedString)
                } else {
                    Err(LexError::UnterminatedQuotedIdentifier)
                }
            } else {
                let text = body.take(n as int);
                let t = if c == '\'' {
                    TokenView::String(text)
                } else {
                    TokenView::QuotedIdentifier(text)
                };
                prepend(t, lex(body.skip(n + 1 as int)))
            }
        } else if is_symbol(c) {
            prepend(TokenView::Symbol(c), lex(s.drop_first()))
        } else {
            Err(LexError::UnexpectedCharacter(c))
        }
    }
}

/// Same as `append_lex(pre, prepend(t, r))`, one token further along.
proof fn lemma_append_prepend(pre: Seq<TokenView>, t: TokenView, r: Result<Seq<TokenView>, LexError>)
    ensures
        append_lex(pre, prepend(t, r)) == append_lex(pre.push(t), r),
{
    if let Ok(ts) = r {
        assert(pre + (seq![t] + ts) =~= pre.push(t) + ts);
    }
}

proof fn lemma_tokens_view_push(ts: Seq<Token>, t: Token)
    ensures
        tokens_view(ts.push(t)) == tokens_view(ts).push(t@),
{
    assert(tokens_view(ts.push(t)) =~= tokens_view(ts).push(t@));
}

/// The characters of a string, in order.
pub fn chars_of(s: &str) -> (r: Vec<char>)
    ensures
        r@ == s@,
{
    let n = s.unicode_len();
    let mut out: Vec<char> = Vec::new();
    let mut i: usize = 0;
    while i < n
        invariant
            n == s@.len(),
            i <= n,
            out@ == s@.subrange(0, i as int),
        decreases n - i,
    {
        out.push(s.get_char(i));
        i = i + 1;
        assert(out@ =~= s@.subrange(0, i as int));
    }
    assert(out@ =~= s@);
    out
}

/// The string made of `chars[from..to]`.
pub fn string_of(chars: &Vec<char>, from: usize, to: usize) -> (r: String)
    requires
        from <= to <= chars@.len(),
    ensures
        r@ == chars@.subrange(from as int, to as int),
{
    let mut out = String::new();
    let mut i: usize = from;
    while i < to
        invariant
            from <= i <= to <= chars@.len(),
            out@ == chars@.subrange(from as int, i as int),
        decreases to - i,
    {
        push_char(&mut out, chars[i]);
        i = i + 1;
        assert(out@ =~= chars@.subrange(from as int, i as int));
    }
    out
}

fn in_run_exec(k: Run, c: char) -> (r: bool)
    ensures
        r == in_run(k, c),
{
    match k {
        Run::Word => ('A' <= c && c <= 'Z') || ('a' <= c && c <= 'z') || ('0' <= c && c <= '9')
            || c == '_',
        Run::Digits => '0' <= c && c <= '9',
        Run::Until(q) => c != q,
    }
}

/// Index just past the run of kind `k` that starts at `start`.
pub fn consume_while(chars: &Vec<char>, start: usize, k: Run) -> (end: usize)
    requires
        start <= chars@.len(),
    ensures
        start <= end <= chars@.len(),
        end == start + run_len(chars@.skip(start as int), k),
{
    let n = chars.len();
    let mut j: usize = start;
    while j < n && in_run_exec(k, chars[j])
        invariant
            start <= j <= n,
            n == chars@.len(),
            forall|m: int| start <= m < j ==> in_run(k, #[trigger] chars@[m]),
        decreases n - j,
    {
        j = j + 1;
    }
    proof {
        let t = chars@.skip(start as int);
        assert forall|m: int| 0 <= m < j - start implies in_run(k, #[trigger] t[m]) by {
            assert(t[m] == chars@[start + m]);
        }
        if j < n {
            assert(t[j - start] == chars@[j as int]);
        }
        lemma_run_len_exact(t, k, (j - start) as nat);
    }
    j
}

/// Upper-cased characters of `s`.
fn upper_chars(s: &str) -> (r: Vec<char>)
    ensures
        r@ == upper_seq(s@),
{
    let n = s.unicode_len();
    let mut out: Vec<char> = Vec::new();
    let mut i: usize = 0;
    while i < n
        invariant
            n == s@.len(),
            i <= n,
            out@ == upper_seq(s@.subrange(0, i as int)),
        decreases n - i,
    {
        out.push(to_upper_char(s.get_char(i)));
        i = i + 1;
        assert(out@ =~= upper_seq(s@.subrange(0, i as int)));
    }
    assert(s@.subrange(0, n as int) =~= s@);
    out
}

/// Whether `v` holds exactly the characters of `lit`.
fn same_chars(v: &Vec<char>, lit: &str) -> (r: bool)
    ensures
        r == (v@ == lit@),
{
    let n = lit.unicode_len();
    if v.len() != n {
        return false;
    }
    let mut i: usize = 0;
    while i < n
        invariant
            n == lit@.len(),
            v@.len() == n,
            i <= n,
            forall|j: int| 0 <= j < i ==> v@[j] == lit@[j],
        decreases n - i,
    {
        if v[i] != lit.get_char(i) {
            return false;
        }
        i = i + 1;
    }
    assert(v@ =~= lit@);
    true
}

/// The keyword spelled by `s`, in any letter case.
pub fn str_to_keyword(s: &str) -> (r: Option<Keyword>)
    ensures
        r == keyword_of(s@),
{
    let u = upper_chars(s);
    if same_chars(&u, "SELECT") {
        Some(Keyword::Select)
    } else if same_chars(&u, "FROM") {
        Some(Keyword::From)
    } else if same_chars(&u, "WHERE") {
        Some(Keyword::Where)
    } else if same_chars(&u, "INSERT") {
        Some(Keyword::Insert)
    } else if same_chars(&u, "INTO") {
        Some(Keyword::Into)
    } else if same_chars(&u, "VALUES") {
        Some(Keyword::Values)
    } else if same_chars(&u, "CREATE") {
        Some(Keyword::Create)
    } else if same_chars(&u, "TABLE") {
        Some(Keyword::Table)
    } else if same_chars(&u, "OR") {
        Some(Keyword::Or)
    } else if same_chars(&u, "AND") {
        Some(Keyword::And)
    } else if same_chars(&u, "JOIN") {
        Some(Keyword::Join)
    } else if same_chars(&u, "ON") {
        Some(Keyword::On)
    } else {
        None
    }
}

/// The data type spelled by `s`, in any letter case.
pub fn str_to_data_type(s: &str) -> (r: Option<DataType>)
    ensures
        r == data_type_of(s@),
{
    let u = upper_chars(s);
    if same_chars(&u, "INTEGER") {
        Some(DataType::Integer)
    } else if same_chars(&u, "TEXT") {
        Some(DataType::Text)
    } else if same_chars(&u, "REAL") {
        Some(DataType::Real)
    } else if same_chars(&u, "BLOB") {
        Some(DataType::Blob)
    } else if same_chars(&u, "NULL") {
        Some(DataType::Null)
    } else if same_chars(&u, "BOOLEAN") {
        Some(DataType::Boolean)
    } else if same_chars(&u, "DATE") {
        Some(DataType::Date)
    } else if same_chars(&u, "TIMESTAMP") {
        Some(DataType::Timestamp)
    } else if same_chars(&u, "VARCHAR") {
        Some(DataType::Varchar)
    } else if same_chars(&u, "CHAR") {
        Some(DataType::Char)
    } else if same_chars(&u, "FLOAT") {
        Some(DataType::Float)
    } else if same_chars(&u, "DOUBLE") {
        Some(DataType::Double)
    } else if same_chars(&u, "DECIMAL") {
        Some(DataType::Decimal)
    } else {
        None
    }
}

fn word_to_token(word: String) -> (r: Token)
    ensures
        r@ == word_token(word@),
{
    if let Some(k) = str_to_keyword(word.as_str()) {
        Token::Keyword(k)
    } else if let Some(d) = str_to_data_type(word.as_str()) {
        Token::DataType(d)
    } else {
        Token::Identifier(word)
    }
}

proof fn lemma_digits_value_grows(d: Seq<char>, k: int)
    requires
        0 <= k <= d.len(),
        forall|j: int| 0 <= j < d.len() ==> is_digit(#[trigger] d[j]),
    ensures
        0 <= digits_value(d.take(k)) <= digits_value(d),
    decreases d.len(),
{
    if d.len() > 0 {
        let p = d.drop_last();
        assert forall|j: int| 0 <= j < p.len() implies is_digit(#[trigger] p[j]) by {
            assert(p[j] == d[j]);
        }
        if k == d.len() {
            assert(d.take(k) =~= d);
            lemma_digits_value_grows(p, p.len() as int);
            assert(p.take(p.len() as int) =~= p);
        } else {
            lemma_digits_value_grows(p, k);
            assert(p.take(k) =~= d.take(k));
            lemma_digits_value_grows(p, p.len() as int);
            assert(p.take(p.len() as int) =~= p);
        }
        assert(is_digit(d.last()));
    }
}

/// The value of the decimal digits `chars[from..to]`, if it fits in an `i64`.
pub fn digits_to_i64(chars: &Vec<char>, from: usize, to: usize) -> (r: Option<i64>)
    requires
        from <= to <= chars@.len(),
        forall|j: int| from <= j < to ==> is_digit(#[trigger] chars@[j]),
    ensures
        ({
            let v = digits_value(chars@.subrange(from as int, to as int));
            if v <= i64::MAX {
                r == Some(v as i64)
            } else {
                r is None
            }
        }),
{
    let ghost d = chars@.subrange(from as int, to as int);
    assert forall|j: int| 0 <= j < d.len() implies is_digit(#[trigger] d[j]) by {
        assert(d[j] == chars@[from + j]);
    }
    let mut acc: i64 = 0;
    let mut i: usize = from;
    while i < to
        invariant
            from <= i <= to <= chars@.len(),
            d == chars@.subrange(from as int, to as int),
            forall|j: int| 0 <= j < d.len() ==> is_digit(#[trigger] d[j]),
            acc as int == digits_value(d.take(i - from)),
            acc >= 0,
        decreases to - i,
    {
        let c = chars[i];
        assert(c == d[i - from]);
        assert(is_digit(c));
        let dig: i64 = (c as u32 - '0' as u32) as i64;
        assert(0 <= dig <= 9);
        let ghost next = d.take(i - from + 1);
        assert(next.drop_last() =~= d.take(i - from));
        assert(next.last() == c);
        if acc > (i64::MAX - dig) / 10 {
            proof {
                assert(10 * acc + dig > i64::MAX) by (nonlinear_arith)
                    requires
                        acc > (i64::MAX - dig) / 10,
                        0 <= dig <= 9,
                ;
                lemma_digits_value_grows(d, i - from + 1);
            }
            assert(d.take(i - from + 1) == next);
            return None;
        }
        proof {
            assert(10 * acc + dig <= i64::MAX) by (nonlinear_arith)
                requires
                    acc <= (i64::MAX - dig) / 10,
                    0 <= dig <= 9,
            ;
            assert(10 * acc + dig == digits_value(next));
        }
        acc = acc * 10 + dig;
        i = i + 1;
    }
    assert(d.take(to - from) =~= d);
    Some(acc)
}

fn lex_error_string(e: &LexError) -> (r: String)
    ensures
        r@ == lex_error_message(*e),
{
    match e {
        LexError::UnterminatedString => String::from_str("Unterminated string literal"),
        LexError::UnterminatedQuotedIdentifier => String::from_str("Unterminated quoted identifier"),
        LexError::UnexpectedCharacter(c) => {
            let mut m = String::from_str("Unexpected character: ");
            push_char(&mut m, *c);
            m
        },
        LexError::NumberOutOfRange => String::from_str("Number literal out of range"),
    }
}

/// Splits a statement into tokens.
///
/// Keywords and data-type names are recognized in any letter case;
/// identifiers keep their case; numbers are unsigned decimal integers that
/// fit in an `i64`.
pub fn tokenize(input: &str) -> (r: Result<Vec<Token>, String>)
    ensures
        match lex(input@) {
            Ok(ts) => r matches Ok(v) && tokens_view(v@) == ts,
            Err(e) => r matches Err(m) && m@ == lex_error_message(e),
        },
{
    let chars = chars_of(input);
    let n = chars.len();
    let mut tokens: Vec<Token> = Vec::new();
    let mut i: usize = 0;
    proof {
        assert(input@.skip(0) =~= input@);
        assert(tokens_view(tokens@) =~= Seq::<TokenView>::empty());
        assert(append_lex(Seq::empty(), lex(input@)) == lex(input@)) by {
            if let Ok(ts) = lex(input@) {
                assert(Seq::<TokenView>::empty() + ts =~= ts);
            }
        }
    }
    while i < n
        invariant
            chars@ == input@,
            n == chars@.len(),
            i <= n,
            lex(input@) == append_lex(tokens_view(tokens@), lex(input@.skip(i as int))),
        decreases n - i,
    {
        let c = chars[i];
        let ghost s = input@.skip(i as int);
        let ghost pre = tokens_view(tokens@);
        assert(s[0] == c);
        assert(s.drop_first() =~= input@.skip(i + 1));
        if c == ';' {
            proof {
                lemma_append_prepend(pre, TokenView::Semicolon, lex(s.drop_first()));
                lemma_tokens_view_push(tokens@, Token::Semicolon);
            }
            tokens.push(Token::Semicolon);
            i = i + 1;
        } else if c == ' ' || c == '\t' || c == '\n' {
            i = i + 1;
        } else if ('A' <= c && c <= 'Z') || ('a' <= c && c <= 'z') || c == '_' {
            let e = consume_while(&chars, i, Run::Word);
            let word = string_of(&chars, i, e);
            let t = word_to_token(word);
            proof {
                let m = run_len(s, Run::Word);
                assert(s.take(m as int) =~= chars@.subrange(i as int, e as int));
                assert(s.skip(m as int) =~= input@.skip(e as int));
                lemma_append_prepend(pre, t@, lex(s.skip(m as int)));
                lemma_tokens_view_push(tokens@, t);
            }
            tokens.push(t);
            i = e;
        } else if '0' <= c && c <= '9' {
            let e = consume_while(&chars, i, Run::Digits);
            proof {
                lemma_run_len_bound(s, Run::Digits);
                let m = run_len(s, Run::Digits);
                assert forall|j: int| i <= j < e implies is_digit(#[trigger] chars@[j]) by {
                    lemma_run_prefix(s, Run::Digits, j - i);
                    assert(s[j - i] == chars@[j]);
                }
                assert(s.take(m as int) =~= chars@.subrange(i as int, e as int));
                assert(s.skip(m as int) =~= input@.skip(e as int));
            }
            match digits_to_i64(&chars, i, e) {
                Some(v) => {
                    let t = Token::Number(v);
                    proof {
                        let m = run_len(s, Run::Digits);
                        lemma_append_prepend(pre, t@, lex(s.skip(m as int)));
                        lemma_tokens_view_push(tokens@, t);
                    }
                    tokens.push(t);
                    i = e;
                },
                None => {
                    return Err(lex_error_string(&LexError::NumberOutOfRange));
                },
            }
        } else if c == '\'' || c == '"' {
            let e = consume_while(&chars, i + 1, Run::Until(c));
            proof {
                assert(s.drop_first() =~= chars@.skip(i + 1));
            }
            if e >= n {
                if c == '\'' {
                    return Err(lex_error_string(&LexError::UnterminatedString));
                } else {
                    return Err(lex_error_string(&LexError::UnterminatedQuotedIdentifier));
                }
            }
            let text = string_of(&chars, i + 1, e);
            let t = if c == '\'' {
                Token::String(text)
            } else {
                Token::QuotedIdentifier(text)
            };
            proof {
                let body = s.drop_first();
                let m = run_len(body, Run::Until(c));
                assert(body.take(m as int) =~= chars@.subrange(i + 1, e as int));
                assert(body.skip(m + 1 as int) =~= input@.skip(e + 1));
                lemma_append_prepend(pre, t@, lex(body.skip(m + 1 as int)));
                lemma_tokens_view_push(tokens@, t);
            }
            tokens.push(t);
            i = e + 1;
        } else if c == ',' || c == '(' || c == ')' || c == '>' || c == '<' || c == '=' || c
            == '*' {
            proof {
                lemma_append_prepend(pre, TokenView::Symbol(c), lex(s.drop_first()));
                lemma_tokens_view_push(tokens@, Token::Symbol(c));
            }
            tokens.push(Token::Symbol(c));
            i = i + 1;
        } else {
            return Err(lex_error_string(&LexError::UnexpectedCharacter(c)));
        }
    }
    proof {
        assert(input@.skip(n as int) =~= Seq::<char>::empty());
        assert(tokens_view(tokens@) + Seq::<TokenView>::empty() =~= tokens_view(tokens@));
    }
    Ok(tokens)
}

/// Every character in a run's prefix belongs to the run.
proof fn lemma_run_prefix(s: Seq<char>, k: Run, j: int)
    requires
        0 <= j < run_len(s, k),
    ensures
        in_run(k, s[j]),
    decreases j,
{
    lemma_run_len_bound(s, k);
    assert(s.len() > 0 && in_run(k, s[0]));
    if j > 0 {
        lemma_run_prefix(s.drop_first(), k, j - 1);
        assert(s.drop_first()[j - 1] == s[j]);
    }
}

/// The upper-case spelling of a keyword.
pub open spec fn keyword_name(k: Keyword) -> Seq<char> {
    match k {
        Keyword::Select => "SELECT"@,
        Keyword::From => "FROM"@,
        Keyword::Where => "WHERE"@,
        Keyword::Insert => "INSERT"@,
        Keyword::Into => "INTO"@,
        Keyword::Values => "VALUES"@,
        Keyword::Create => "CREATE"@,
        Keyword::Table => "TABLE"@,
        Keyword::Or => "OR"@,
        Keyword::And => "AND"@,
        Keyword::Join => "JOIN"@,
        Keyword::On => "ON"@,
    }
}

/// The upper-case spelling of a data type.
pub open spec fn data_type_name(d: DataType) -> Seq<char> {
    match d {
        DataType::Integer => "INTEGER"@,
        DataType::Text => "TEXT"@,
        DataType::Real => "REAL"@,
        DataType::Blob => "BLOB"@,
        DataType::Null => "NULL"@,
        DataType::Boolean => "BOOLEAN"@,
        DataType::Date => "DATE"@,
        DataType::Timestamp => "TIMESTAMP"@,
        DataType::Varchar => "VARCHAR"@,
        DataType::Char => "CHAR"@,
        DataType::Float => "FLOAT"@,
        DataType::Double => "DOUBLE"@,
        DataType::Decimal => "DECIMAL"@,
    }
}

/// The canonical text of one token: keywords and data types in upper case,
/// literals and quoted names between their quotes.
pub open spec fn render_token(t: TokenView) -> Seq<char> {
    match t {
        TokenView::Keyword(k) => keyword_name(k),
        TokenView::Identifier(s) => s,
        TokenView::QuotedIdentifier(s) => seq!['"'] + s + seq!['"'],
        TokenView::Number(n) => decimal_of(n as int),
        TokenView::String(s) => seq!['\''] + s + seq!['\''],
        TokenView::Symbol(c) => seq![c],
        TokenView::DataType(d) => data_type_name(d),
        TokenView::Semicolon => seq![';'],
    }
}

/// The canonical text of a token sequence: each token followed by a space.
pub open spec fn render(ts: Seq<TokenView>) -> Seq<char>
    decreases ts.len(),
{
    if ts.len() == 0 {
        Seq::empty()
    } else {
        render(ts.drop_last()) + render_token(ts.last()) + seq![' ']
    }
}

/// The tokens that lexing can produce.
pub open spec fn lexable_token(t: TokenView) -> bool {
    match t {
        TokenView::Identifier(s) => {
            &&& s.len() > 0
            &&& is_word_start(s[0])
            &&& forall|i: int| 0 <= i < s.len() ==> is_word_char(#[trigger] s[i])
            &&& keyword_of(s) is None
            &&& data_type_of(s) is None
        },
        TokenView::QuotedIdentifier(s) => forall|i: int| 0 <= i < s.len() ==> #[trigger] s[i] != '"',
        TokenView::Number(n) => n >= 0,
        TokenView::String(s) => forall|i: int| 0 <= i < s.len() ==> #[trigger] s[i] != '\'',
        TokenView::Symbol(c) => is_symbol(c),
        _ => true,
    }
}

fn keyword_text(k: Keyword) -> (r: &'static str)
    ensures
        r@ == keyword_name(k),
{
    match k {
        Keyword::Select => "SELECT",
        Keyword::From => "FROM",
        Keyword::Where => "WHERE",
        Keyword::Insert => "INSERT",
        Keyword::Into => "INTO",
        Keyword::Values => "VALUES",
        Keyword::Create => "CREATE",
        Keyword::Table => "TABLE",
        Keyword::Or => "OR",
        Keyword::And => "AND",
        Keyword::Join => "JOIN",
        Keyword::On => "ON",
    }
}

fn data_type_text(d: DataType) -> (r: &'static str)
    ensures
        r@ == data_type_name(d),
{
    match d {
        DataType::Integer => "INTEGER",
        DataType::Text => "TEXT",
        DataType::Real => "REAL",
        DataType::Blob => "BLOB",
        DataType::Null => "NULL",
        DataType::Boolean => "BOOLEAN",
        DataType::Date => "DATE",
        DataType::Timestamp => "TIMESTAMP",
        DataType::Varchar => "VARCHAR",
        DataType::Char => "CHAR",
        DataType::Float => "FLOAT",
        DataType::Double => "DOUBLE",
        DataType::Decimal => "DECIMAL",
    }
}

/// Writes tokens back as text in canonical form: keywords and data types in
/// upper case, one space after each token.
pub fn render_tokens(tokens: &[Token]) -> (r: String)
    ensures
        r@ == render(tokens_view(tokens@)),
{
    let mut out = String::new();
    let mut i: usize = 0;
    while i < tokens.len()
        invariant
            i <= tokens@.len(),
            out@ == render(tokens_view(tokens@).take(i as int)),
        decreases tokens@.len() - i,
    {
        let ghost before = out@;
        match &tokens[i] {
            Token::Keyword(k) => out.append(keyword_text(*k)),
            Token::Identifier(s) => out.append(s.as_str()),
            Token::QuotedIdentifier(s) => {
                push_char(&mut out, '"');
                out.append(s.as_str());
                push_char(&mut out, '"');
            },
            Token::Number(n) => {
                let digits = i64_to_decimal(*n);
                out.append(digits.as_str());
            },
            Token::String(s) => {
                push_char(&mut out, '\'');
                out.append(s.as_str());
                push_char(&mut out, '\'');
            },
            Token::Symbol(c) => push_char(&mut out, *c),
            Token::DataType(d) => out.append(data_type_text(*d)),
            Token::Semicolon => push_char(&mut out, ';'),
        }
        push_char(&mut out, ' ');
        proof {
            let tv = tokens_view(tokens@);
            assert(out@ =~= before + render_token(tv[i as int]) + seq![' ']);
            assert(tv.take(i + 1).drop_last() =~= tv.take(i as int));
        }
        i = i + 1;
    }
    assert(tokens_view(tokens@).take(tokens@.len() as int) =~= tokens_view(tokens@));
    out
}

/// A keyword's spelling reads back as that keyword.
proof fn lemma_keyword_name(k: Keyword)
    ensures
        keyword_of(keyword_name(k)) == Some(k),
        keyword_name(k).len() > 0,
        forall|i: int| 0 <= i < keyword_name(k).len() ==> is_letter(#[trigger] keyword_name(k)[i]),
{
    reveal_strlit("SELECT");
    reveal_strlit("FROM");
    reveal_strlit("WHERE");
    reveal_strlit("INSERT");
    reveal_strlit("INTO");
    reveal_strlit("VALUES");
    reveal_strlit("CREATE");
    reveal_strlit("TABLE");
    reveal_strlit("OR");
    reveal_strlit("AND");
    reveal_strlit("JOIN");
    reveal_strlit("ON");
    let w = keyword_name(k);
    assert(upper_seq(w) =~= w);
    match k {
        Keyword::Insert => {
            assert(w[0] != "SELECT"@[0]);
        },
        Keyword::Into => {
            assert(w[0] != "FROM"@[0]);
        },
        Keyword::Values => {
            assert(w[0] != "SELECT"@[0]);
            assert(w[0] != "INSERT"@[0]);
        },
        Keyword::Create => {
            assert(w[0] != "SELECT"@[0]);
            assert(w[0] != "INSERT"@[0]);
            assert(w[0] != "VALUES"@[0]);
        },
        Keyword::Table => {
            assert(w[0] != "WHERE"@[0]);
        },
        Keyword::Join => {
            assert(w[0] != "FROM"@[0]);
            assert(w[0] != "INTO"@[0]);
        },
        Keyword::On => {
            assert(w[1] != "OR"@[1]);
        },
        _ => {},
    }
}

/// A data type's spelling reads back as that data type.
proof fn lemma_data_type_name(d: DataType)
    ensures
        keyword_of(data_type_name(d)) is None,
        data_type_of(data_type_name(d)) == Some(d),
        data_type_name(d).len() > 0,
        forall|i: int|
            0 <= i < data_type_name(d).len() ==> is_letter(#[trigger] data_type_name(d)[i]),
{
    reveal_strlit("SELECT");
    reveal_strlit("FROM");
    reveal_strlit("WHERE");
    reveal_strlit("INSERT");
    reveal_strlit("INTO");
    reveal_strlit("VALUES");
    reveal_strlit("CREATE");
    reveal_strlit("TABLE");
    reveal_strlit("OR");
    reveal_strlit("AND");
    reveal_strlit("JOIN");
    reveal_strlit("ON");
    reveal_strlit("INTEGER");
    reveal_strlit("TEXT");
    reveal_strlit("REAL");
    reveal_strlit("BLOB");
    reveal_strlit("NULL");
    reveal_strlit("BOOLEAN");
    reveal_strlit("DATE");
    reveal_strlit("TIMESTAMP");
    reveal_strlit("VARCHAR");
    reveal_strlit("CHAR");
    reveal_strlit("FLOAT");
    reveal_strlit("DOUBLE");
    reveal_strlit("DECIMAL");
    let w = data_type_name(d);
    assert(upper_seq(w) =~= w);
    match d {
        DataType::Text => {
            assert(w[0] != "FROM"@[0]);
            assert(w[0] != "INTO"@[0]);
            assert(w[0] != "JOIN"@[0]);
        },
        DataType::Real => {
            assert(w[0] != "FROM"@[0]);
            assert(w[0] != "INTO"@[0]);
            assert(w[0] != "JOIN"@[0]);
            assert(w[0] != "TEXT"@[0]);
        },
        DataType::Blob => {
            assert(w[0] != "FROM"@[0]);
            assert(w[0] != "INTO"@[0]);
            assert(w[0] != "JOIN"@[0]);
            assert(w[0] != "TEXT"@[0]);
            assert(w[0] != "REAL"@[0]);
        },
        DataType::Null => {
            assert(w[0] != "FROM"@[0]);
            assert(w[0] != "INTO"@[0]);
            assert(w[0] != "JOIN"@[0]);
            assert(w[0] != "TEXT"@[0]);
            assert(w[0] != "REAL"@[0]);
            assert(w[0] != "BLOB"@[0]);
        },
        DataType::Boolean => {
            assert(w[0] != "INTEGER"@[0]);
        },
        DataType::Date => {
            assert(w[0] != "FROM"@[0]);
            assert(w[0] != "INTO"@[0]);
            assert(w[0] != "JOIN"@[0]);
            assert(w[0] != "TEXT"@[0]);
            assert(w[0] != "REAL"@[0]);
            assert(w[0] != "BLOB"@[0]);
            assert(w[0] != "NULL"@[0]);
        },
        DataType::Varchar => {
            assert(w[0] != "INTEGER"@[0]);
            assert(w[0] != "BOOLEAN"@[0]);
        },
        DataType::Char => {
            assert(w[0] != "FROM"@[0]);
            assert(w[0] != "INTO"@[0]);
            assert(w[0] != "JOIN"@[0]);
            assert(w[0] != "TEXT"@[0]);
            assert(w[0] != "REAL"@[0]);
            assert(w[0] != "BLOB"@[0]);
            assert(w[0] != "NULL"@[0]);
            assert(w[0] != "DATE"@[0]);
        },
        DataType::Float => {
            assert(w[0] != "WHERE"@[0]);
            assert(w[0] != "TABLE"@[0]);
        },
        DataType::Double => {
            assert(w[0] != "SELECT"@[0]);
            assert(w[0] != "INSERT"@[0]);
            assert(w[0] != "VALUES"@[0]);
            assert(w[0] != "CREATE"@[0]);
        },
        DataType::Decimal => {
            assert(w[0] != "INTEGER"@[0]);
            assert(w[0] != "BOOLEAN"@[0]);
            assert(w[0] != "VARCHAR"@[0]);
        },
        _ => {},
    }
}

proof fn lemma_nat_decimal(n: nat)
    ensures
        nat_decimal(n).len() > 0,
        forall|i: int| 0 <= i < nat_decimal(n).len() ==> is_digit(#[trigger] nat_decimal(n)[i]),
        digits_value(nat_decimal(n)) == n,
    decreases n,
{
    let d = nat_decimal(n);
    if n < 10 {
        assert(d.drop_last() =~= Seq::<char>::empty());
        assert(digits_value(Seq::<char>::empty()) == 0);
        assert(digit_value(digit_char(n as int)) == n);
        assert(digits_value(d) == 10 * digits_value(d.drop_last()) + digit_value(d.last()));
    } else {
        lemma_nat_decimal(n / 10);
        assert(d.drop_last() =~= nat_decimal(n / 10));
        assert(digit_value(digit_char((n % 10) as int)) == n % 10);
        assert(d.last() == digit_char((n % 10) as int));
        assert(10 * (n / 10) + n % 10 == n);
        assert(digits_value(d) == 10 * digits_value(d.drop_last()) + digit_value(d.last()));
        assert forall|i: int| 0 <= i < d.len() implies is_digit(#[trigger] d[i]) by {
            if i < d.len() - 1 {
                assert(d[i] == nat_decimal(n / 10)[i]);
            }
        }
    }
}

/// A word followed by a space lexes as the word's token.
proof fn lemma_lex_word(w: Seq<char>, tail: Seq<char>)
    requires
        w.len() > 0,
        is_word_start(w[0]),
        forall|i: int| 0 <= i < w.len() ==> is_word_char(#[trigger] w[i]),
        tail.len() > 0,
        tail[0] == ' ',
    ensures
        lex(w + tail) == prepend(word_token(w), lex(tail)),
{
    let s = w + tail;
    assert forall|i: int| 0 <= i < w.len() implies in_run(Run::Word, #[trigger] s[i]) by {
        assert(s[i] == w[i]);
    }
    assert(s[w.len() as int] == ' ');
    lemma_run_len_exact(s, Run::Word, w.len());
    assert(s.take(w.len() as int) =~= w);
    assert(s.skip(w.len() as int) =~= tail);
}

/// Text between a pair of quotes that does not hold the quote, followed by a
/// space, lexes as one token.
proof fn lemma_lex_quoted(q: char, x: Seq<char>, tail: Seq<char>)
    requires
        q == '\'' || q == '"',
        forall|i: int| 0 <= i < x.len() ==> #[trigger] x[i] != q,
        tail.len() > 0,
        tail[0] == ' ',
    ensures
        lex(seq![q] + x + seq![q] + tail) == prepend(
            if q == '\'' {
                TokenView::String(x)
            } else {
                TokenView::QuotedIdentifier(x)
            },
            lex(tail),
        ),
{
    let s = seq![q] + x + seq![q] + tail;
    let body = s.drop_first();
    assert(body =~= x + seq![q] + tail);
    assert forall|i: int| 0 <= i < x.len() implies in_run(Run::Until(q), #[trigger] body[i]) by {
        assert(body[i] == x[i]);
    }
    assert(body[x.len() as int] == q);
    lemma_run_len_exact(body, Run::Until(q), x.len());
    assert(body.take(x.len() as int) =~= x);
    assert(body.skip(x.len() + 1 as int) =~= tail);
}

/// A lexable token's canonical text, followed by a space, lexes back to it.
proof fn lemma_lex_token(t: TokenView, tail: Seq<char>)
    requires
        lexable_token(t),
        tail.len() > 0,
        tail[0] == ' ',
    ensures
        lex(render_token(t) + tail) == prepend(t, lex(tail)),
{
    let w = render_token(t);
    match t {
        TokenView::Keyword(k) => {
            lemma_keyword_name(k);
            lemma_lex_word(w, tail);
        },
        TokenView::DataType(d) => {
            lemma_data_type_name(d);
            lemma_lex_word(w, tail);
        },
        TokenView::Identifier(x) => {
            lemma_lex_word(w, tail);
        },
        TokenView::Number(n) => {
            lemma_nat_decimal(n as nat);
            let s = w + tail;
            assert(w == nat_decimal(n as nat));
            assert forall|i: int| 0 <= i < w.len() implies in_run(Run::Digits, #[trigger] s[i]) by {
                assert(s[i] == w[i]);
            }
            assert(s[w.len() as int] == ' ');
            assert(is_digit(s[0]));
            lemma_run_len_exact(s, Run::Digits, w.len());
            assert(s.take(w.len() as int) =~= w);
            assert(s.skip(w.len() as int) =~= tail);
        },
        TokenView::String(x) => {
            lemma_lex_quoted('\'', x, tail);
        },
        TokenView::QuotedIdentifier(x) => {
            lemma_lex_quoted('"', x, tail);
        },
        TokenView::Symbol(c) => {
            let s = w + tail;
            assert(s[0] == c);
            assert(s.drop_first() =~= tail);
        },
        TokenView::Semicolon => {
            let s = w + tail;
            assert(s.drop_first() =~= tail);
        },
    }
}

proof fn lemma_render_front(t: TokenView, ts: Seq<TokenView>)
    ensures
        render(seq![t] + ts) == render_token(t) + seq![' '] + render(ts),
    decreases ts.len(),
{
    let all = seq![t] + ts;
    if ts.len() == 0 {
        assert(all.drop_last() =~= Seq::<TokenView>::empty());
        assert(render(all) =~= render_token(t) + seq![' '] + render(ts));
    } else {
        assert(all.drop_last() =~= seq![t] + ts.drop_last());
        assert(all.last() == ts.last());
        lemma_render_front(t, ts.drop_last());
        assert(render(ts) == render(ts.drop_last()) + render_token(ts.last()) + seq![' ']);
        assert(render(all) == render(all.drop_last()) + render_token(all.last()) + seq![' ']);
        assert(render(all) =~= render_token(t) + seq![' '] + render(ts));
    }
}

/// Lexable tokens survive rendering and lexing again.
pub proof fn lemma_lex_render(ts: Seq<TokenView>)
    requires
        forall|i: int| 0 <= i < ts.len() ==> lexable_token(#[trigger] ts[i]),
    ensures
        lex(render(ts)) == Ok::<Seq<TokenView>, LexError>(ts),
    decreases ts.len(),
{
    if ts.len() > 0 {
        let rest = ts.drop_first();
        assert(seq![ts[0]] + rest =~= ts);
        lemma_render_front(ts[0], rest);
        assert forall|i: int| 0 <= i < rest.len() implies lexable_token(#[trigger] rest[i]) by {
            assert(rest[i] == ts[i + 1]);
        }
        lemma_lex_render(rest);
        let tail = seq![' '] + render(rest);
        assert(render(ts) =~= render_token(ts[0]) + tail);
        lemma_lex_token(ts[0], tail);
        assert(tail.drop_first() =~= render(rest));
        assert(lex(tail) == lex(render(rest)));
    } else {
        assert(ts =~= Seq::<TokenView>::empty());
    }
}

/// Every token that lexing produces is lexable.
proof fn lemma_lex_lexable(s: Seq<char>)
    ensures
        lex(s) matches Ok(ts) ==> forall|i: int| 0 <= i < ts.len() ==> lexable_token(#[trigger] ts[i]),
    decreases s.len(),
{
    if s.len() > 0 {
        let c = s[0];
        if c == ';' || is_space(c) || is_symbol(c) {
            lemma_lex_lexable(s.drop_first());
        } else if is_word_start(c) {
            lemma_run_len_bound(s, Run::Word);
            let n = run_len(s, Run::Word);
            lemma_lex_lexable(s.skip(n as int));
            let w = s.take(n as int);
            assert forall|i: int| 0 <= i < w.len() implies is_word_char(#[trigger] w[i]) by {
                lemma_run_prefix(s, Run::Word, i);
            }
        } else if is_digit(c) {
            lemma_run_len_bound(s, Run::Digits);
            let n = run_len(s, Run::Digits);
            lemma_lex_lexable(s.skip(n as int));
            let w = s.take(n as int);
            assert forall|i: int| 0 <= i < w.len() implies is_digit(#[trigger] w[i]) by {
                lemma_run_prefix(s, Run::Digits, i);
            }
            lemma_digits_value_grows(w, 0);
        } else if c == '\'' || c == '"' {
            let body = s.drop_first();
            lemma_run_len_bound(body, Run::Until(c));
            let n = run_len(body, Run::Until(c));
            if n < body.len() {
                lemma_lex_lexable(body.skip(n + 1 as int));
                let x = body.take(n as int);
                assert forall|i: int| 0 <= i < x.len() implies #[trigger] x[i] != c by {
                    lemma_run_prefix(body, Run::Until(c), i);
                }
            }
        }
    }
}

/// Writing the tokens of a statement back as canonical text and tokenizing
/// that text gives the same tokens; doing it again gives the same text.
pub proof fn lemma_render_round_trip(s: Seq<char>)
    requires
        lex(s) is Ok,
    ensures
        lex(render(lex(s)->Ok_0)) == lex(s),
        render(lex(render(lex(s)->Ok_0))->Ok_0) == render(lex(s)->Ok_0),
{
    lemma_lex_lexable(s);
    lemma_lex_render(lex(s)->Ok_0);
}

} // verus!
