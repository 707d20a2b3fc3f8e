use vstd::prelude::*;

verus! {

/// Declared type of a column.
#[derive(Debug, Clone, Copy, PartialEq, Eq, Structural)]
pub enum DataType {
    Integer,
    Text,
    Real,
    Blob,
    Null,
    Boolean,
    Date,
    Timestamp,
    Varchar,
    Char,
    Float,
    Double,
    Decimal,
}

/// Reserved words of the statement grammar.
#[derive(Debug, Clone, Copy, PartialEq, Eq, Structural)]
pub enum Keyword {
    Select,
    From,
    Where,
    Insert,
    Into,
    Values,
    Create,
    Table,
    And,
    Or,
    Join,
    On,
}

/// One column of a table schema: a name and a declared type.
#[derive(Debug, Clone, PartialEq)]
pub struct Column {
    pub name: String,
    pub data_type: DataType,
}

/// Mathematical view of a column.
pub struct ColumnView {
    pub name: Seq<char>,
    pub data_type: DataType,
}

impl View for Column {
    type V = ColumnView;

    open spec fn view(&self) -> ColumnView {
        ColumnView { name: self.name@, data_type: self.data_type }
    }
}

impl Column {
    /// A column with the given name and declared type.
    pub fn new(name: String, data_type: DataType) -> (r: Column)
        ensures
            r.name@ == name@,
            r.data_type == data_type,
    {
        Column { name, data_type }
    }
}

/// A foreign-key reference between two tables (schema description only).
#[derive(Debug, Clone, PartialEq)]
pub struct ForeignKey {
    pub column: String,
    pub references: String,
    pub referenced_column: String,
}

/// A stored cell value.
#[derive(Debug, Clone, PartialEq, Eq, PartialOrd, Ord, Hash)]
pub enum Value {
    Integer(i64),
    Text(String),
}

/// Mathematical view of a cell value.
pub enum ValueView {
    Integer(i64),
    Text(Seq<char>),
}

impl View for Value {
    type V = ValueView;

    open spec fn view(&self) -> ValueView {
        match self {
            Value::Integer(i) => ValueView::Integer(*i),
            Value::Text(s) => ValueView::Text(s@),
        }
    }
}

/// Column types that hold text values.
pub open spec fn is_textual(t: DataType) -> bool {
    t == DataType::Text || t == DataType::Varchar || t == DataType::Char
}

/// Whether a value of this shape may be stored in a column of type `t`:
/// integers go to `INTEGER` columns, text to `TEXT`, `VARCHAR` and `CHAR`.
pub open spec fn value_fits(v: ValueView, t: DataType) -> bool {
    match v {
        ValueView::Integer(_) => t == DataType::Integer,
        ValueView::Text(_) => is_textual(t),
    }
}

impl Value {
    /// Whether this value may be stored in a column of type `data_type`.
    pub fn matches_type(&self, data_type: &DataType) -> (r: bool)
        ensures
            r == value_fits(self@, *data_type),
    {
        match self {
            Value::Integer(_) => *data_type == DataType::Integer,
            Value::Text(_) => match data_type {
                DataType::Text | DataType::Varchar | DataType::Char => true,
                _ => false,
            },
        }
    }

    /// A copy of the value.
    pub fn duplicate(&self) -> (r: Value)
        ensures
            r@ == self@,
    {
        match self {
            Value::Integer(i) => Value::Integer(*i),
            Value::Text(s) => Value::Text(s.clone()),
        }
    }
}

/// ASCII lower-case of one character.
pub open spec fn lower_char(c: char) -> char {
    if 'A' <= c && c <= 'Z' {
        ((c as u32) + 32) as char
    } else {
        c
    }
}

/// ASCII upper-case of one character.
pub open spec fn upper_char(c: char) -> char {
    if 'a' <= c && c <= 'z' {
        ((c as u32) - 32) as char
    } else {
        c
    }
}

/// ASCII lower-case of a text.
pub open spec fn lower_seq(s: Seq<char>) -> Seq<char> {
    s.map_values(|c: char| lower_char(c))
}

/// ASCII upper-case of a text.
pub open spec fn upper_seq(s: Seq<char>) -> Seq<char> {
    s.map_values(|c: char| upper_char(c))
}

/// ASCII lower-case of one character.
pub fn to_lower_char(c: char) -> (r: char)
    ensures
        r == lower_char(c),
{
    if 'A' <= c && c <= 'Z' {
        ((c as u8) + 32) as char
    } else {
        c
    }
}

/// ASCII upper-case of one character.
pub fn to_upper_char(c: char) -> (r: char)
    ensures
        r == upper_char(c),
{
    if 'a' <= c && c <= 'z' {
        ((c as u8) - 32) as char
    } else {
        c
    }
}

/// A name compared without regard to ASCII letter case: the text is held
/// in lower case.
#[derive(Debug, Clone, PartialEq, Eq, PartialOrd, Ord, Hash)]
pub struct CaseInsensitiveString(pub String);

impl CaseInsensitiveString {
    /// The folded form of `s`.
    pub fn new(s: &str) -> (r: CaseInsensitiveString)
        ensures
            r.0@ == lower_seq(s@),
    {
        let n = s.unicode_len();
        let mut out = String::new();
        let mut i: usize = 0;
        while i < n
            invariant
                n == s@.len(),
                i <= n,
                out@ == lower_seq(s@.subrange(0, i as int)),
            decreases n - i,
        {
            let c = s.get_char(i);
            push_char(&mut out, to_lower_char(c));
            i = i + 1;
            assert(lower_seq(s@.subrange(0, i as int)) =~= lower_seq(s@.subrange(0, i - 1)).push(
                lower_char(c),
            ));
        }
        assert(s@.subrange(0, n as int) =~= s@);
        CaseInsensitiveString(out)
    }
}

/// Relies on `String::push`: appends one character.
#[verifier::external_body]
pub(crate) fn push_char(s: &mut String, c: char)
    ensures
        final(s)@ == old(s)@.push(c),
{
    s.push(c);
}

/// The decimal digit character for `d` in `0..10`.
pub open spec fn digit_char(d: int) -> char {
    (d + 48) as char
}

/// Decimal digits of a natural number, most significant first, without
/// leading zeros.
pub open spec fn nat_decimal(n: nat) -> Seq<char>
    decreases n,
{
    if n < 10 {
        seq![digit_char(n as int)]
    } else {
        nat_decimal(n / 10).push(digit_char((n % 10) as int))
    }
}

/// Decimal text of an integer, with a leading `-` when negative.
pub open spec fn decimal_of(n: int) -> Seq<char> {
    if n < 0 {
        seq!['-'] + nat_decimal((-n) as nat)
    } else {
        nat_decimal(n as nat)
    }
}

fn push_nat_decimal(out: &mut String, m: u64)
    ensures
        final(out)@ == old(out)@ + nat_decimal(m as nat),
    decreases m,
{
    if m >= 10 {
        push_nat_decimal(out, m / 10);
    }
    let d = (m % 10) as u8;
    push_char(out, (d + 48) as char);
    proof {
        if m >= 10 {
            assert(old(out)@ + nat_decimal((m / 10) as nat) + seq![digit_char((m % 10) as int)]
                =~= old(out)@ + nat_decimal(m as nat));
        } else {
            assert(old(out)@ + seq![digit_char(m as int)] =~= old(out)@ + nat_decimal(m as nat));
        }
    }
}

/// Decimal text of `n`.
pub fn i64_to_decimal(n: i64) -> (r: String)
    ensures
        r@ == decimal_of(n as int),
{
    let mut out = String::new();
    if n < 0 {
        push_char(&mut out, '-');
        let m: u64 = ((-(n as i128)) as u64);
        push_nat_decimal(&mut out, m);
    } else {
        push_nat_decimal(&mut out, n as u64);
        assert(out@ =~= decimal_of(n as int));
    }
    out
}

/// Lexicographic order on character sequences, by code point; a proper
/// prefix comes first.
pub open spec fn seq_lt(s: Seq<char>, t: Seq<char>) -> bool
    decreases s.len(),
{
    if s.len() == 0 {
        t.len() > 0
    } else if t.len() == 0 {
        false
    } else if s[0] != t[0] {
        s[0] < t[0]
    } else {
        seq_lt(s.drop_first(), t.drop_first())
    }
}

/// The order of values: integers before texts, integers by value, texts
/// lexicographically.
pub open spec fn value_lt(a: ValueView, b: ValueView) -> bool {
    match (a, b) {
        (ValueView::Integer(x), ValueView::Integer(y)) => x < y,
        (ValueView::Integer(_), ValueView::Text(_)) => true,
        (ValueView::Text(_), ValueView::Integer(_)) => false,
        (ValueView::Text(x), ValueView::Text(y)) => seq_lt(x, y),
    }
}

proof fn lemma_seq_lt_total(s: Seq<char>, t: Seq<char>)
    ensures
        s == t || seq_lt(s, t) || seq_lt(t, s),
        !(seq_lt(s, t) && seq_lt(t, s)),
        !seq_lt(s, s),
    decreases s.len(),
{
    if s.len() > 0 && t.len() > 0 {
        lemma_seq_lt_total(s.drop_first(), t.drop_first());
        lemma_seq_lt_total(s.drop_first(), s.drop_first());
        if s[0] == t[0] && s.drop_first() == t.drop_first() {
            assert forall|i: int| 0 <= i < s.len() implies s[i] == t[i] by {
                if i > 0 {
                    assert(s[i] == s.drop_first()[i - 1]);
                    assert(t[i] == t.drop_first()[i - 1]);
                }
            }
            assert(s =~= t);
        }
    } else if s.len() > 0 {
        lemma_seq_lt_total(s.drop_first(), s.drop_first());
    } else if t.len() == 0 {
        assert(s =~= t);
    }
}

proof fn lemma_seq_lt_trans(s: Seq<char>, t: Seq<char>, u: Seq<char>)
    requires
        seq_lt(s, t),
        seq_lt(t, u),
    ensures
        seq_lt(s, u),
    decreases s.len(),
{
    if s.len() > 0 && s[0] == t[0] && t[0] == u[0] {
        lemma_seq_lt_trans(s.drop_first(), t.drop_first(), u.drop_first());
    }
}

/// The value order is a strict total order.
pub proof fn lemma_value_order(a: ValueView, b: ValueView, c: ValueView)
    ensures
        !value_lt(a, a),
        a == b || value_lt(a, b) || value_lt(b, a),
        value_lt(a, b) && value_lt(b, c) ==> value_lt(a, c),
{
    match (a, b) {
        (ValueView::Text(x), ValueView::Text(y)) => {
            lemma_seq_lt_total(x, y);
        },
        (ValueView::Text(x), _) => {
            lemma_seq_lt_total(x, x);
        },
        _ => {},
    }
    if value_lt(a, b) && value_lt(b, c) {
        match (a, b, c) {
            (ValueView::Text(x), ValueView::Text(y), ValueView::Text(z)) => {
                lemma_seq_lt_trans(x, y, z);
            },
            _ => {},
        }
    }
}

/// Whether `s` comes before `t` in lexicographic order.
fn text_less(s: &String, t: &String) -> (r: bool)
    ensures
        r == seq_lt(s@, t@),
{
    let a = s.as_str();
    let b = t.as_str();
    let n = a.unicode_len();
    let m = b.unicode_len();
    let mut i: usize = 0;
    assert(s@.skip(0) =~= s@);
    assert(t@.skip(0) =~= t@);
    while i < n && i < m && a.get_char(i) == b.get_char(i)
        invariant
            i <= n,
            i <= m,
            n == s@.len(),
            m == t@.len(),
            a@ == s@,
            b@ == t@,
            seq_lt(s@, t@) == seq_lt(s@.skip(i as int), t@.skip(i as int)),
        decreases n - i,
    {
        proof {
            let x = s@.skip(i as int);
            let y = t@.skip(i as int);
            assert(x[0] == y[0]);
            assert(x.drop_first() =~= s@.skip(i + 1));
            assert(y.drop_first() =~= t@.skip(i + 1));
        }
        i = i + 1;
    }
    let ghost x = s@.skip(i as int);
    let ghost y = t@.skip(i as int);
    if i == n {
        assert(x.len() == 0);
        i < m
    } else if i == m {
        false
    } else {
        let c = a.get_char(i);
        let d = b.get_char(i);
        assert(x[0] == c && y[0] == d);
        c < d
    }
}

impl Value {
    /// Whether `self` comes before `other` in the value order.
    pub fn less_than(&self, other: &Value) -> (r: bool)
        ensures
            r == value_lt(self@, other@),
    {
        match (self, other) {
            (Value::Integer(x), Value::Integer(y)) => *x < *y,
            (Value::Integer(_), Value::Text(_)) => true,
            (Value::Text(_), Value::Integer(_)) => false,
            (Value::Text(x), Value::Text(y)) => text_less(x, y),
        }
    }
}

} // verus!
