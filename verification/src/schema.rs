//! Table schemas: a table name and an ordered list of typed columns.
//!
//! A column is declared as the text `name:type`, with `int` and `string` the
//! two supported types. Column order defines the positional mapping from a
//! row's values to columns.
use crate::errors::DbError;
use vstd::prelude::*;
use vstd::string::StrSliceExecFns;
use vstd::string::StringExecFns;

verus! {

/// The two value types a column can be declared with: 32-bit signed integers
/// and variable-length UTF-8 strings.
#[derive(Clone, Copy, Debug, PartialEq, Eq, Structural)]
pub enum DataType {
    Int32,
    Utf8String,
}

/// A named, typed column of a table.
#[derive(Debug)]
pub struct Column {
    pub name: String,
    pub data_type: DataType,
}

/// A table definition: its name and its ordered columns.
#[derive(Debug)]
pub struct TableSchema {
    pub table_name: String,
    pub columns: Vec<Column>,
}

/// Index of the first ':' in `s`, or `s.len()` if there is none.
pub open spec fn first_colon(s: Seq<char>) -> int
    decreases s.len(),
{
    if s.len() == 0 {
        0
    } else if s[0] == ':' {
        0
    } else {
        1 + first_colon(s.drop_first())
    }
}

/// The data type declared by the text after the colon.
pub open spec fn dtype_of(t: Seq<char>) -> Option<DataType> {
    if t =~= seq!['i', 'n', 't'] {
        Some(DataType::Int32)
    } else if t =~= seq!['s', 't', 'r', 'i', 'n', 'g'] {
        Some(DataType::Utf8String)
    } else {
        None
    }
}

/// Splits a column declaration `name:type` at its colon. The declaration is
/// well formed only if it holds exactly one colon.
pub open spec fn split_column(s: Seq<char>) -> Option<(Seq<char>, Seq<char>)> {
    let i = first_colon(s);
    if i == s.len() {
        None
    } else {
        let rest = s.skip(i + 1);
        if first_colon(rest) == rest.len() {
            Some((s.take(i), rest))
        } else {
            None
        }
    }
}

/// The column (name and type) a declaration describes, if it is well formed.
pub open spec fn parse_column(s: Seq<char>) -> Option<(Seq<char>, DataType)> {
    match split_column(s) {
        None => None,
        Some((name, tpart)) => match dtype_of(tpart) {
            None => None,
            Some(dt) => Some((name, dt)),
        },
    }
}

proof fn lemma_first_colon_bounds(s: Seq<char>)
    ensures
        0 <= first_colon(s) <= s.len(),
        first_colon(s) < s.len() ==> s[first_colon(s)] == ':',
        forall|k: int| 0 <= k < first_colon(s) ==> s[k] != ':',
    decreases s.len(),
{
    if s.len() > 0 && s[0] != ':' {
        lemma_first_colon_bounds(s.drop_first());
        assert forall|k: int| 0 <= k < first_colon(s) implies s[k] != ':' by {
            if k > 0 {
                assert(s.drop_first()[k - 1] == s[k]);
            }
        }
    }
}

/// The first colon is pinned by what the characters are: no colon before `i`,
/// and either a colon at `i` or `i` is the whole length.
proof fn lemma_first_colon_at(s: Seq<char>, i: int)
    requires
        0 <= i <= s.len(),
        forall|k: int| 0 <= k < i ==> s[k] != ':',
        i < s.len() ==> s[i] == ':',
    ensures
        first_colon(s) == i,
    decreases s.len(),
{
    if s.len() > 0 && s[0] != ':' {
        lemma_first_colon_at(s.drop_first(), i - 1);
    }
}

/// Scans `s` from `from` for a ':' character; returns the position of the
/// first one, or the length of `s` if there is none.
fn find_colon(s: &str, from: usize, n: usize) -> (r: usize)
    requires
        n == s@.len(),
        from <= n,
    ensures
        from <= r <= n,
        r < n ==> s@[r as int] == ':',
        forall|k: int| from <= k < r ==> s@[k] != ':',
{
    let mut i: usize = from;
    while i < n
        invariant
            from <= i <= n,
            n == s@.len(),
            forall|k: int| from <= k < i ==> s@[k] != ':',
        decreases n - i,
    {
        let c: char = s.get_char(i);
        if c == ':' {
            return i;
        }
        i = i + 1;
    }
    i
}

/// Holds when a built column matches what its declaration describes.
pub open spec fn column_parsed(c: Column, decl: Seq<char>) -> bool {
    &&& parse_column(decl) is Some
    &&& c.name@ == parse_column(decl).unwrap().0
    &&& c.data_type == parse_column(decl).unwrap().1
}

impl TableSchema {
    /// Builds a schema from column declarations of the form `name:type`.
    /// Returns `UnsupportedType` when a declaration is malformed or names a
    /// type outside the supported set, and the schema otherwise.
    pub fn new(table_name: String, columns: Vec<String>) -> (r: Result<TableSchema, DbError>)
        ensures
            r matches Ok(schema) ==> schema.table_name@ == table_name@ && schema.columns@.len()
                == columns@.len() && (forall|i: int|
                0 <= i < columns@.len() ==> column_parsed(
                    #[trigger] schema.columns@[i],
                    columns@[i]@,
                )),
            r is Err ==> r == Err::<TableSchema, DbError>(DbError::UnsupportedType) && (exists|
                i: int,
            |
                0 <= i < columns@.len() && #[trigger] parse_column(columns@[i]@) is None),
            (forall|i: int| 0 <= i < columns@.len() ==> #[trigger] parse_column(columns@[i]@)
                is Some) ==> r is Ok,
    {
        let mut parsed: Vec<Column> = Vec::new();
        let mut idx: usize = 0;
        while idx < columns.len()
            invariant
                idx <= columns@.len(),
                parsed@.len() == idx,
                forall|i: int|
                    0 <= i < idx as int ==> column_parsed(#[trigger] parsed@[i], columns@[i]@),
            decreases columns@.len() - idx,
        {
            let s: &str = columns[idx].as_str();
            let n: usize = s.unicode_len();
            let p: usize = find_colon(s, 0, n);
            proof {
                lemma_first_colon_at(s@, p as int);
            }
            if p == n {
                proof {
                    assert(parse_column(columns@[idx as int]@) is None);
                }
                return Err(DbError::UnsupportedType);
            }
            let q: usize = find_colon(s, p + 1, n);
            proof {
                assert forall|k: int| 0 <= k < q - p - 1 implies #[trigger] s@.skip(p + 1)[k]
                    != ':' by {
                    assert(s@.skip(p + 1)[k] == s@[k + p + 1]);
                }
                if q < n {
                    assert(s@.skip(p + 1)[q - p - 1] == s@[q as int]);
                }
                lemma_first_colon_at(s@.skip(p + 1), q - p - 1);
            }
            if q < n {
                proof {
                    assert(first_colon(s@.skip(p + 1)) < s@.skip(p + 1).len());
                    assert(parse_column(columns@[idx as int]@) is None);
                }
                return Err(DbError::UnsupportedType);
            }
            let name: String = s.substring_char(0, p).to_owned();
            let tpart: String = s.substring_char(p + 1, n).to_owned();
            proof {
                assert(name@ =~= s@.take(p as int));
                assert(tpart@ =~= s@.skip(p + 1));
                reveal_strlit("int");
                reveal_strlit("string");
                assert("int"@ =~= seq!['i', 'n', 't']);
                assert("string"@ =~= seq!['s', 't', 'r', 'i', 'n', 'g']);
            }
            let dt: DataType = if tpart == String::from_str("int") {
                DataType::Int32
            } else if tpart == String::from_str("string") {
                DataType::Utf8String
            } else {
                proof {
                    assert(dtype_of(s@.skip(p + 1)) is None);
                    assert(parse_column(columns@[idx as int]@) is None);
                }
                return Err(DbError::UnsupportedType);
            };
            parsed.push(Column { name, data_type: dt });
            idx = idx + 1;
        }
        Ok(TableSchema { table_name, columns: parsed })
    }
}

} // verus!
