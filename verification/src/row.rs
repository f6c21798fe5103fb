//! A result row as it comes from the backend: columns with a name, a type and
//! the bytes of a value or NULL. Values are found by the column's name and
//! read as the kind of value asked for.

use crate::error::DecodeError;
use crate::error::DecodeFailure;
use crate::hstore::attributes_of;
use crate::hstore::Attributes;
use crate::pg::accepts_text;
use crate::pg::declared_name;
use crate::pg::text_accepts;
use crate::pg::text_from_sql;
use crate::text::lower;
use crate::text::same_ignoring_case;
use crate::text::str_eq;
use crate::text::str_eq_ignore_ascii_case;
use tokio_postgres::types::Type;
use vstd::prelude::*;
use vstd::string::StringExecFns;
use vstd::utf8::decode_utf8;
use vstd::utf8::encode_utf8;
use vstd::utf8::valid_utf8;

verus! {

/// One column of a row.
#[derive(Debug)]
pub struct Column {
    pub name: String,
    pub ty: Type,
    /// The bytes of the value in binary form, or `None` for NULL.
    pub value: Option<Vec<u8>>,
}

/// A row of a query's result.
#[derive(Debug)]
pub struct Row {
    pub columns: Vec<Column>,
}

/// `i` is the first position whose name is `name`.
pub open spec fn exact_at(names: Seq<Seq<char>>, name: Seq<char>, i: int) -> bool {
    &&& 0 <= i < names.len()
    &&& names[i] == name
    &&& forall|j: int| 0 <= j < i ==> #[trigger] names[j] != name
}

/// Two names that differ at most in the case of ASCII letters.
pub open spec fn loosely_equal(a: Seq<char>, b: Seq<char>) -> bool {
    same_ignoring_case(encode_utf8(a), encode_utf8(b))
}

/// `i` is the first position whose name is `name` but for the case of ASCII
/// letters.
pub open spec fn loose_at(names: Seq<Seq<char>>, name: Seq<char>, i: int) -> bool {
    &&& 0 <= i < names.len()
    &&& loosely_equal(names[i], name)
    &&& forall|j: int| 0 <= j < i ==> !loosely_equal(#[trigger] names[j], name)
}

/// The position of the column that a name stands for: the first column of
/// that name, and where there is none the first whose name differs from it
/// only in the case of ASCII letters.
pub open spec fn column_index(names: Seq<Seq<char>>, name: Seq<char>) -> Option<int> {
    if exists|i: int| exact_at(names, name, i) {
        Some(choose|i: int| exact_at(names, name, i))
    } else if exists|i: int| loose_at(names, name, i) {
        Some(choose|i: int| loose_at(names, name, i))
    } else {
        None
    }
}

/// The text that a column holds, or why it holds none.
pub open spec fn cell_text(column: Column) -> Result<Seq<char>, DecodeFailure> {
    if !accepts_text(column.ty) {
        Err(DecodeFailure::WrongType)
    } else {
        match column.value {
            None => Err(DecodeFailure::Null),
            Some(raw) => if valid_utf8(raw@) {
                Ok(decode_utf8(raw@))
            } else {
                Err(DecodeFailure::Malformed)
            },
        }
    }
}

/// The attributes that a column holds, or why it holds none.
pub open spec fn cell_attributes(column: Column) -> Result<
    Map<Seq<char>, Option<Seq<char>>>,
    DecodeFailure,
> {
    if declared_name(column.ty) != "hstore"@ {
        Err(DecodeFailure::WrongType)
    } else {
        match column.value {
            None => Err(DecodeFailure::Null),
            Some(raw) => match attributes_of(raw@) {
                Some(pairs) => Ok(pairs),
                None => Err(DecodeFailure::Malformed),
            },
        }
    }
}

/// A name has at most one first position.
pub proof fn lemma_first_is_unique(names: Seq<Seq<char>>, name: Seq<char>, i: int, k: int)
    ensures
        exact_at(names, name, i) && exact_at(names, name, k) ==> i == k,
        loose_at(names, name, i) && loose_at(names, name, k) ==> i == k,
{
    if exact_at(names, name, i) && exact_at(names, name, k) {
        if i < k {
            assert(names[i] != name);
        } else if k < i {
            assert(names[k] != name);
        }
    }
    if loose_at(names, name, i) && loose_at(names, name, k) {
        if i < k {
            assert(!loosely_equal(names[i], name));
        } else if k < i {
            assert(!loosely_equal(names[k], name));
        }
    }
}

/// No two names are equal, not even but for the case of ASCII letters.
pub open spec fn names_are_distinct(names: Seq<Seq<char>>) -> bool {
    forall|i: int, j: int|
        0 <= i < j < names.len() ==> !loosely_equal(#[trigger] names[i], #[trigger] names[j])
}

/// Each column of one row is a column of the other.
pub open spec fn same_columns(a: Seq<Column>, b: Seq<Column>) -> bool {
    &&& forall|i: int| 0 <= i < a.len() ==> exists|j: int| 0 <= j < b.len() && b[j] == #[trigger] a[i]
    &&& forall|j: int| 0 <= j < b.len() ==> exists|i: int| 0 <= i < a.len() && a[i] == #[trigger] b[j]
}

/// To be equal but for the case of ASCII letters is an equivalence.
pub proof fn lemma_loosely_equal(a: Seq<char>, b: Seq<char>, c: Seq<char>)
    ensures
        loosely_equal(a, a),
        loosely_equal(a, b) ==> loosely_equal(b, a),
        loosely_equal(a, b) && loosely_equal(b, c) ==> loosely_equal(a, c),
{
    let x = encode_utf8(a);
    let y = encode_utf8(b);
    let z = encode_utf8(c);
    if loosely_equal(a, b) {
        assert forall|i: int| 0 <= i < y.len() implies lower(#[trigger] y[i]) == lower(x[i]) by {
            assert(lower(x[i]) == lower(y[i]));
        }
        if loosely_equal(b, c) {
            assert forall|i: int| 0 <= i < x.len() implies lower(#[trigger] x[i]) == lower(
                z[i],
            ) by {
                assert(lower(x[i]) == lower(y[i]));
                assert(lower(y[i]) == lower(z[i]));
            }
        }
    }
}

/// The column that a name stands for in a row whose names are distinct: the
/// one column whose name is the name, or differs from it only in case.
pub proof fn lemma_index_among_distinct(names: Seq<Seq<char>>, name: Seq<char>, i: int)
    requires
        names_are_distinct(names),
        0 <= i < names.len(),
        loosely_equal(names[i], name),
    ensures
        column_index(names, name) == Some(i),
{
    assert forall|j: int| 0 <= j < names.len() && loosely_equal(names[j], name) implies j == i by {
        lemma_loosely_equal(names[i], name, names[j]);
        lemma_loosely_equal(names[j], name, names[i]);
        lemma_loosely_equal(name, names[i], names[j]);
    }
    assert forall|j: int| 0 <= j < names.len() && names[j] == name implies j == i by {
        lemma_loosely_equal(name, name, name);
    }
    if names[i] == name {
        assert(exact_at(names, name, i));
        let k = choose|k: int| exact_at(names, name, k);
        lemma_first_is_unique(names, name, i, k);
    } else {
        assert(loose_at(names, name, i));
        let k = choose|k: int| loose_at(names, name, k);
        lemma_first_is_unique(names, name, i, k);
    }
}

/// The order of the columns does not matter: two rows that hold the same
/// columns, each under distinct names, give the same value for every name.
pub proof fn lemma_column_order_is_free(a: Row, b: Row, name: Seq<char>)
    requires
        same_columns(a.columns@, b.columns@),
        names_are_distinct(a.names()),
        names_are_distinct(b.names()),
    ensures
        a.text(name) == b.text(name),
        a.attributes(name) == b.attributes(name),
{
    let an = a.names();
    let bn = b.names();
    if exists|i: int| 0 <= i < an.len() && loosely_equal(an[i], name) {
        let i = choose|i: int| 0 <= i < an.len() && loosely_equal(an[i], name);
        lemma_index_among_distinct(an, name, i);
        let j = choose|j: int| 0 <= j < b.columns@.len() && b.columns@[j] == a.columns@[i];
        assert(bn[j] == an[i]);
        lemma_index_among_distinct(bn, name, j);
    } else {
        lemma_no_column(an, name);
        if exists|j: int| 0 <= j < bn.len() && loosely_equal(bn[j], name) {
            let j = choose|j: int| 0 <= j < bn.len() && loosely_equal(bn[j], name);
            let i = choose|i: int| 0 <= i < a.columns@.len() && a.columns@[i] == b.columns@[j];
            assert(an[i] == bn[j]);
        }
        lemma_no_column(bn, name);
    }
}

/// A name stands for no column where no column's name is equal to it, not
/// even but for the case of ASCII letters.
pub proof fn lemma_no_column(names: Seq<Seq<char>>, name: Seq<char>)
    requires
        forall|i: int| 0 <= i < names.len() ==> !loosely_equal(#[trigger] names[i], name),
    ensures
        column_index(names, name) is None,
{
    assert forall|i: int| 0 <= i < names.len() implies #[trigger] names[i] != name by {
        lemma_loosely_equal(name, name, name);
    }
}

impl Row {
    /// The names of the columns, in their order.
    pub open spec fn names(&self) -> Seq<Seq<char>> {
        Seq::new(self.columns@.len(), |i: int| self.columns@[i].name@)
    }

    /// The text in the column that a name stands for, or why there is none.
    pub open spec fn text(&self, name: Seq<char>) -> Result<Seq<char>, DecodeFailure> {
        match column_index(self.names(), name) {
            None => Err(DecodeFailure::Missing),
            Some(i) => cell_text(self.columns@[i]),
        }
    }

    /// The attributes in the column that a name stands for, or why there are
    /// none.
    pub open spec fn attributes(&self, name: Seq<char>) -> Result<
        Map<Seq<char>, Option<Seq<char>>>,
        DecodeFailure,
    > {
        match column_index(self.names(), name) {
            None => Err(DecodeFailure::Missing),
            Some(i) => cell_attributes(self.columns@[i]),
        }
    }

    /// A row of the given columns.
    pub fn new(columns: Vec<Column>) -> (r: Row)
        ensures
            r.columns == columns,
    {
        Row { columns }
    }

    /// The number of columns.
    pub fn len(&self) -> (n: usize)
        ensures
            n == self.columns@.len(),
    {
        self.columns.len()
    }

    /// Whether the row has no column.
    pub fn is_empty(&self) -> (r: bool)
        ensures
            r == (self.columns@.len() == 0),
    {
        self.columns.len() == 0
    }

    /// The position of the column that a name stands for.
    pub fn index_of(&self, name: &str) -> (r: Option<usize>)
        ensures
            match column_index(self.names(), name@) {
                Some(i) => r matches Some(k) && k == i && i < self.columns@.len(),
                None => r is None,
            },
    {
        let ghost names = self.names();
        let n = self.columns.len();
        let mut i: usize = 0;
        while i < n
            invariant
                names == self.names(),
                n == self.columns@.len(),
                i <= n,
                forall|j: int| 0 <= j < i ==> #[trigger] names[j] != name@,
            decreases n - i,
        {
            if str_eq(self.columns[i].name.as_str(), name) {
                proof {
                    assert(exact_at(names, name@, i as int));
                    let k = choose|k: int| exact_at(names, name@, k);
                    lemma_first_is_unique(names, name@, i as int, k);
                }
                return Some(i);
            }
            i += 1;
        }
        assert(!exists|k: int| exact_at(names, name@, k));
        let mut i: usize = 0;
        while i < n
            invariant
                names == self.names(),
                n == self.columns@.len(),
                i <= n,
                !exists|k: int| exact_at(names, name@, k),
                forall|j: int| 0 <= j < i ==> !loosely_equal(#[trigger] names[j], name@),
            decreases n - i,
        {
            if str_eq_ignore_ascii_case(self.columns[i].name.as_str(), name) {
                proof {
                    assert(loose_at(names, name@, i as int));
                    let k = choose|k: int| loose_at(names, name@, k);
                    lemma_first_is_unique(names, name@, i as int, k);
                }
                return Some(i);
            }
            i += 1;
        }
        assert(!exists|k: int| loose_at(names, name@, k));
        None
    }

    /// The text in the column that a name stands for. It fails where the row
    /// has no such column, where the column's type is not read as text, where
    /// it holds NULL, and where its bytes are not UTF-8.
    pub fn try_get_text(&self, name: &str) -> (r: Result<String, DecodeError>)
        ensures
            match self.text(name@) {
                Ok(text) => r matches Ok(s) && s@ == text,
                Err(failure) => r matches Err(e) && e.failure == failure && e.column@ == name@,
            },
    {
        let read = match self.index_of(name) {
            None => Err(DecodeFailure::Missing),
            Some(i) => self.columns[i].read_text(),
        };
        match read {
            Ok(text) => Ok(text),
            Err(failure) => Err(DecodeError { column: String::from_str(name), failure }),
        }
    }

    /// The attributes in the column that a name stands for. It fails where
    /// the row has no such column, where the column's type is not `hstore`,
    /// where it holds NULL, and where its bytes are no value of that type.
    pub fn try_get_attributes(&self, name: &str) -> (r: Result<Attributes, DecodeError>)
        ensures
            match self.attributes(name@) {
                Ok(pairs) => r matches Ok(a) && a@ == pairs,
                Err(failure) => r matches Err(e) && e.failure == failure && e.column@ == name@,
            },
    {
        let read = match self.index_of(name) {
            None => Err(DecodeFailure::Missing),
            Some(i) => self.columns[i].read_attributes(),
        };
        match read {
            Ok(attributes) => Ok(attributes),
            Err(failure) => Err(DecodeError { column: String::from_str(name), failure }),
        }
    }
}

impl Column {
    /// The text that the column holds.
    pub fn read_text(&self) -> (r: Result<String, DecodeFailure>)
        ensures
            match cell_text(*self) {
                Ok(text) => r matches Ok(s) && s@ == text,
                Err(failure) => r matches Err(f) && f == failure,
            },
    {
        if !text_accepts(&self.ty) {
            return Err(DecodeFailure::WrongType);
        }
        match &self.value {
            None => Err(DecodeFailure::Null),
            Some(raw) => match text_from_sql(&self.ty, raw.as_slice()) {
                Some(text) => Ok(text),
                None => Err(DecodeFailure::Malformed),
            },
        }
    }

    /// The attributes that the column holds.
    pub fn read_attributes(&self) -> (r: Result<Attributes, DecodeFailure>)
        ensures
            match cell_attributes(*self) {
                Ok(pairs) => r matches Ok(a) && a@ == pairs,
                Err(failure) => r matches Err(f) && f == failure,
            },
    {
        if !Attributes::accepts(&self.ty) {
            return Err(DecodeFailure::WrongType);
        }
        match &self.value {
            None => Err(DecodeFailure::Null),
            Some(raw) => match Attributes::from_sql(&self.ty, raw.as_slice()) {
                Some(attributes) => Ok(attributes),
                None => Err(DecodeFailure::Malformed),
            },
        }
    }
}

} // verus!
