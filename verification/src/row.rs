use vstd::prelude::*;

use crate::error::SchemaError;
use crate::ids::RowId;
use crate::schema::{
    column_index, column_pos, lemma_first_index_is_pos, names_column,
    normalize_identifier, TableSchema,
};
use crate::schema::ColumnSchema;
use crate::text::{
    lemma_text_lt_irreflexive, lemma_text_lt_transitive, lemma_text_lt_trichotomy, text_eq, text_less,
    text_lt, trim_text, trimmed,
};
use crate::value::Value;

verus! {

/// Keys of `entries` strictly increase in the order of texts.
pub open spec fn keys_sorted(entries: Seq<(String, Value)>) -> bool {
    forall|a: int, b: int| 0 <= a < b < entries.len() ==> text_lt(entries[a].0@, entries[b].0@)
}

/// Some entry has key `k`.
pub open spec fn has_key(entries: Seq<(String, Value)>, k: Seq<char>) -> bool {
    exists|i: int| 0 <= i < entries.len() && #[trigger] entries[i].0@ == k
}

/// The value stored under key `k`, if any.
pub open spec fn value_of(entries: Seq<(String, Value)>, k: Seq<char>) -> Option<Value> {
    if has_key(entries, k) {
        Some(entries[choose|i: int| 0 <= i < entries.len() && #[trigger] entries[i].0@ == k].1)
    } else {
        None
    }
}

/// In sorted entries the entry at `i` is the one that `value_of` reads.
pub proof fn lemma_value_of_at(entries: Seq<(String, Value)>, i: int)
    requires
        keys_sorted(entries),
        0 <= i < entries.len(),
    ensures
        value_of(entries, entries[i].0@) == Some(entries[i].1),
{
    let k = entries[i].0@;
    assert(has_key(entries, k));
    let c = choose|i: int| 0 <= i < entries.len() && #[trigger] entries[i].0@ == k;
    lemma_text_lt_irreflexive(k);
    if c < i {
        assert(text_lt(entries[c].0@, entries[i].0@));
    } else if c > i {
        assert(text_lt(entries[i].0@, entries[c].0@));
    }
    assert(c == i);
    assert(value_of(entries, k) == Some(entries[c].1));
}

/// Dropping the first of sorted entries drops its key and keeps the value of
/// every other key.
proof fn lemma_value_of_drop_first(a: Seq<(String, Value)>)
    requires
        keys_sorted(a),
        a.len() > 0,
    ensures
        keys_sorted(a.drop_first()),
        value_of(a.drop_first(), a[0].0@) is None,
        forall|k: Seq<char>| k != a[0].0@ ==> #[trigger] value_of(a.drop_first(), k) == value_of(a, k),
{
    let t = a.drop_first();
    assert forall|x: int, y: int| 0 <= x < y < t.len() implies text_lt(t[x].0@, t[y].0@) by {
        assert(t[x] == a[x + 1]);
        assert(t[y] == a[y + 1]);
    }
    if has_key(t, a[0].0@) {
        let c = choose|c: int| 0 <= c < t.len() && #[trigger] t[c].0@ == a[0].0@;
        assert(t[c] == a[c + 1]);
        assert(text_lt(a[0].0@, a[c + 1].0@));
        lemma_text_lt_irreflexive(a[0].0@);
    }
    assert forall|k: Seq<char>| k != a[0].0@ implies #[trigger] value_of(t, k) == value_of(a, k) by {
        if has_key(t, k) {
            let c = choose|c: int| 0 <= c < t.len() && #[trigger] t[c].0@ == k;
            assert(t[c] == a[c + 1]);
            lemma_value_of_at(t, c);
            lemma_value_of_at(a, c + 1);
        } else if has_key(a, k) {
            let c = choose|c: int| 0 <= c < a.len() && #[trigger] a[c].0@ == k;
            assert(c != 0);
            assert(t[c - 1] == a[c]);
        }
    }
}

/// Two sorted entry lists that give every key the same value hold the same
/// names and values, position by position: sorted entries are fixed by their
/// lookups.
pub proof fn lemma_sorted_entries_unique(a: Seq<(String, Value)>, b: Seq<(String, Value)>)
    requires
        keys_sorted(a),
        keys_sorted(b),
        forall|k: Seq<char>| #[trigger] value_of(a, k) == value_of(b, k),
    ensures
        a.len() == b.len(),
        forall|i: int| 0 <= i < a.len() ==> (#[trigger] a[i]).0@ == b[i].0@ && a[i].1 == b[i].1,
    decreases a.len(),
{
    if a.len() == 0 {
        if b.len() > 0 {
            lemma_value_of_at(b, 0);
            assert(value_of(a, b[0].0@) is None);
        }
    } else {
        lemma_value_of_at(a, 0);
        let k0 = a[0].0@;
        assert(value_of(b, k0) is Some);
        assert(b.len() > 0);
        lemma_value_of_at(b, 0);
        let m0 = b[0].0@;
        assert(value_of(a, m0) is Some);
        let ja = choose|j: int| 0 <= j < a.len() && #[trigger] a[j].0@ == m0;
        let jb = choose|j: int| 0 <= j < b.len() && #[trigger] b[j].0@ == k0;
        lemma_text_lt_trichotomy(k0, m0);
        if k0 != m0 {
            assert(ja != 0);
            assert(jb != 0);
            assert(text_lt(k0, m0));
            assert(text_lt(m0, k0));
        }
        lemma_value_of_drop_first(a);
        lemma_value_of_drop_first(b);
        assert forall|k: Seq<char>| #[trigger] value_of(a.drop_first(), k) == value_of(b.drop_first(), k) by {
            if k != k0 {
                assert(value_of(a, k) == value_of(b, k));
            }
        }
        lemma_sorted_entries_unique(a.drop_first(), b.drop_first());
        assert forall|i: int| 0 <= i < a.len() implies (#[trigger] a[i]).0@ == b[i].0@ && a[i].1 == b[i].1 by {
            if i > 0 {
                assert(a.drop_first()[i - 1] == a[i]);
                assert(b.drop_first()[i - 1] == b[i]);
            }
        }
    }
}

/// The value in `values` of the column named `name`, if there is such a
/// column and the row reaches it.
pub open spec fn cell(cols: Seq<ColumnSchema>, values: Seq<Value>, name: Seq<char>) -> Option<Value> {
    if names_column(cols, name) && column_pos(cols, name) < values.len() {
        Some(values[column_pos(cols, name)])
    } else {
        None
    }
}

/// Values of a row to be persisted, keyed by column name.  Keys are kept in
/// the order of texts, and a key occurs at most once.
#[derive(Debug, Clone, PartialEq, Eq)]
pub struct RowInput {
    pub entries: Vec<(String, Value)>,
}

impl RowInput {
    pub open spec fn wf(&self) -> bool {
        keys_sorted(self.entries@)
    }

    pub open spec fn get_spec(&self, k: Seq<char>) -> Option<Value> {
        value_of(self.entries@, k)
    }

    pub fn new() -> (r: Self)
        ensures
            r.wf(),
            r.entries@.len() == 0,
    {
        RowInput { entries: Vec::new() }
    }

    /// Sets the value of the column named `column`, trimmed; a later value for
    /// the same column replaces an earlier one.
    pub fn with_value(self, column: &str, value: Value) -> (r: Self)
        requires
            self.wf(),
        ensures
            r.wf(),
            r.get_spec(trimmed(column@)) == Some(value),
            forall|k: Seq<char>| k != trimmed(column@) ==> #[trigger] r.get_spec(k) == self.get_spec(k),
            forall|k: Seq<char>| has_key(r.entries@, k) <==> (has_key(self.entries@, k) || k == trimmed(column@)),
    {
        let key = trim_text(column);
        RowInput { entries: put_entry(self.entries, key, value) }
    }
}

/// Puts `value` under `key` into sorted entries, as a map from keys to
/// values: the entry for `key` is replaced, or a new one is put in its place
/// in the order of keys.
fn put_entry(entries: Vec<(String, Value)>, key: String, value: Value) -> (r: Vec<(String, Value)>)
    requires
        keys_sorted(entries@),
    ensures
        keys_sorted(r@),
        value_of(r@, key@) == Some(value),
        forall|k: Seq<char>| k != key@ ==> #[trigger] value_of(r@, k) == value_of(entries@, k),
        forall|k: Seq<char>| has_key(r@, k) <==> (has_key(entries@, k) || k == key@),
{
        let mut entries = entries;
        let ghost old_entries = entries@;
        let n = entries.len();
        let mut i: usize = 0;
        while i < n && text_less(entries[i].0.as_str(), key.as_str())
            invariant
                n == entries@.len(),
                entries@ == old_entries,
                i <= n,
                forall|j: int| 0 <= j < i ==> text_lt(#[trigger] entries@[j].0@, key@),
            decreases n - i,
        {
            i = i + 1;
        }
        let ghost kk = key@;
        if i < n && entries[i].0 == key {
            entries.set(i, (key, value));
            proof {
                assert forall|a: int, b: int| 0 <= a < b < entries@.len() implies text_lt(
                    entries@[a].0@,
                    entries@[b].0@,
                ) by {
                    assert(text_lt(old_entries[a].0@, old_entries[b].0@));
                }
                assert forall|k: Seq<char>| k != kk implies #[trigger] value_of(entries@, k) == value_of(
                    old_entries,
                    k,
                ) by {
                    if has_key(old_entries, k) {
                        let c = choose|c: int| 0 <= c < old_entries.len() && #[trigger] old_entries[c].0@ == k;
                        lemma_value_of_at(old_entries, c);
                        assert(entries@[c].0@ == k);
                        lemma_value_of_at(entries@, c);
                    }
                    if has_key(entries@, k) {
                        let c = choose|c: int| 0 <= c < entries@.len() && #[trigger] entries@[c].0@ == k;
                        assert(old_entries[c].0@ == k);
                    }
                }
                lemma_value_of_at(entries@, i as int);
                assert forall|k: Seq<char>| has_key(entries@, k) <==> (has_key(old_entries, k) || k == kk) by {
                    if has_key(entries@, k) {
                        let c = choose|c: int| 0 <= c < entries@.len() && #[trigger] entries@[c].0@ == k;
                        assert(old_entries[c].0@ == k);
                    }
                    if has_key(old_entries, k) {
                        let c = choose|c: int| 0 <= c < old_entries.len() && #[trigger] old_entries[c].0@ == k;
                        assert(entries@[c].0@ == k);
                    }
                    if k == kk {
                        assert(entries@[i as int].0@ == k);
                    }
                }
            }
        } else {
            proof {
                if i < n {
                    lemma_text_lt_trichotomy(entries@[i as int].0@, kk);
                }
            }
            entries.insert(i, (key, value));
            proof {
                assert forall|a: int, b: int| 0 <= a < b < entries@.len() implies text_lt(
                    entries@[a].0@,
                    entries@[b].0@,
                ) by {
                    if b < i {
                        assert(text_lt(old_entries[a].0@, old_entries[b].0@));
                    } else if b == i {
                        assert(text_lt(old_entries[a].0@, kk));
                    } else if a < i {
                        assert(text_lt(old_entries[a].0@, kk));
                        assert(text_lt(kk, old_entries[i as int].0@));
                        if b - 1 > i {
                            assert(text_lt(old_entries[i as int].0@, old_entries[b - 1].0@));
                            lemma_text_lt_transitive(kk, old_entries[i as int].0@, old_entries[b - 1].0@);
                        }
                        lemma_text_lt_transitive(old_entries[a].0@, kk, old_entries[b - 1].0@);
                    } else if a == i {
                        assert(text_lt(kk, old_entries[i as int].0@));
                        if b - 1 > i {
                            assert(text_lt(old_entries[i as int].0@, old_entries[b - 1].0@));
                            lemma_text_lt_transitive(kk, old_entries[i as int].0@, old_entries[b - 1].0@);
                        }
                    } else {
                        assert(text_lt(old_entries[a - 1].0@, old_entries[b - 1].0@));
                    }
                }
                assert forall|k: Seq<char>| k != kk implies #[trigger] value_of(entries@, k) == value_of(
                    old_entries,
                    k,
                ) by {
                    if has_key(old_entries, k) {
                        let c = choose|c: int| 0 <= c < old_entries.len() && #[trigger] old_entries[c].0@ == k;
                        lemma_value_of_at(old_entries, c);
                        let c2 = if c < i { c } else { c + 1 };
                        assert(entries@[c2].0@ == k);
                        lemma_value_of_at(entries@, c2);
                    }
                    if has_key(entries@, k) {
                        let c = choose|c: int| 0 <= c < entries@.len() && #[trigger] entries@[c].0@ == k;
                        if c < i {
                            assert(old_entries[c].0@ == k);
                        } else if c > i {
                            assert(old_entries[c - 1].0@ == k);
                        }
                    }
                }
                lemma_value_of_at(entries@, i as int);
                assert forall|k: Seq<char>| has_key(entries@, k) <==> (has_key(old_entries, k) || k == kk) by {
                    if has_key(entries@, k) {
                        let c = choose|c: int| 0 <= c < entries@.len() && #[trigger] entries@[c].0@ == k;
                        if c < i {
                            assert(old_entries[c].0@ == k);
                        } else if c > i {
                            assert(old_entries[c - 1].0@ == k);
                        }
                    }
                    if has_key(old_entries, k) {
                        let c = choose|c: int| 0 <= c < old_entries.len() && #[trigger] old_entries[c].0@ == k;
                        let c2 = if c < i { c } else { c + 1 };
                        assert(entries@[c2].0@ == k);
                    }
                    if k == kk {
                        assert(entries@[i as int].0@ == k);
                    }
                }
            }
        }
        entries
}

impl RowInput {
    /// The values given, as column names paired with values, in the order of
    /// the names.
    pub fn values(&self) -> (r: &[(String, Value)])
        ensures
            r@ == self.entries@,
    {
        self.entries.as_slice()
    }

    /// The value given for the column named `column`.
    pub fn value_for(&self, column: &str) -> (r: Option<&Value>)
        requires
            self.wf(),
        ensures
            match r {
                Some(v) => self.get_spec(column@) == Some(*v),
                None => self.get_spec(column@) is None,
            },
    {
        let mut i: usize = 0;
        while i < self.entries.len()
            invariant
                self.wf(),
                i <= self.entries@.len(),
                forall|k: int| 0 <= k < i ==> self.entries@[k].0@ != column@,
            decreases self.entries@.len() - i,
        {
            if text_eq(self.entries[i].0.as_str(), column) {
                proof {
                    lemma_value_of_at(self.entries@, i as int);
                }
                return Some(&self.entries[i].1);
            }
            i = i + 1;
        }
        proof {
            if has_key(self.entries@, column@) {
                let k = choose|k: int| 0 <= k < self.entries@.len() && #[trigger] self.entries@[k].0@ == column@;
                assert(self.entries@[k].0@ != column@);
            }
        }
        None
    }
}

/// An equality filter on one normal column.
#[derive(Debug, Clone, PartialEq, Eq)]
pub struct ExactFilter {
    pub column: String,
    pub value: Value,
}

impl ExactFilter {
    pub fn new(column: &str, value: Value) -> (r: Result<Self, SchemaError>)
        ensures
            match r {
                Ok(f) => f.column@ == trimmed(column@) && f.column@.len() > 0 && f.value == value,
                Err(e) => trimmed(column@).len() == 0 && e == SchemaError::EmptyIdentifier(
                    "filter column",
                ),
            },
    {
        let column = normalize_identifier(column, "filter column")?;
        Ok(ExactFilter { column, value })
    }

    pub fn column(&self) -> (r: &str)
        ensures
            r@ == self.column@,
    {
        self.column.as_str()
    }

    pub fn value(&self) -> (r: &Value)
        ensures
            *r == self.value,
    {
        &self.value
    }
}

/// Column names paired with the values of one row.
#[derive(Debug, Clone, PartialEq, Eq)]
pub struct NamedValues {
    pub entries: Vec<(String, Value)>,
}

impl NamedValues {
    /// The value paired with the first entry named `column`.
    pub fn get(&self, column: &str) -> (r: Option<&Value>)
        ensures
            match r {
                Some(v) => exists|i: int|
                    0 <= i < self.entries@.len() && self.entries@[i].0@ == column@ && *v
                        == self.entries@[i].1 && forall|k: int|
                        0 <= k < i ==> self.entries@[k].0@ != column@,
                None => !has_key(self.entries@, column@),
            },
    {
        let mut i: usize = 0;
        while i < self.entries.len()
            invariant
                i <= self.entries@.len(),
                forall|k: int| 0 <= k < i ==> self.entries@[k].0@ != column@,
            decreases self.entries@.len() - i,
        {
            if text_eq(self.entries[i].0.as_str(), column) {
                return Some(&self.entries[i].1);
            }
            i = i + 1;
        }
        None
    }

    pub fn len(&self) -> (r: usize)
        ensures
            r == self.entries@.len(),
    {
        self.entries.len()
    }
}

/// A stored row: its identifier and one value per column of its table.
#[derive(Debug, Clone, PartialEq, Eq)]
pub struct Row {
    pub id: RowId,
    pub values: Vec<Value>,
}

impl Row {
    pub fn new(id: RowId, values: Vec<Value>) -> (r: Self)
        ensures
            r.id == id,
            r.values == values,
    {
        Row { id, values }
    }

    pub fn id(&self) -> (r: RowId)
        ensures
            r == self.id,
    {
        self.id
    }

    pub fn values(&self) -> (r: &[Value])
        ensures
            r@ == self.values@,
    {
        self.values.as_slice()
    }

    pub fn value_at(&self, index: usize) -> (r: Option<&Value>)
        ensures
            match r {
                Some(v) => index < self.values@.len() && *v == self.values@[index as int],
                None => index >= self.values@.len(),
            },
    {
        if index < self.values.len() {
            Some(&self.values[index])
        } else {
            None
        }
    }

    /// The value of the first column of `schema` named `column`.
    pub fn get<'a>(&'a self, schema: &'a TableSchema, column: &str) -> (r: Option<&'a Value>)
        requires
            schema.wf(),
        ensures
            match r {
                Some(v) => cell(schema.columns@, self.values@, column@) == Some(*v),
                None => cell(schema.columns@, self.values@, column@) is None,
            },
    {
        let idx = column_index(schema.columns.as_slice(), column);
        proof {
            lemma_first_index_is_pos(schema.columns@, column@, idx);
        }
        match idx {
            Some(i) => self.value_at(i),
            None => None,
        }
    }

    /// Column names of `schema` paired with the values of this row, as far
    /// as both go, in the order of the names; where two columns share a
    /// name, the later one's value is kept.
    pub fn as_named_values(&self, schema: &TableSchema) -> (r: NamedValues)
        ensures
            keys_sorted(r.entries@),
            forall|k: Seq<char>|
                #[trigger] value_of(r.entries@, k) == last_value(
                    schema.columns@,
                    self.values@,
                    named_len(schema.columns@, self.values@),
                    k,
                ),
    {
        let mut entries: Vec<(String, Value)> = Vec::new();
        let mut i: usize = 0;
        while i < schema.columns.len() && i < self.values.len()
            invariant
                i <= schema.columns@.len(),
                i <= self.values@.len(),
                keys_sorted(entries@),
                forall|k: Seq<char>|
                    #[trigger] value_of(entries@, k) == last_value(schema.columns@, self.values@, i as int, k),
            decreases self.values@.len() - i,
        {
            let ghost before = entries@;
            entries = put_entry(entries, schema.columns[i].name.clone(), self.values[i].clone());
            proof {
                assert forall|k: Seq<char>|
                    #[trigger] value_of(entries@, k) == last_value(schema.columns@, self.values@, i + 1, k) by {
                    if k != schema.columns@[i as int].name@ {
                        assert(value_of(entries@, k) == value_of(before, k));
                    }
                }
            }
            i = i + 1;
        }
        NamedValues { entries }
    }
}

/// How far both the columns and the values go.
pub open spec fn named_len(cols: Seq<ColumnSchema>, values: Seq<Value>) -> int {
    if cols.len() <= values.len() {
        cols.len() as int
    } else {
        values.len() as int
    }
}

/// The value of the last of the first `n` columns that is named `k`, if any.
pub open spec fn last_value(cols: Seq<ColumnSchema>, values: Seq<Value>, n: int, k: Seq<char>) -> Option<Value>
    decreases n,
{
    if n <= 0 {
        None
    } else if cols[n - 1].name@ == k {
        Some(values[n - 1])
    } else {
        last_value(cols, values, n - 1, k)
    }
}

} // verus!
