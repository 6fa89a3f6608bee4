use vstd::prelude::*;

use crate::error::SchemaError;
use crate::text::{text_eq, trim_text, trimmed};
use crate::value::DataType;

verus! {

/// Whether a column takes part in semantic judgment.
#[derive(Debug, Clone, Copy, PartialEq, Eq, Structural)]
pub enum ColumnRole {
    Normal,
    Semantic,
}

/// The name of a column role as it is displayed.
pub open spec fn role_name(r: ColumnRole) -> Seq<char> {
    match r {
        ColumnRole::Normal => "normal"@,
        ColumnRole::Semantic => "semantic"@,
    }
}

impl ColumnRole {
    pub fn name(self) -> (r: &'static str)
        ensures
            r@ == role_name(self),
    {
        match self {
            ColumnRole::Normal => "normal",
            ColumnRole::Semantic => "semantic",
        }
    }
}

/// An identifier as it is stored: trimmed and non-empty.
pub open spec fn is_identifier(s: Seq<char>) -> bool {
    s == trimmed(s) && s.len() > 0
}

/// Trims `raw`; an identifier may not be empty once trimmed.
pub fn normalize_identifier(raw: &str, kind: &'static str) -> (r: Result<String, SchemaError>)
    ensures
        match r {
            Ok(s) => s@ == trimmed(raw@) && s@.len() > 0,
            Err(e) => trimmed(raw@).len() == 0 && e == SchemaError::EmptyIdentifier(kind),
        },
{
    let t = trim_text(raw);
    if t.as_str().unicode_len() == 0 {
        return Err(SchemaError::EmptyIdentifier(kind));
    }
    Ok(t)
}

/// A named, typed column.
#[derive(Debug, Clone, PartialEq, Eq)]
pub struct ColumnSchema {
    pub name: String,
    pub data_type: DataType,
    pub role: ColumnRole,
}

impl ColumnSchema {
    pub open spec fn wf(&self) -> bool {
        is_identifier(self.name@)
    }

    pub fn new(name: &str, data_type: DataType, role: ColumnRole) -> (r: Result<Self, SchemaError>)
        ensures
            match r {
                Ok(c) => {
                    &&& c.wf()
                    &&& c.name@ == trimmed(name@)
                    &&& c.name@.len() > 0
                    &&& c.data_type == data_type
                    &&& c.role == role
                },
                Err(e) => trimmed(name@).len() == 0 && e == SchemaError::EmptyIdentifier("column name"),
            },
    {
        let ghost raw = name@;
        let name = normalize_identifier(name, "column name")?;
        proof {
            crate::text::lemma_trimmed_idempotent(raw);
        }
        Ok(ColumnSchema { name, data_type, role })
    }

    pub fn name(&self) -> (r: &str)
        ensures
            r@ == self.name@,
    {
        self.name.as_str()
    }

    pub fn data_type(&self) -> (r: DataType)
        ensures
            r == self.data_type,
    {
        self.data_type
    }

    pub fn role(&self) -> (r: ColumnRole)
        ensures
            r == self.role,
    {
        self.role
    }
}

/// The texts that a sequence of string slices holds.
pub open spec fn texts_of(s: Seq<&str>) -> Seq<Seq<char>> {
    s.map_values(|x: &str| x@)
}

/// The texts that a sequence of strings holds.
pub open spec fn strings_text(s: Seq<String>) -> Seq<Seq<char>> {
    s.map_values(|x: String| x@)
}

/// Raw scope columns before index `i` are valid scope columns once trimmed:
/// non-empty and not repeated.
pub open spec fn scope_prefix_ok(raw: Seq<Seq<char>>, i: int) -> bool {
    forall|j: int|
        0 <= j < i ==> {
            &&& trimmed(#[trigger] raw[j]).len() > 0
            &&& forall|k: int| 0 <= k < j ==> trimmed(raw[k]) != trimmed(raw[j])
        }
}

/// The ordered, non-empty list of semantic columns whose values make up the
/// semantic subject of a row.
#[derive(Debug, Clone, PartialEq, Eq)]
pub struct SemanticScope {
    pub columns: Vec<String>,
}

impl SemanticScope {
    pub open spec fn wf(&self) -> bool {
        &&& self.columns@.len() > 0
        &&& forall|j: int| 0 <= j < self.columns@.len() ==> #[trigger] self.columns@[j]@.len() > 0
        &&& forall|j: int, k: int|
            0 <= k < j < self.columns@.len() ==> self.columns@[k]@ != self.columns@[j]@
    }

    pub fn new(columns: &[&str]) -> (r: Result<Self, SchemaError>)
        ensures
            match r {
                Ok(scope) => {
                    &&& scope.wf()
                    &&& scope.columns@.len() == columns@.len()
                    &&& forall|j: int|
                        0 <= j < columns@.len() ==> #[trigger] scope.columns@[j]@ == trimmed(
                            columns@[j]@,
                        )
                    &&& scope_prefix_ok(texts_of(columns@), columns@.len() as int)
                },
                Err(SchemaError::EmptyIdentifier(kind)) => {
                    &&& kind == "semantic scope column"
                    &&& exists|i: int|
                        0 <= i < columns@.len() && scope_prefix_ok(texts_of(columns@), i)
                            && trimmed(#[trigger] columns@[i]@).len() == 0
                },
                Err(SchemaError::DuplicateSemanticScopeColumn(c)) => {
                    exists|i: int|
                        0 <= i < columns@.len() && scope_prefix_ok(texts_of(columns@), i)
                            && trimmed(#[trigger] columns@[i]@).len() > 0 && c@ == trimmed(
                            columns@[i]@,
                        ) && exists|k: int| 0 <= k < i && trimmed(columns@[k]@) == c@
                },
                Err(SchemaError::EmptySemanticScope) => columns@.len() == 0,
                Err(_) => false,
            },
    {
        let mut normalized: Vec<String> = Vec::new();
        let ghost raw = texts_of(columns@);
        let mut i: usize = 0;
        while i < columns.len()
            invariant
                i <= columns@.len(),
                raw == texts_of(columns@),
                scope_prefix_ok(raw, i as int),
                normalized@.len() == i,
                forall|j: int| 0 <= j < i ==> #[trigger] normalized@[j]@ == trimmed(raw[j]),
            decreases columns@.len() - i,
        {
            let column = match normalize_identifier(columns[i], "semantic scope column") {
                Ok(c) => c,
                Err(e) => {
                    assert(raw[i as int] == columns@[i as int]@);
                    return Err(e);
                },
            };
            let mut k: usize = 0;
            while k < i
                invariant
                    k <= i,
                    i < columns@.len(),
                    raw == texts_of(columns@),
                    normalized@.len() == i,
                    column@ == trimmed(raw[i as int]),
                    column@.len() > 0,
                    scope_prefix_ok(raw, i as int),
                    forall|j: int| 0 <= j < i ==> #[trigger] normalized@[j]@ == trimmed(raw[j]),
                    forall|j: int| 0 <= j < k ==> trimmed(raw[j]) != column@,
                decreases i - k,
            {
                if normalized[k] == column {
                    assert(raw[i as int] == columns@[i as int]@);
                    assert(trimmed(columns@[k as int]@) == column@) by {
                        assert(raw[k as int] == columns@[k as int]@);
                    }
                    assert(trimmed(columns@[i as int]@).len() > 0);
                    assert(exists|k: int| 0 <= k < i && trimmed(columns@[k]@) == column@);
                    return Err(SchemaError::DuplicateSemanticScopeColumn(column));
                }
                k = k + 1;
            }
            normalized.push(column);
            i = i + 1;
        }
        if normalized.len() == 0 {
            return Err(SchemaError::EmptySemanticScope);
        }
        let scope = SemanticScope { columns: normalized };
        assert forall|j: int| 0 <= j < columns@.len() implies #[trigger] scope.columns@[j]@
            == trimmed(columns@[j]@) by {
            assert(raw[j] == columns@[j]@);
        }
        assert forall|j: int| 0 <= j < scope.columns@.len() implies #[trigger] scope.columns@[j]@.len() > 0 by {
            assert(trimmed(raw[j]).len() > 0);
        }
        Ok(scope)
    }

    pub fn columns(&self) -> (r: &[String])
        ensures
            r@ == self.columns@,
    {
        self.columns.as_slice()
    }
}


/// Column names before index `i` are pairwise different.
pub open spec fn names_distinct_upto(cols: Seq<ColumnSchema>, i: int) -> bool {
    forall|a: int, b: int| 0 <= a < b < i ==> cols[a].name@ != cols[b].name@
}

pub open spec fn names_distinct(cols: Seq<ColumnSchema>) -> bool {
    names_distinct_upto(cols, cols.len() as int)
}

pub open spec fn has_semantic_column(cols: Seq<ColumnSchema>) -> bool {
    exists|i: int| 0 <= i < cols.len() && #[trigger] cols[i].role == ColumnRole::Semantic
}

/// Some column is named `name`.
pub open spec fn names_column(cols: Seq<ColumnSchema>, name: Seq<char>) -> bool {
    exists|i: int| 0 <= i < cols.len() && #[trigger] cols[i].name@ == name
}

/// Some semantic column is named `name`.
pub open spec fn names_semantic_column(cols: Seq<ColumnSchema>, name: Seq<char>) -> bool {
    exists|i: int|
        0 <= i < cols.len() && #[trigger] cols[i].name@ == name && cols[i].role
            == ColumnRole::Semantic
}

/// The scope columns before index `j` each name a semantic column.
pub open spec fn scope_ok_upto(cols: Seq<ColumnSchema>, scope: Seq<String>, j: int) -> bool {
    forall|k: int| 0 <= k < j ==> names_semantic_column(cols, #[trigger] scope[k]@)
}

/// The first scope column that names no column is `c`.
pub open spec fn unknown_scope_column(cols: Seq<ColumnSchema>, scope: Seq<String>, c: Seq<char>) -> bool {
    exists|j: int|
        0 <= j < scope.len() && scope_ok_upto(cols, scope, j) && #[trigger] scope[j]@ == c
            && !names_column(cols, c)
}

/// The first scope column that does not name a semantic column is `c`,
/// which names a column of role `role`.
pub open spec fn non_semantic_scope_column(
    cols: Seq<ColumnSchema>,
    scope: Seq<String>,
    c: Seq<char>,
    role: ColumnRole,
) -> bool {
    &&& role != ColumnRole::Semantic
    &&& exists|j: int|
        0 <= j < scope.len() && scope_ok_upto(cols, scope, j) && #[trigger] scope[j]@ == c
            && exists|i: int| 0 <= i < cols.len() && cols[i].name@ == c && cols[i].role == role
}

/// `i` is the position of the first column named `name`, if any.
pub open spec fn is_first_column_index(cols: Seq<ColumnSchema>, name: Seq<char>, r: Option<usize>) -> bool {
    match r {
        Some(i) => i < cols.len() && cols[i as int].name@ == name && forall|k: int|
            0 <= k < i ==> #[trigger] cols[k].name@ != name,
        None => forall|k: int| 0 <= k < cols.len() ==> #[trigger] cols[k].name@ != name,
    }
}

/// A position of a column named `name`; with distinct names, the only one.
pub open spec fn column_pos(cols: Seq<ColumnSchema>, name: Seq<char>) -> int {
    choose|i: int| 0 <= i < cols.len() && #[trigger] cols[i].name@ == name
}

/// With distinct names, the first column named `name` is at `column_pos`.
pub proof fn lemma_first_index_is_pos(cols: Seq<ColumnSchema>, name: Seq<char>, r: Option<usize>)
    requires
        names_distinct(cols),
        is_first_column_index(cols, name, r),
    ensures
        r is Some <==> names_column(cols, name),
        r matches Some(i) ==> i == column_pos(cols, name),
{
    match r {
        Some(i) => {
            assert(cols[i as int].name@ == name);
            let p = column_pos(cols, name);
            if p != i {
                if p < i {
                } else {
                    assert(cols[i as int].name@ != cols[p].name@);
                }
            }
        },
        None => {
            if names_column(cols, name) {
                let w = choose|w: int| 0 <= w < cols.len() && #[trigger] cols[w].name@ == name;
                assert(cols[w].name@ != name);
            }
        },
    }
}

/// Position of the first column named `name`.
pub fn column_index(cols: &[ColumnSchema], name: &str) -> (r: Option<usize>)
    ensures
        is_first_column_index(cols@, name@, r),
{
    let mut i: usize = 0;
    while i < cols.len()
        invariant
            i <= cols@.len(),
            forall|k: int| 0 <= k < i ==> #[trigger] cols@[k].name@ != name@,
        decreases cols@.len() - i,
    {
        if text_eq(cols[i].name.as_str(), name) {
            return Some(i);
        }
        i = i + 1;
    }
    None
}

/// The schema of a table: its name, its columns in order, and the semantic
/// scope that semantic judgment reads.
#[derive(Debug, Clone, PartialEq, Eq)]
pub struct TableSchema {
    pub name: String,
    pub columns: Vec<ColumnSchema>,
    pub semantic_scope: Option<SemanticScope>,
}

impl TableSchema {
    pub open spec fn wf(&self) -> bool {
        &&& self.name@.len() > 0
        &&& self.columns@.len() > 0
        &&& forall|i: int| 0 <= i < self.columns@.len() ==> #[trigger] self.columns@[i].wf()
        &&& names_distinct(self.columns@)
        &&& has_semantic_column(self.columns@) ==> self.semantic_scope is Some
        &&& match self.semantic_scope {
            Some(scope) => scope.wf() && scope_ok_upto(
                self.columns@,
                scope.columns@,
                scope.columns@.len() as int,
            ),
            None => true,
        }
    }

    pub fn new(name: &str, columns: Vec<ColumnSchema>, semantic_scope: Option<SemanticScope>) -> (r:
        Result<Self, SchemaError>)
        requires
            forall|i: int| 0 <= i < columns@.len() ==> #[trigger] columns@[i].wf(),
            semantic_scope matches Some(s) ==> s.wf(),
        ensures
            match r {
                Ok(s) => {
                    &&& s.name@ == trimmed(name@)
                    &&& s.columns == columns
                    &&& s.semantic_scope == semantic_scope
                    &&& s.wf()
                },
                Err(SchemaError::EmptyIdentifier(kind)) => kind == "table name" && trimmed(name@).len()
                    == 0,
                Err(SchemaError::NoColumns) => trimmed(name@).len() > 0 && columns@.len() == 0,
                Err(SchemaError::DuplicateColumnName(c)) => {
                    &&& trimmed(name@).len() > 0
                    &&& exists|i: int|
                        0 <= i < columns@.len() && names_distinct_upto(columns@, i)
                            && #[trigger] columns@[i].name@ == c@ && exists|k: int|
                            0 <= k < i && columns@[k].name@ == c@
                },
                Err(SchemaError::MissingSemanticScope) => {
                    &&& trimmed(name@).len() > 0
                    &&& columns@.len() > 0
                    &&& names_distinct(columns@)
                    &&& has_semantic_column(columns@)
                    &&& semantic_scope is None
                },
                Err(SchemaError::UnknownSemanticScopeColumn(c)) => {
                    &&& trimmed(name@).len() > 0
                    &&& columns@.len() > 0
                    &&& names_distinct(columns@)
                    &&& semantic_scope matches Some(sc) && unknown_scope_column(
                        columns@,
                        sc.columns@,
                        c@,
                    )
                },
                Err(SchemaError::NonSemanticScopeColumn { column, role }) => {
                    &&& trimmed(name@).len() > 0
                    &&& columns@.len() > 0
                    &&& names_distinct(columns@)
                    &&& semantic_scope matches Some(sc) && non_semantic_scope_column(
                        columns@,
                        sc.columns@,
                        column@,
                        role,
                    )
                },
                Err(_) => false,
            },
    {
        let table_name = normalize_identifier(name, "table name")?;
        if columns.len() == 0 {
            return Err(SchemaError::NoColumns);
        }
        let mut has_semantic = false;
        let mut i: usize = 0;
        while i < columns.len()
            invariant
                i <= columns@.len(),
                trimmed(name@).len() > 0,
                names_distinct_upto(columns@, i as int),
                has_semantic == exists|k: int|
                    0 <= k < i && #[trigger] columns@[k].role == ColumnRole::Semantic,
            decreases columns@.len() - i,
        {
            let mut k: usize = 0;
            while k < i
                invariant
                    k <= i < columns@.len(),
                    trimmed(name@).len() > 0,
                    names_distinct_upto(columns@, i as int),
                    forall|a: int| 0 <= a < k ==> columns@[a].name@ != columns@[i as int].name@,
                decreases i - k,
            {
                if columns[k].name == columns[i].name {
                    let dup = columns[i].name.clone();
                    assert(names_distinct_upto(columns@, i as int));
                    assert(columns@[i as int].name@ == dup@);
                    assert(columns@[k as int].name@ == dup@);
                    assert(exists|i2: int|
                        0 <= i2 < columns@.len() && names_distinct_upto(columns@, i2)
                            && #[trigger] columns@[i2].name@ == dup@ && exists|k2: int|
                            0 <= k2 < i2 && columns@[k2].name@ == dup@);
                    return Err(SchemaError::DuplicateColumnName(dup));
                }
                k = k + 1;
            }
            match columns[i].role {
                ColumnRole::Semantic => {
                    has_semantic = true;
                },
                ColumnRole::Normal => {},
            }
            i = i + 1;
        }
        assert(names_distinct(columns@));
        if has_semantic && semantic_scope.is_none() {
            return Err(SchemaError::MissingSemanticScope);
        }
        match &semantic_scope {
            Some(scope) => {
                let mut j: usize = 0;
                while j < scope.columns.len()
                    invariant
                        j <= scope.columns@.len(),
                        trimmed(name@).len() > 0,
                        columns@.len() > 0,
                        names_distinct(columns@),
                        semantic_scope == Some(*scope),
                        scope_ok_upto(columns@, scope.columns@, j as int),
                    decreases scope.columns@.len() - j,
                {
                    match column_index(columns.as_slice(), scope.columns[j].as_str()) {
                        None => {
                            let missing = scope.columns[j].clone();
                            assert(!names_column(columns@, missing@)) by {
                                if names_column(columns@, missing@) {
                                    let w = choose|w: int|
                                        0 <= w < columns@.len() && #[trigger] columns@[w].name@
                                            == missing@;
                                    assert(columns@[w].name@ != missing@);
                                }
                            }
                            assert(scope.columns@[j as int]@ == missing@);
                            assert(unknown_scope_column(columns@, scope.columns@, missing@));
                            return Err(SchemaError::UnknownSemanticScopeColumn(missing));
                        },
                        Some(idx) => match columns[idx].role {
                            ColumnRole::Semantic => {},
                            ColumnRole::Normal => {
                                let column = scope.columns[j].clone();
                                assert(columns@[idx as int].name@ == column@);
                                assert(scope.columns@[j as int]@ == column@);
                                assert(non_semantic_scope_column(
                                    columns@,
                                    scope.columns@,
                                    column@,
                                    ColumnRole::Normal,
                                ));
                                return Err(
                                    SchemaError::NonSemanticScopeColumn {
                                        column,
                                        role: ColumnRole::Normal,
                                    },
                                );
                            },
                        },
                    }
                    j = j + 1;
                }
            },
            None => {},
        }
        Ok(TableSchema { name: table_name, columns, semantic_scope })
    }

    pub fn name(&self) -> (r: &str)
        ensures
            r@ == self.name@,
    {
        self.name.as_str()
    }

    pub fn columns(&self) -> (r: &[ColumnSchema])
        ensures
            r@ == self.columns@,
    {
        self.columns.as_slice()
    }

    /// The first column named `name`.
    pub fn column(&self, name: &str) -> (r: Option<&ColumnSchema>)
        ensures
            match r {
                Some(c) => exists|i: int|
                    0 <= i < self.columns@.len() && self.columns@[i] == *c
                        && is_first_column_index(self.columns@, name@, Some(i as usize)),
                None => is_first_column_index(self.columns@, name@, None),
            },
    {
        match column_index(self.columns.as_slice(), name) {
            Some(i) => Some(&self.columns[i]),
            None => None,
        }
    }

    pub fn semantic_scope(&self) -> (r: Option<&SemanticScope>)
        ensures
            match r {
                Some(s) => self.semantic_scope == Some(*s),
                None => self.semantic_scope is None,
            },
    {
        match &self.semantic_scope {
            Some(s) => Some(s),
            None => None,
        }
    }
}

} // verus!
