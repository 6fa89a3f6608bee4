use vstd::prelude::*;
use vstd::string::*;

use crate::text::{int_text, int_to_text};

verus! {

/// The type of a column.
#[derive(Debug, Clone, Copy, PartialEq, Eq, Structural)]
pub enum DataType {
    Int64,
    Text,
    Bool,
}

/// A cell value.
#[derive(Debug, PartialEq, Eq)]
pub enum Value {
    Int64(i64),
    Text(String),
    Bool(bool),
}

/// Mathematical model of a value: text is a sequence of characters.
pub enum ValueView {
    Int64(i64),
    Text(Seq<char>),
    Bool(bool),
}

impl View for Value {
    type V = ValueView;

    open spec fn view(&self) -> ValueView {
        match self {
            Value::Int64(v) => ValueView::Int64(*v),
            Value::Text(s) => ValueView::Text(s@),
            Value::Bool(b) => ValueView::Bool(*b),
        }
    }
}

impl Clone for Value {
    fn clone(&self) -> (res: Self)
        ensures
            res == *self,
    {
        match self {
            Value::Int64(v) => Value::Int64(*v),
            Value::Text(s) => Value::Text(s.clone()),
            Value::Bool(b) => Value::Bool(*b),
        }
    }
}

impl Value {
    pub open spec fn spec_data_type(&self) -> DataType {
        match self {
            Value::Int64(_) => DataType::Int64,
            Value::Text(_) => DataType::Text,
            Value::Bool(_) => DataType::Bool,
        }
    }

    pub fn data_type(&self) -> (t: DataType)
        ensures
            t == self.spec_data_type(),
    {
        match self {
            Value::Int64(_) => DataType::Int64,
            Value::Text(_) => DataType::Text,
            Value::Bool(_) => DataType::Bool,
        }
    }

    /// Whether two values are the same value.
    pub fn same_as(&self, other: &Value) -> (r: bool)
        ensures
            r == (self@ == other@),
    {
        match (self, other) {
            (Value::Int64(a), Value::Int64(b)) => *a == *b,
            (Value::Text(a), Value::Text(b)) => *a == *b,
            (Value::Bool(a), Value::Bool(b)) => *a == *b,
            _ => false,
        }
    }
}

/// The name of a data type as it is displayed.
pub open spec fn data_type_name(t: DataType) -> Seq<char> {
    match t {
        DataType::Int64 => "int64"@,
        DataType::Text => "text"@,
        DataType::Bool => "bool"@,
    }
}

impl DataType {
    pub fn name(self) -> (r: &'static str)
        ensures
            r@ == data_type_name(self),
    {
        match self {
            DataType::Int64 => "int64",
            DataType::Text => "text",
            DataType::Bool => "bool",
        }
    }
}

/// A value as it is displayed: integers in decimal, text as it is, booleans
/// as `true` or `false`.
pub open spec fn value_text(v: Value) -> Seq<char> {
    match v {
        Value::Int64(i) => int_text(i as int),
        Value::Text(s) => s@,
        Value::Bool(b) => if b {
            "true"@
        } else {
            "false"@
        },
    }
}

impl Value {
    pub fn to_text(&self) -> (r: String)
        ensures
            r@ == value_text(*self),
    {
        match self {
            Value::Int64(i) => int_to_text(*i),
            Value::Text(s) => s.clone(),
            Value::Bool(b) => if *b {
                String::from_str("true")
            } else {
                String::from_str("false")
            },
        }
    }
}

} // verus!
