use vstd::prelude::*;
use vstd::string::*;

use crate::cli::command::pair_view;
use crate::cli::numbers::{i64_parse_error_text, i64_text_value, parse_i64_text};
use crate::cli::usage::CliError;
use crate::row::RowInput;
use crate::schema::{column_index, is_identifier, names_column, ColumnSchema, TableSchema};
use crate::text::{lemma_text_lt_transitive, lemma_text_lt_trichotomy, text_eq, text_less, text_lt};
use crate::value::{DataType, Value};

verus! {

/// The last raw value given for the key `k`.
pub open spec fn latest_value(raws: Seq<(Seq<char>, Seq<char>)>, k: Seq<char>) -> Option<Seq<char>>
    decreases raws.len(),
{
    if raws.len() == 0 {
        None
    } else if raws.last().0 == k {
        Some(raws.last().1)
    } else {
        latest_value(raws.drop_last(), k)
    }
}

/// Every key names a column.
pub open spec fn all_keys_known(raws: Seq<(Seq<char>, Seq<char>)>, cols: Seq<ColumnSchema>) -> bool {
    forall|i: int| 0 <= i < raws.len() ==> names_column(cols, (#[trigger] raws[i]).0)
}

/// `k` is the first key, in the order of texts, that names no column.
pub open spec fn first_unknown_key(raws: Seq<(Seq<char>, Seq<char>)>, cols: Seq<ColumnSchema>, k: Seq<char>) -> bool {
    &&& exists|i: int| 0 <= i < raws.len() && (#[trigger] raws[i]).0 == k
    &&& !names_column(cols, k)
    &&& forall|i: int|
        0 <= i < raws.len() && !names_column(cols, (#[trigger] raws[i]).0) ==> raws[i].0 == k || text_lt(k, raws[i].0)
}

/// Why the raw text does not make a value of the type, if it does not.
pub open spec fn value_error(t: DataType, raw: Seq<char>) -> Option<Seq<char>> {
    match t {
        DataType::Text => None,
        DataType::Int64 => if i64_text_value(raw) is Some {
            None
        } else {
            Some("invalid int64 value `"@ + raw + "`: "@ + i64_parse_error_text(raw))
        },
        DataType::Bool => if raw == "true"@ || raw == "false"@ {
            None
        } else {
            Some("invalid bool value `"@ + raw + "`, expected true or false"@)
        },
    }
}

/// `v` is the value of the type that the raw text writes.
pub open spec fn value_parsed(t: DataType, raw: Seq<char>, v: Value) -> bool {
    match t {
        DataType::Text => v matches Value::Text(s) && s@ == raw,
        DataType::Int64 => i64_text_value(raw) matches Some(n) && v == Value::Int64(n),
        DataType::Bool => (raw == "true"@ && v == Value::Bool(true)) || (raw == "false"@ && v == Value::Bool(false)),
    }
}

/// The latest raw value of each column before `c` parses.
pub open spec fn values_parse_upto(raws: Seq<(Seq<char>, Seq<char>)>, cols: Seq<ColumnSchema>, c: int) -> bool {
    forall|j: int|
        0 <= j < c ==> (latest_value(raws, (#[trigger] cols[j]).name@) matches Some(raw) ==> value_error(
            cols[j].data_type,
            raw,
        ) is None)
}

/// The value of a column of the type that the raw text writes.
pub fn parse_value(data_type: DataType, raw: &str) -> (r: Result<Value, CliError>)
    ensures
        match r {
            Ok(v) => value_error(data_type, raw@) is None && value_parsed(data_type, raw@, v),
            Err(e) => value_error(data_type, raw@) == Some(e.message@),
        },
{
    match data_type {
        DataType::Text => Ok(Value::Text(String::from_str(raw))),
        DataType::Int64 => match parse_i64_text(raw) {
            Ok(v) => Ok(Value::Int64(v)),
            Err(error) => {
                let mut m = String::from_str("invalid int64 value `");
                m.append(raw);
                m.append("`: ");
                m.append(error.as_str());
                Err(CliError::new(m.as_str()))
            },
        },
        DataType::Bool => if text_eq(raw, "true") {
            Ok(Value::Bool(true))
        } else if text_eq(raw, "false") {
            Ok(Value::Bool(false))
        } else {
            let mut m = String::from_str("invalid bool value `");
            m.append(raw);
            m.append("`, expected true or false");
            Err(CliError::new(m.as_str()))
        },
    }
}

/// The position of the last pair with key `k`.
fn latest_index(raws: &[(String, String)], k: &str) -> (r: Option<usize>)
    ensures
        match r {
            Some(j) => j < raws@.len() && latest_value(raws@.map_values(|p: (String, String)| pair_view(p)), k@)
                == Some(raws@[j as int].1@),
            None => latest_value(raws@.map_values(|p: (String, String)| pair_view(p)), k@) is None,
        },
{
    let ghost v = raws@.map_values(|p: (String, String)| pair_view(p));
    let mut i: usize = raws.len();
    proof {
        assert(v.take(i as int) =~= v);
    }
    while i > 0
        invariant
            v == raws@.map_values(|p: (String, String)| pair_view(p)),
            i <= raws@.len(),
            latest_value(v, k@) == latest_value(v.take(i as int), k@),
        decreases i,
    {
        proof {
            assert(v.take(i as int).drop_last() =~= v.take(i - 1));
            assert(v.take(i as int).last() == pair_view(raws@[i - 1]));
        }
        if text_eq(raws[i - 1].0.as_str(), k) {
            return Some(i - 1);
        }
        i = i - 1;
    }
    None
}

/// The values that `--set` pairs give to the columns of a table: the last
/// pair of each key counts, every key must name a column, and each value
/// must parse as the column's type.
pub fn parse_row_input(schema: &TableSchema, raw_values: &[(String, String)]) -> (r: Result<RowInput, CliError>)
    requires
        schema.wf(),
    ensures
        ({
            let raws = raw_values@.map_values(|p: (String, String)| pair_view(p));
            let cols = schema.columns@;
            match r {
                Ok(input) => {
                    &&& input.wf()
                    &&& raws.len() > 0
                    &&& all_keys_known(raws, cols)
                    &&& values_parse_upto(raws, cols, cols.len() as int)
                    &&& forall|c: int|
                        0 <= c < cols.len() ==> match latest_value(raws, (#[trigger] cols[c]).name@) {
                            Some(raw) => input.get_spec(cols[c].name@) matches Some(v) && value_parsed(
                                cols[c].data_type,
                                raw,
                                v,
                            ),
                            None => input.get_spec(cols[c].name@) is None,
                        }
                    &&& forall|k: Seq<char>| #[trigger] input.get_spec(k) is Some ==> names_column(cols, k)
                },
                Err(e) => if raws.len() == 0 {
                    e.message@ == "persist requires at least one --set KEY=VALUE pair"@
                } else if !all_keys_known(raws, cols) {
                    exists|k: Seq<char>|
                        #[trigger] first_unknown_key(raws, cols, k) && e.message@ == "unknown column `"@ + k
                            + "` for table `"@ + schema.name@ + "`"@
                } else {
                    exists|c: int|
                        0 <= c < cols.len() && values_parse_upto(raws, cols, c) && (latest_value(
                            raws,
                            (#[trigger] cols[c]).name@,
                        ) matches Some(raw) && value_error(cols[c].data_type, raw) == Some(e.message@))
                },
            }
        }),
{
    let ghost raws = raw_values@.map_values(|p: (String, String)| pair_view(p));
    let ghost cols = schema.columns@;
    if raw_values.len() == 0 {
        return Err(CliError::new("persist requires at least one --set KEY=VALUE pair"));
    }
    let mut worst: Option<usize> = None;
    let mut i: usize = 0;
    while i < raw_values.len()
        invariant
            raws == raw_values@.map_values(|p: (String, String)| pair_view(p)),
            cols == schema.columns@,
            i <= raw_values@.len(),
            match worst {
                None => forall|j: int| 0 <= j < i ==> names_column(cols, (#[trigger] raws[j]).0),
                Some(w) => {
                    &&& w < i
                    &&& !names_column(cols, raws[w as int].0)
                    &&& forall|j: int|
                        0 <= j < i && !names_column(cols, (#[trigger] raws[j]).0) ==> raws[j].0 == raws[w as int].0
                            || text_lt(raws[w as int].0, raws[j].0)
                },
            },
        decreases raw_values@.len() - i,
    {
        let key = raw_values[i].0.as_str();
        let found = column_index(schema.columns.as_slice(), key);
        proof {
            assert(raws[i as int].0 == key@);
            if found is None {
                assert(!names_column(cols, key@));
            } else {
                assert(names_column(cols, key@)) by {
                    let q = found->Some_0;
                    assert(cols[q as int].name@ == key@);
                }
            }
        }
        if found.is_none() {
            match worst {
                None => {
                    worst = Some(i);
                },
                Some(w) => {
                    if text_less(key, raw_values[w].0.as_str()) {
                        proof {
                            assert forall|j: int| 0 <= j < i + 1 && !names_column(cols, (#[trigger] raws[j]).0) implies raws[j].0
                                == key@ || text_lt(key@, raws[j].0) by {
                                if j < i && raws[j].0 != raws[w as int].0 {
                                    lemma_text_lt_transitive(key@, raws[w as int].0, raws[j].0);
                                }
                            }
                        }
                        worst = Some(i);
                    } else {
                        proof {
                            lemma_text_lt_trichotomy(key@, raws[w as int].0);
                        }
                    }
                },
            }
        }
        i = i + 1;
    }
    match worst {
        Some(w) => {
            let mut m = String::from_str("unknown column `");
            m.append(raw_values[w].0.as_str());
            m.append("` for table `");
            m.append(schema.name.as_str());
            m.append("`");
            proof {
                assert(first_unknown_key(raws, cols, raws[w as int].0));
            }
            return Err(CliError::new(m.as_str()));
        },
        None => {},
    }
    let mut input = RowInput::new();
    let mut c: usize = 0;
    while c < schema.columns.len()
        invariant
            schema.wf(),
            raws == raw_values@.map_values(|p: (String, String)| pair_view(p)),
            cols == schema.columns@,
            raws.len() > 0,
            all_keys_known(raws, cols),
            c <= cols.len(),
            input.wf(),
            values_parse_upto(raws, cols, c as int),
            forall|j: int|
                0 <= j < c ==> match latest_value(raws, (#[trigger] cols[j]).name@) {
                    Some(raw) => input.get_spec(cols[j].name@) matches Some(v) && value_parsed(cols[j].data_type, raw, v),
                    None => input.get_spec(cols[j].name@) is None,
                },
            forall|k: Seq<char>|
                #[trigger] input.get_spec(k) is Some ==> exists|j: int| 0 <= j < c && (#[trigger] cols[j]).name@ == k,
        decreases cols.len() - c,
    {
        let column = &schema.columns[c];
        proof {
            assert(column.wf());
            assert(is_identifier(column.name@));
        }
        match latest_index(raw_values, column.name.as_str()) {
            Some(j) => {
                let value = match parse_value(column.data_type, raw_values[j].1.as_str()) {
                    Ok(v) => v,
                    Err(e) => {
                        proof {
                            assert(values_parse_upto(raws, cols, c as int));
                            assert(latest_value(raws, cols[c as int].name@) == Some(raw_values@[j as int].1@));
                        }
                        return Err(e);
                    },
                };
                let ghost before = input;
                input = input.with_value(column.name.as_str(), value);
                proof {
                    assert forall|q: int| 0 <= q < c implies (#[trigger] cols[q]).name@ != column.name@ by {
                        assert(crate::schema::names_distinct(cols));
                    }
                    assert forall|k: Seq<char>| #[trigger] input.get_spec(k) is Some implies exists|q: int|
                        0 <= q < c + 1 && (#[trigger] cols[q]).name@ == k by {
                        if k != column.name@ {
                            assert(before.get_spec(k) is Some);
                        } else {
                            assert(cols[c as int].name@ == k);
                        }
                    }
                }
            },
            None => {
                proof {
                    assert(input.get_spec(column.name@) is None) by {
                        if input.get_spec(column.name@) is Some {
                            let q = choose|q: int| 0 <= q < c && (#[trigger] cols[q]).name@ == column.name@;
                            assert(crate::schema::names_distinct(cols));
                        }
                    }
                }
            },
        }
        c = c + 1;
    }
    proof {
        assert forall|k: Seq<char>| #[trigger] input.get_spec(k) is Some implies names_column(cols, k) by {
            let q = choose|q: int| 0 <= q < cols.len() && (#[trigger] cols[q]).name@ == k;
        }
    }
    Ok(input)
}

} // verus!
