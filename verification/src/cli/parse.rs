use vstd::prelude::*;
use vstd::string::*;

use crate::cli::args::{is_flag, split_on, split_once_on, split_once_text, split_text, starts_with_dashes};
use crate::cli::command::{spec_view, pair_view, ColumnSpec, Command, CommandView};
use crate::cli::numbers::{parse_u64_text, u64_parse_error_text, u64_text_value};
use crate::cli::usage::{with_usage_text, CliError};
use crate::schema::{strings_text, texts_of, ColumnRole};
use crate::text::{text_eq, trim_text, trimmed};
use crate::value::DataType;

verus! {

/// The value after the first occurrence of `flag` at or after `i` that has
/// one.
pub open spec fn option_value_from(a: Seq<Seq<char>>, flag: Seq<char>, i: int) -> Option<Seq<char>>
    decreases a.len() - i,
{
    if i < 0 || i + 1 >= a.len() {
        None
    } else if a[i] == flag {
        Some(a[i + 1])
    } else {
        option_value_from(a, flag, i + 1)
    }
}

/// The value after the first occurrence of `flag` that has one.
pub open spec fn option_value(a: Seq<Seq<char>>, flag: Seq<char>) -> Option<Seq<char>> {
    option_value_from(a, flag, 0)
}

/// The values of the occurrences of `flag` at or after `i`, reading an
/// occurrence and its value as one step.
pub open spec fn option_values_from(a: Seq<Seq<char>>, flag: Seq<char>, i: int) -> Seq<Seq<char>>
    decreases a.len() - i,
{
    if i < 0 || i >= a.len() {
        Seq::empty()
    } else if a[i] == flag && i + 1 < a.len() {
        seq![a[i + 1]] + option_values_from(a, flag, i + 2)
    } else {
        option_values_from(a, flag, i + 1)
    }
}

/// The values of every occurrence of `flag`.
pub open spec fn option_values(a: Seq<Seq<char>>, flag: Seq<char>) -> Seq<Seq<char>> {
    option_values_from(a, flag, 0)
}

/// The first problem with the options at or after `i`, read as pairs of an
/// allowed option and its value.
pub open spec fn flags_problem_from(a: Seq<Seq<char>>, allowed: Seq<Seq<char>>, i: int) -> Option<Seq<char>>
    decreases a.len() - i,
{
    if i < 0 || i >= a.len() {
        None
    } else if is_flag(a[i]) {
        if !allowed.contains(a[i]) {
            Some("unknown option `"@ + a[i] + "`"@)
        } else if i + 1 >= a.len() {
            Some("missing value for option `"@ + a[i] + "`"@)
        } else {
            flags_problem_from(a, allowed, i + 2)
        }
    } else {
        Some("unexpected positional argument `"@ + a[i] + "`"@)
    }
}

/// The value of a required option, or the message of its absence.
pub open spec fn need(a: Seq<Seq<char>>, flag: Seq<char>) -> Result<Seq<char>, Seq<char>> {
    match option_value(a, flag) {
        Some(v) => Ok(v),
        None => Err(with_usage_text("missing required option `"@ + flag + "`"@)),
    }
}

/// The number of a required numeric option, or why there is none.
pub open spec fn need_u64(a: Seq<Seq<char>>, flag: Seq<char>) -> Result<u64, Seq<char>> {
    match need(a, flag) {
        Err(m) => Err(m),
        Ok(raw) => match u64_text_value(raw) {
            Some(v) => Ok(v),
            None => Err(
                "invalid numeric value for `"@ + flag + "`: `"@ + raw + "` ("@ + u64_parse_error_text(raw) + ")"@,
            ),
        },
    }
}

/// The message of the first problem with the options, if any.
pub open spec fn extra_flags(a: Seq<Seq<char>>, allowed: Seq<Seq<char>>) -> Option<Seq<char>> {
    match flags_problem_from(a, allowed, 0) {
        Some(m) => Some(with_usage_text(m)),
        None => None,
    }
}

/// The text `a` followed by `b` and `c`.
fn text3(a: &str, b: &str, c: &str) -> (r: String)
    ensures
        r@ == a@ + b@ + c@,
{
    let mut out = String::from_str(a);
    out.append(b);
    out.append(c);
    out
}

/// The value after the first occurrence of `flag` that has one.
pub fn optional_string_option(args: &[String], flag: &str) -> (r: Option<String>)
    ensures
        match r {
            Some(v) => option_value(strings_text(args@), flag@) == Some(v@),
            None => option_value(strings_text(args@), flag@) is None,
        },
{
    let ghost a = strings_text(args@);
    let mut i: usize = 0;
    while i < args.len() && i + 1 < args.len()
        invariant
            a == strings_text(args@),
            i <= args@.len(),
            option_value_from(a, flag@, 0) == option_value_from(a, flag@, i as int),
        decreases args@.len() - i,
    {
        if text_eq(args[i].as_str(), flag) {
            return Some(args[i + 1].clone());
        }
        i = i + 1;
    }
    None
}

/// The values of every occurrence of `flag`.
pub fn collect_option_values(args: &[String], flag: &str) -> (r: Vec<String>)
    ensures
        strings_text(r@) == option_values(strings_text(args@), flag@),
{
    let ghost a = strings_text(args@);
    let mut values: Vec<String> = Vec::new();
    let mut index: usize = 0;
    while index < args.len()
        invariant
            a == strings_text(args@),
            index <= args@.len() + 1,
            strings_text(values@) + option_values_from(a, flag@, index as int) == option_values_from(a, flag@, 0),
        decreases args@.len() + 1 - index,
    {
        if text_eq(args[index].as_str(), flag) && index + 1 < args.len() {
            let ghost before = strings_text(values@);
            values.push(args[index + 1].clone());
            proof {
                assert(strings_text(values@) =~= before.push(a[index + 1]));
                assert(before + (seq![a[index + 1]] + option_values_from(a, flag@, index + 2)) =~= before.push(
                    a[index + 1],
                ) + option_values_from(a, flag@, index + 2));
            }
            index = index + 2;
        } else {
            index = index + 1;
        }
    }
    proof {
        assert(option_values_from(a, flag@, index as int) =~= Seq::<Seq<char>>::empty());
        assert(strings_text(values@) + Seq::<Seq<char>>::empty() =~= strings_text(values@));
    }
    values
}

/// Whether `s` is one of `items`.
fn text_listed(items: &[&str], s: &str) -> (r: bool)
    ensures
        r == texts_of(items@).contains(s@),
{
    let mut i: usize = 0;
    while i < items.len()
        invariant
            i <= items@.len(),
            forall|k: int| 0 <= k < i ==> items@[k]@ != s@,
        decreases items@.len() - i,
    {
        if text_eq(items[i], s) {
            assert(texts_of(items@)[i as int] == s@);
            return true;
        }
        i = i + 1;
    }
    proof {
        if texts_of(items@).contains(s@) {
            let k = choose|k: int| 0 <= k < texts_of(items@).len() && texts_of(items@)[k] == s@;
            assert(items@[k]@ == s@);
        }
    }
    false
}

/// Every argument is an allowed option followed by its value.
pub fn ensure_no_extra_flags(args: &[String], allowed: &[&str]) -> (r: Result<(), CliError>)
    ensures
        match r {
            Ok(()) => extra_flags(strings_text(args@), texts_of(allowed@)) is None,
            Err(e) => extra_flags(strings_text(args@), texts_of(allowed@)) == Some(e.message@),
        },
{
    let ghost a = strings_text(args@);
    let ghost al = texts_of(allowed@);
    let mut index: usize = 0;
    while index < args.len()
        invariant
            a == strings_text(args@),
            al == texts_of(allowed@),
            index <= args@.len() + 1,
            flags_problem_from(a, al, 0) == flags_problem_from(a, al, index as int),
        decreases args@.len() + 1 - index,
    {
        let item = args[index].as_str();
        if starts_with_dashes(item) {
            if !text_listed(allowed, item) {
                let m = text3("unknown option `", item, "`");
                return Err(CliError::with_usage(m.as_str()));
            }
            if index + 1 >= args.len() {
                let m = text3("missing value for option `", item, "`");
                return Err(CliError::with_usage(m.as_str()));
            }
            index = index + 2;
        } else {
            let m = text3("unexpected positional argument `", item, "`");
            return Err(CliError::with_usage(m.as_str()));
        }
    }
    Ok(())
}

/// The value of a required option.
pub fn require_string_option(args: &[String], flag: &str) -> (r: Result<String, CliError>)
    ensures
        match r {
            Ok(v) => need(strings_text(args@), flag@) == Ok::<Seq<char>, Seq<char>>(v@),
            Err(e) => need(strings_text(args@), flag@) == Err::<Seq<char>, Seq<char>>(e.message@),
        },
{
    match optional_string_option(args, flag) {
        Some(v) => Ok(v),
        None => {
            let m = text3("missing required option `", flag, "`");
            Err(CliError::with_usage(m.as_str()))
        },
    }
}

/// The path given to a required option.
pub fn require_path_option(args: &[String], flag: &str) -> (r: Result<String, CliError>)
    ensures
        match r {
            Ok(v) => need(strings_text(args@), flag@) == Ok::<Seq<char>, Seq<char>>(v@),
            Err(e) => need(strings_text(args@), flag@) == Err::<Seq<char>, Seq<char>>(e.message@),
        },
{
    require_string_option(args, flag)
}

/// The number given to a required option.
pub fn require_u64_option(args: &[String], flag: &str) -> (r: Result<u64, CliError>)
    ensures
        match r {
            Ok(v) => need_u64(strings_text(args@), flag@) == Ok::<u64, Seq<char>>(v),
            Err(e) => need_u64(strings_text(args@), flag@) == Err::<u64, Seq<char>>(e.message@),
        },
{
    let raw = require_string_option(args, flag)?;
    match parse_u64_text(raw.as_str()) {
        Ok(v) => Ok(v),
        Err(error) => {
            let mut m = text3("invalid numeric value for `", flag, "`: `");
            m.append(raw.as_str());
            m.append("` (");
            m.append(error.as_str());
            m.append(")");
            Err(CliError::new(m.as_str()))
        },
    }
}

/// The data type that a command line names.
pub open spec fn data_type_of(raw: Seq<char>) -> Result<DataType, Seq<char>> {
    if raw == "text"@ {
        Ok(DataType::Text)
    } else if raw == "int64"@ {
        Ok(DataType::Int64)
    } else if raw == "bool"@ {
        Ok(DataType::Bool)
    } else {
        Err("unknown data type `"@ + raw + "`, expected text|int64|bool"@)
    }
}

/// The column role that a command line names.
pub open spec fn role_of(raw: Seq<char>) -> Result<ColumnRole, Seq<char>> {
    if raw == "normal"@ {
        Ok(ColumnRole::Normal)
    } else if raw == "semantic"@ {
        Ok(ColumnRole::Semantic)
    } else {
        Err("unknown column role `"@ + raw + "`, expected normal|semantic"@)
    }
}

/// The piece at `i`, or nothing when there are fewer pieces.
pub open spec fn piece(parts: Seq<Seq<char>>, i: int) -> Seq<char> {
    if i < parts.len() {
        parts[i]
    } else {
        Seq::empty()
    }
}

/// The column that `NAME:TYPE:ROLE` describes, each part trimmed.
pub open spec fn column_spec_of(raw: Seq<char>) -> Result<(Seq<char>, DataType, ColumnRole), Seq<char>> {
    let parts = split_on(raw, ':');
    let bad = "invalid column spec `"@ + raw + "`, expected NAME:TYPE:ROLE"@;
    if trimmed(parts[0]).len() == 0 {
        Err(bad)
    } else {
        match data_type_of(trimmed(piece(parts, 1))) {
            Err(m) => Err(m),
            Ok(t) => match role_of(trimmed(piece(parts, 2))) {
                Err(m) => Err(m),
                Ok(r) => if parts.len() > 3 {
                    Err(bad)
                } else {
                    Ok((trimmed(parts[0]), t, r))
                },
            },
        }
    }
}

/// The columns that the texts describe, or the first problem.
pub open spec fn column_specs_of(raws: Seq<Seq<char>>) -> Result<Seq<(Seq<char>, DataType, ColumnRole)>, Seq<char>>
    decreases raws.len(),
{
    if raws.len() == 0 {
        Ok(Seq::empty())
    } else {
        match column_specs_of(raws.drop_last()) {
            Err(m) => Err(m),
            Ok(p) => match column_spec_of(raws.last()) {
                Err(m) => Err(m),
                Ok(c) => Ok(p.push(c)),
            },
        }
    }
}

/// The key, trimmed, and the value of `KEY=VALUE`.
pub open spec fn key_value_of(raw: Seq<char>) -> Result<(Seq<char>, Seq<char>), Seq<char>> {
    match split_once_on(raw, '=') {
        None => Err("invalid --set value `"@ + raw + "`, expected KEY=VALUE"@),
        Some((k, v)) => if trimmed(k).len() == 0 {
            Err("invalid --set value `"@ + raw + "`, key must be non-empty"@)
        } else {
            Ok((trimmed(k), v))
        },
    }
}

/// The pairs that the texts give, or the first problem.
pub open spec fn key_values_of(raws: Seq<Seq<char>>) -> Result<Seq<(Seq<char>, Seq<char>)>, Seq<char>>
    decreases raws.len(),
{
    if raws.len() == 0 {
        Ok(Seq::empty())
    } else {
        match key_values_of(raws.drop_last()) {
            Err(m) => Err(m),
            Ok(p) => match key_value_of(raws.last()) {
                Err(m) => Err(m),
                Ok(c) => Ok(p.push(c)),
            },
        }
    }
}

pub fn parse_data_type(raw: &str) -> (r: Result<DataType, CliError>)
    ensures
        match r {
            Ok(t) => data_type_of(raw@) == Ok::<DataType, Seq<char>>(t),
            Err(e) => data_type_of(raw@) == Err::<DataType, Seq<char>>(e.message@),
        },
{
    if text_eq(raw, "text") {
        Ok(DataType::Text)
    } else if text_eq(raw, "int64") {
        Ok(DataType::Int64)
    } else if text_eq(raw, "bool") {
        Ok(DataType::Bool)
    } else {
        let m = text3("unknown data type `", raw, "`, expected text|int64|bool");
        Err(CliError::new(m.as_str()))
    }
}

pub fn parse_role(raw: &str) -> (r: Result<ColumnRole, CliError>)
    ensures
        match r {
            Ok(t) => role_of(raw@) == Ok::<ColumnRole, Seq<char>>(t),
            Err(e) => role_of(raw@) == Err::<ColumnRole, Seq<char>>(e.message@),
        },
{
    if text_eq(raw, "normal") {
        Ok(ColumnRole::Normal)
    } else if text_eq(raw, "semantic") {
        Ok(ColumnRole::Semantic)
    } else {
        let m = text3("unknown column role `", raw, "`, expected normal|semantic");
        Err(CliError::new(m.as_str()))
    }
}

/// The trimmed piece at `i`, or the empty text.
fn trimmed_piece(parts: &Vec<String>, i: usize) -> (r: String)
    ensures
        r@ == trimmed(piece(strings_text(parts@), i as int)),
{
    if i < parts.len() {
        trim_text(parts[i].as_str())
    } else {
        proof {
            assert(trimmed(Seq::<char>::empty()) =~= Seq::<char>::empty()) by {
                reveal_with_fuel(crate::text::trim_front, 1);
                reveal_with_fuel(crate::text::trim_back, 1);
            }
        }
        String::new()
    }
}

/// The column that `NAME:TYPE:ROLE` describes.
pub fn parse_column_spec(raw: &str) -> (r: Result<ColumnSpec, CliError>)
    ensures
        match r {
            Ok(c) => column_spec_of(raw@) == Ok::<(Seq<char>, DataType, ColumnRole), Seq<char>>(spec_view(c)),
            Err(e) => column_spec_of(raw@) == Err::<(Seq<char>, DataType, ColumnRole), Seq<char>>(e.message@),
        },
{
    let parts = split_text(raw, ':');
    proof {
        crate::cli::args::lemma_split_on_len(raw@, ':');
    }
    let name = trimmed_piece(&parts, 0);
    if name.unicode_len() == 0 {
        let m = text3("invalid column spec `", raw, "`, expected NAME:TYPE:ROLE");
        return Err(CliError::new(m.as_str()));
    }
    let type_text = trimmed_piece(&parts, 1);
    let data_type = parse_data_type(type_text.as_str())?;
    let role_text = trimmed_piece(&parts, 2);
    let role = parse_role(role_text.as_str())?;
    if parts.len() > 3 {
        let m = text3("invalid column spec `", raw, "`, expected NAME:TYPE:ROLE");
        return Err(CliError::new(m.as_str()));
    }
    Ok(ColumnSpec { name, data_type, role })
}

/// The key, trimmed, and the value of `KEY=VALUE`.
pub fn parse_key_value(raw: &str) -> (r: Result<(String, String), CliError>)
    ensures
        match r {
            Ok(p) => key_value_of(raw@) == Ok::<(Seq<char>, Seq<char>), Seq<char>>(pair_view(p)),
            Err(e) => key_value_of(raw@) == Err::<(Seq<char>, Seq<char>), Seq<char>>(e.message@),
        },
{
    let (key, value) = match split_once_text(raw, '=') {
        Some(parts) => parts,
        None => {
            let m = text3("invalid --set value `", raw, "`, expected KEY=VALUE");
            return Err(CliError::new(m.as_str()));
        },
    };
    let k = trim_text(key.as_str());
    if k.unicode_len() == 0 {
        let m = text3("invalid --set value `", raw, "`, key must be non-empty");
        return Err(CliError::new(m.as_str()));
    }
    Ok((k, value))
}

/// `r` is the command `s` describes, or fails with the message `s` gives.
pub open spec fn result_matches(r: Result<Command, CliError>, s: Result<CommandView, Seq<char>>) -> bool {
    match r {
        Ok(c) => s == Ok::<CommandView, Seq<char>>(c@),
        Err(e) => s == Err::<CommandView, Seq<char>>(e.message@),
    }
}

/// The command that the options give, once the options are checked.
pub open spec fn checked(a: Seq<Seq<char>>, allowed: Seq<Seq<char>>, c: CommandView) -> Result<CommandView, Seq<char>> {
    match extra_flags(a, allowed) {
        Some(m) => Err(m),
        None => Ok(c),
    }
}

/// `init`: the database path.
pub open spec fn init_spec(a: Seq<Seq<char>>) -> Result<CommandView, Seq<char>> {
    match need(a, "--db"@) {
        Err(m) => Err(m),
        Ok(db) => checked(a, seq!["--db"@], CommandView::Init { db_path: db }),
    }
}

/// The scope columns that `--scope` lists, each trimmed.
pub open spec fn scope_of(a: Seq<Seq<char>>) -> Option<Seq<Seq<char>>> {
    match option_value(a, "--scope"@) {
        Some(v) => Some(split_on(v, ',').map_values(|p: Seq<char>| trimmed(p))),
        None => None,
    }
}

/// `create-table`: the path, the table, its columns and its scope.
pub open spec fn create_table_spec(a: Seq<Seq<char>>) -> Result<CommandView, Seq<char>> {
    match need(a, "--db"@) {
        Err(m) => Err(m),
        Ok(db) => match need(a, "--table"@) {
            Err(m) => Err(m),
            Ok(table) => if option_values(a, "--column"@).len() == 0 {
                Err(with_usage_text("create-table requires at least one --column NAME:TYPE:ROLE"@))
            } else {
                match column_specs_of(option_values(a, "--column"@)) {
                    Err(m) => Err(m),
                    Ok(specs) => checked(
                        a,
                        seq!["--db"@, "--table"@, "--column"@, "--scope"@],
                        CommandView::CreateTable { db_path: db, table_name: table, column_specs: specs, scope: scope_of(a) },
                    ),
                }
            },
        },
    }
}

/// `persist`: the path, the table and the values to write.
pub open spec fn persist_spec(a: Seq<Seq<char>>) -> Result<CommandView, Seq<char>> {
    match need(a, "--db"@) {
        Err(m) => Err(m),
        Ok(db) => match need(a, "--table"@) {
            Err(m) => Err(m),
            Ok(table) => if option_values(a, "--set"@).len() == 0 {
                Err(with_usage_text("persist requires at least one --set KEY=VALUE pair"@))
            } else {
                match key_values_of(option_values(a, "--set"@)) {
                    Err(m) => Err(m),
                    Ok(pairs) => checked(
                        a,
                        seq!["--db"@, "--table"@, "--set"@],
                        CommandView::Persist { db_path: db, table_name: table, raw_values: pairs },
                    ),
                }
            },
        },
    }
}

/// A command of a path and a table: `show-table` or `bind-create`.
pub open spec fn path_table_spec(a: Seq<Seq<char>>, show: bool) -> Result<CommandView, Seq<char>> {
    match need(a, "--db"@) {
        Err(m) => Err(m),
        Ok(db) => match need(a, "--table"@) {
            Err(m) => Err(m),
            Ok(table) => checked(
                a,
                seq!["--db"@, "--table"@],
                if show {
                    CommandView::ShowTable { db_path: db, table_name: table }
                } else {
                    CommandView::BindCreate { db_path: db, table_name: table }
                },
            ),
        },
    }
}

/// A command of a path, a binding and a row: `bind-add` or `bind-remove`.
pub open spec fn binding_row_spec(a: Seq<Seq<char>>, add: bool) -> Result<CommandView, Seq<char>> {
    match need(a, "--db"@) {
        Err(m) => Err(m),
        Ok(db) => match need_u64(a, "--binding"@) {
            Err(m) => Err(m),
            Ok(b) => match need_u64(a, "--row"@) {
                Err(m) => Err(m),
                Ok(row) => checked(
                    a,
                    seq!["--db"@, "--binding"@, "--row"@],
                    if add {
                        CommandView::BindAdd { db_path: db, binding_id: b, row_id: row }
                    } else {
                        CommandView::BindRemove { db_path: db, binding_id: b, row_id: row }
                    },
                ),
            },
        },
    }
}

/// A command of a path and a binding: `show-binding` or `project`.
pub open spec fn binding_spec(a: Seq<Seq<char>>, show: bool) -> Result<CommandView, Seq<char>> {
    match need(a, "--db"@) {
        Err(m) => Err(m),
        Ok(db) => match need_u64(a, "--binding"@) {
            Err(m) => Err(m),
            Ok(b) => checked(
                a,
                seq!["--db"@, "--binding"@],
                if show {
                    CommandView::ShowBinding { db_path: db, binding_id: b }
                } else {
                    CommandView::Project { db_path: db, binding_id: b }
                },
            ),
        },
    }
}

/// The command that the arguments describe: a command name, then its
/// options.
pub open spec fn parse_spec(a: Seq<Seq<char>>) -> Result<CommandView, Seq<char>> {
    if a.len() == 0 {
        Err(with_usage_text("missing command"@))
    } else {
        let c = a[0];
        let rest = a.drop_first();
        if c == "help"@ || c == "--help"@ || c == "-h"@ {
            Ok(CommandView::Help)
        } else if c == "init"@ {
            init_spec(rest)
        } else if c == "create-table"@ {
            create_table_spec(rest)
        } else if c == "persist"@ {
            persist_spec(rest)
        } else if c == "show-table"@ {
            path_table_spec(rest, true)
        } else if c == "bind-create"@ {
            path_table_spec(rest, false)
        } else if c == "bind-add"@ {
            binding_row_spec(rest, true)
        } else if c == "bind-remove"@ {
            binding_row_spec(rest, false)
        } else if c == "show-binding"@ {
            binding_spec(rest, true)
        } else if c == "project"@ {
            binding_spec(rest, false)
        } else {
            Err(with_usage_text("unknown command `"@ + c + "`"@))
        }
    }
}

pub fn parse_init(args: &[String]) -> (r: Result<Command, CliError>)
    ensures
        result_matches(r, init_spec(strings_text(args@))),
{
    let db_path = require_path_option(args, "--db")?;
    let allowed = vec!["--db"];
    proof {
        assert(texts_of(allowed@) =~= seq!["--db"@]);
    }
    ensure_no_extra_flags(args, allowed.as_slice())?;
    Ok(Command::Init { db_path })
}

/// Once a prefix of the column texts fails, every longer prefix fails the
/// same way.
proof fn lemma_column_error_stays(raws: Seq<Seq<char>>, i: int, j: int, m: Seq<char>)
    requires
        0 <= i <= j <= raws.len(),
        column_specs_of(raws.take(i)) == Err::<Seq<(Seq<char>, DataType, ColumnRole)>, Seq<char>>(m),
    ensures
        column_specs_of(raws.take(j)) == Err::<Seq<(Seq<char>, DataType, ColumnRole)>, Seq<char>>(m),
    decreases j - i,
{
    if j > i {
        lemma_column_error_stays(raws, i, j - 1, m);
        assert(raws.take(j).drop_last() =~= raws.take(j - 1));
    }
}

/// Once a prefix of the pair texts fails, every longer prefix fails the same
/// way.
proof fn lemma_pair_error_stays(raws: Seq<Seq<char>>, i: int, j: int, m: Seq<char>)
    requires
        0 <= i <= j <= raws.len(),
        key_values_of(raws.take(i)) == Err::<Seq<(Seq<char>, Seq<char>)>, Seq<char>>(m),
    ensures
        key_values_of(raws.take(j)) == Err::<Seq<(Seq<char>, Seq<char>)>, Seq<char>>(m),
    decreases j - i,
{
    if j > i {
        lemma_pair_error_stays(raws, i, j - 1, m);
        assert(raws.take(j).drop_last() =~= raws.take(j - 1));
    }
}

pub fn parse_create_table(args: &[String]) -> (r: Result<Command, CliError>)
    ensures
        result_matches(r, create_table_spec(strings_text(args@))),
{
    let ghost a = strings_text(args@);
    let db_path = require_path_option(args, "--db")?;
    let table_name = require_string_option(args, "--table")?;
    let column_values = collect_option_values(args, "--column");
    let ghost cols = option_values(a, "--column"@);
    if column_values.len() == 0 {
        return Err(CliError::with_usage("create-table requires at least one --column NAME:TYPE:ROLE"));
    }
    let mut column_specs: Vec<ColumnSpec> = Vec::new();
    let mut i: usize = 0;
    proof {
        assert(cols.take(0) =~= Seq::<Seq<char>>::empty());
        assert(column_specs@.map_values(|c: ColumnSpec| spec_view(c)) =~= Seq::<(Seq<char>, DataType, ColumnRole)>::empty());
    }
    while i < column_values.len()
        invariant
            a == strings_text(args@),
            need(a, "--db"@) == Ok::<Seq<char>, Seq<char>>(db_path@),
            need(a, "--table"@) == Ok::<Seq<char>, Seq<char>>(table_name@),
            cols.len() > 0,
            cols == option_values(a, "--column"@),
            strings_text(column_values@) == cols,
            i <= column_values@.len(),
            column_specs_of(cols.take(i as int)) == Ok::<Seq<(Seq<char>, DataType, ColumnRole)>, Seq<char>>(
                column_specs@.map_values(|c: ColumnSpec| spec_view(c)),
            ),
        decreases column_values@.len() - i,
    {
        proof {
            assert(cols.take(i + 1).drop_last() =~= cols.take(i as int));
            assert(cols.take(i + 1).last() == column_values@[i as int]@);
        }
        let spec = match parse_column_spec(column_values[i].as_str()) {
            Ok(c) => c,
            Err(e) => {
                proof {
                    lemma_column_error_stays(cols, i + 1, cols.len() as int, e.message@);
                    assert(cols.take(cols.len() as int) =~= cols);
                }
                return Err(e);
            },
        };
        let ghost before = column_specs@.map_values(|c: ColumnSpec| spec_view(c));
        column_specs.push(spec);
        proof {
            assert(column_specs@.map_values(|c: ColumnSpec| spec_view(c)) =~= before.push(spec_view(spec)));
        }
        i = i + 1;
    }
    proof {
        assert(cols.take(cols.len() as int) =~= cols);
    }
    let scope = match optional_string_option(args, "--scope") {
        Some(value) => {
            let parts = split_text(value.as_str(), ',');
            let mut items: Vec<String> = Vec::new();
            let mut k: usize = 0;
            while k < parts.len()
                invariant
                    k <= parts@.len(),
                    strings_text(items@) == strings_text(parts@).take(k as int).map_values(|p: Seq<char>| trimmed(p)),
                decreases parts@.len() - k,
            {
                let item = trim_text(parts[k].as_str());
                let ghost before = strings_text(items@);
                items.push(item);
                proof {
                    assert(strings_text(items@) =~= before.push(item@));
                    assert(strings_text(parts@).take(k + 1).map_values(|p: Seq<char>| trimmed(p)) =~= strings_text(
                        parts@,
                    ).take(k as int).map_values(|p: Seq<char>| trimmed(p)).push(trimmed(parts@[k as int]@)));
                }
                k = k + 1;
            }
            proof {
                assert(strings_text(parts@).take(parts@.len() as int) =~= strings_text(parts@));
            }
            Some(items)
        },
        None => None,
    };
    let allowed = vec!["--db", "--table", "--column", "--scope"];
    proof {
        assert(texts_of(allowed@) =~= seq!["--db"@, "--table"@, "--column"@, "--scope"@]);
    }
    ensure_no_extra_flags(args, allowed.as_slice())?;
    Ok(Command::CreateTable { db_path, table_name, column_specs, scope })
}

pub fn parse_persist(args: &[String]) -> (r: Result<Command, CliError>)
    ensures
        result_matches(r, persist_spec(strings_text(args@))),
{
    let ghost a = strings_text(args@);
    let db_path = require_path_option(args, "--db")?;
    let table_name = require_string_option(args, "--table")?;
    let set_values = collect_option_values(args, "--set");
    let ghost sets = option_values(a, "--set"@);
    if set_values.len() == 0 {
        return Err(CliError::with_usage("persist requires at least one --set KEY=VALUE pair"));
    }
    let mut raw_values: Vec<(String, String)> = Vec::new();
    let mut i: usize = 0;
    proof {
        assert(sets.take(0) =~= Seq::<Seq<char>>::empty());
        assert(raw_values@.map_values(|p: (String, String)| pair_view(p)) =~= Seq::<(Seq<char>, Seq<char>)>::empty());
    }
    while i < set_values.len()
        invariant
            a == strings_text(args@),
            need(a, "--db"@) == Ok::<Seq<char>, Seq<char>>(db_path@),
            need(a, "--table"@) == Ok::<Seq<char>, Seq<char>>(table_name@),
            sets.len() > 0,
            sets == option_values(a, "--set"@),
            strings_text(set_values@) == sets,
            i <= set_values@.len(),
            key_values_of(sets.take(i as int)) == Ok::<Seq<(Seq<char>, Seq<char>)>, Seq<char>>(
                raw_values@.map_values(|p: (String, String)| pair_view(p)),
            ),
        decreases set_values@.len() - i,
    {
        proof {
            assert(sets.take(i + 1).drop_last() =~= sets.take(i as int));
            assert(sets.take(i + 1).last() == set_values@[i as int]@);
        }
        let pair = match parse_key_value(set_values[i].as_str()) {
            Ok(p) => p,
            Err(e) => {
                proof {
                    lemma_pair_error_stays(sets, i + 1, sets.len() as int, e.message@);
                    assert(sets.take(sets.len() as int) =~= sets);
                }
                return Err(e);
            },
        };
        let ghost before = raw_values@.map_values(|p: (String, String)| pair_view(p));
        let ghost pv = pair_view(pair);
        raw_values.push(pair);
        proof {
            assert(raw_values@.map_values(|p: (String, String)| pair_view(p)) =~= before.push(pv));
        }
        i = i + 1;
    }
    proof {
        assert(sets.take(sets.len() as int) =~= sets);
    }
    let allowed = vec!["--db", "--table", "--set"];
    proof {
        assert(texts_of(allowed@) =~= seq!["--db"@, "--table"@, "--set"@]);
    }
    ensure_no_extra_flags(args, allowed.as_slice())?;
    Ok(Command::Persist { db_path, table_name, raw_values })
}

pub fn parse_show_table(args: &[String]) -> (r: Result<Command, CliError>)
    ensures
        result_matches(r, path_table_spec(strings_text(args@), true)),
{
    let db_path = require_path_option(args, "--db")?;
    let table_name = require_string_option(args, "--table")?;
    let allowed = vec!["--db", "--table"];
    proof {
        assert(texts_of(allowed@) =~= seq!["--db"@, "--table"@]);
    }
    ensure_no_extra_flags(args, allowed.as_slice())?;
    Ok(Command::ShowTable { db_path, table_name })
}

pub fn parse_bind_create(args: &[String]) -> (r: Result<Command, CliError>)
    ensures
        result_matches(r, path_table_spec(strings_text(args@), false)),
{
    let db_path = require_path_option(args, "--db")?;
    let table_name = require_string_option(args, "--table")?;
    let allowed = vec!["--db", "--table"];
    proof {
        assert(texts_of(allowed@) =~= seq!["--db"@, "--table"@]);
    }
    ensure_no_extra_flags(args, allowed.as_slice())?;
    Ok(Command::BindCreate { db_path, table_name })
}

pub fn parse_bind_add(args: &[String]) -> (r: Result<Command, CliError>)
    ensures
        result_matches(r, binding_row_spec(strings_text(args@), true)),
{
    let db_path = require_path_option(args, "--db")?;
    let binding_id = require_u64_option(args, "--binding")?;
    let row_id = require_u64_option(args, "--row")?;
    let allowed = vec!["--db", "--binding", "--row"];
    proof {
        assert(texts_of(allowed@) =~= seq!["--db"@, "--binding"@, "--row"@]);
    }
    ensure_no_extra_flags(args, allowed.as_slice())?;
    Ok(Command::BindAdd { db_path, binding_id, row_id })
}

pub fn parse_bind_remove(args: &[String]) -> (r: Result<Command, CliError>)
    ensures
        result_matches(r, binding_row_spec(strings_text(args@), false)),
{
    let db_path = require_path_option(args, "--db")?;
    let binding_id = require_u64_option(args, "--binding")?;
    let row_id = require_u64_option(args, "--row")?;
    let allowed = vec!["--db", "--binding", "--row"];
    proof {
        assert(texts_of(allowed@) =~= seq!["--db"@, "--binding"@, "--row"@]);
    }
    ensure_no_extra_flags(args, allowed.as_slice())?;
    Ok(Command::BindRemove { db_path, binding_id, row_id })
}

pub fn parse_show_binding(args: &[String]) -> (r: Result<Command, CliError>)
    ensures
        result_matches(r, binding_spec(strings_text(args@), true)),
{
    let db_path = require_path_option(args, "--db")?;
    let binding_id = require_u64_option(args, "--binding")?;
    let allowed = vec!["--db", "--binding"];
    proof {
        assert(texts_of(allowed@) =~= seq!["--db"@, "--binding"@]);
    }
    ensure_no_extra_flags(args, allowed.as_slice())?;
    Ok(Command::ShowBinding { db_path, binding_id })
}

pub fn parse_project(args: &[String]) -> (r: Result<Command, CliError>)
    ensures
        result_matches(r, binding_spec(strings_text(args@), false)),
{
    let db_path = require_path_option(args, "--db")?;
    let binding_id = require_u64_option(args, "--binding")?;
    let allowed = vec!["--db", "--binding"];
    proof {
        assert(texts_of(allowed@) =~= seq!["--db"@, "--binding"@]);
    }
    ensure_no_extra_flags(args, allowed.as_slice())?;
    Ok(Command::Project { db_path, binding_id })
}

/// The command that the arguments describe: a command name, then its
/// options.
pub fn parse_args(args: Vec<String>) -> (r: Result<Command, CliError>)
    ensures
        result_matches(r, parse_spec(strings_text(args@))),
{
    if args.len() == 0 {
        return Err(CliError::with_usage("missing command"));
    }
    let mut rest: Vec<String> = Vec::new();
    let mut i: usize = 1;
    while i < args.len()
        invariant
            1 <= i <= args@.len(),
            strings_text(rest@) == strings_text(args@).subrange(1, i as int),
        decreases args@.len() - i,
    {
        let ghost before = strings_text(rest@);
        rest.push(args[i].clone());
        proof {
            assert(strings_text(rest@) =~= before.push(args@[i as int]@));
            assert(strings_text(args@).subrange(1, i + 1) =~= strings_text(args@).subrange(1, i as int).push(
                args@[i as int]@,
            ));
        }
        i = i + 1;
    }
    proof {
        assert(strings_text(args@).subrange(1, args@.len() as int) =~= strings_text(args@).drop_first());
    }
    let c = args[0].as_str();
    if text_eq(c, "help") || text_eq(c, "--help") || text_eq(c, "-h") {
        Ok(Command::Help)
    } else if text_eq(c, "init") {
        parse_init(rest.as_slice())
    } else if text_eq(c, "create-table") {
        parse_create_table(rest.as_slice())
    } else if text_eq(c, "persist") {
        parse_persist(rest.as_slice())
    } else if text_eq(c, "show-table") {
        parse_show_table(rest.as_slice())
    } else if text_eq(c, "bind-create") {
        parse_bind_create(rest.as_slice())
    } else if text_eq(c, "bind-add") {
        parse_bind_add(rest.as_slice())
    } else if text_eq(c, "bind-remove") {
        parse_bind_remove(rest.as_slice())
    } else if text_eq(c, "show-binding") {
        parse_show_binding(rest.as_slice())
    } else if text_eq(c, "project") {
        parse_project(rest.as_slice())
    } else {
        let m = text3("unknown command `", c, "`");
        Err(CliError::with_usage(m.as_str()))
    }
}

} // verus!
