use vstd::prelude::*;

use crate::schema::{strings_text, ColumnRole};
use crate::value::DataType;

verus! {

/// A column of a table to create, as the command line gives it.
#[derive(Debug, Clone, PartialEq, Eq)]
pub struct ColumnSpec {
    pub name: String,
    pub data_type: DataType,
    pub role: ColumnRole,
}

/// A parsed command of the command-line interface.
#[derive(Debug, Clone)]
pub enum Command {
    Help,
    Init { db_path: String },
    CreateTable {
        db_path: String,
        table_name: String,
        column_specs: Vec<ColumnSpec>,
        scope: Option<Vec<String>>,
    },
    Persist { db_path: String, table_name: String, raw_values: Vec<(String, String)> },
    ShowTable { db_path: String, table_name: String },
    BindCreate { db_path: String, table_name: String },
    BindAdd { db_path: String, binding_id: u64, row_id: u64 },
    BindRemove { db_path: String, binding_id: u64, row_id: u64 },
    ShowBinding { db_path: String, binding_id: u64 },
    Project { db_path: String, binding_id: u64 },
}

/// A command with its texts as character sequences.
pub enum CommandView {
    Help,
    Init { db_path: Seq<char> },
    CreateTable {
        db_path: Seq<char>,
        table_name: Seq<char>,
        column_specs: Seq<(Seq<char>, DataType, ColumnRole)>,
        scope: Option<Seq<Seq<char>>>,
    },
    Persist { db_path: Seq<char>, table_name: Seq<char>, raw_values: Seq<(Seq<char>, Seq<char>)> },
    ShowTable { db_path: Seq<char>, table_name: Seq<char> },
    BindCreate { db_path: Seq<char>, table_name: Seq<char> },
    BindAdd { db_path: Seq<char>, binding_id: u64, row_id: u64 },
    BindRemove { db_path: Seq<char>, binding_id: u64, row_id: u64 },
    ShowBinding { db_path: Seq<char>, binding_id: u64 },
    Project { db_path: Seq<char>, binding_id: u64 },
}

/// A column spec with its name as a character sequence.
pub open spec fn spec_view(c: ColumnSpec) -> (Seq<char>, DataType, ColumnRole) {
    (c.name@, c.data_type, c.role)
}

/// Key and value texts as character sequences.
pub open spec fn pair_view(p: (String, String)) -> (Seq<char>, Seq<char>) {
    (p.0@, p.1@)
}

impl View for Command {
    type V = CommandView;

    open spec fn view(&self) -> CommandView {
        match self {
            Command::Help => CommandView::Help,
            Command::Init { db_path } => CommandView::Init { db_path: db_path@ },
            Command::CreateTable { db_path, table_name, column_specs, scope } => CommandView::CreateTable {
                db_path: db_path@,
                table_name: table_name@,
                column_specs: column_specs@.map_values(|c: ColumnSpec| spec_view(c)),
                scope: match scope {
                    Some(s) => Some(strings_text(s@)),
                    None => None,
                },
            },
            Command::Persist { db_path, table_name, raw_values } => CommandView::Persist {
                db_path: db_path@,
                table_name: table_name@,
                raw_values: raw_values@.map_values(|p: (String, String)| pair_view(p)),
            },
            Command::ShowTable { db_path, table_name } => CommandView::ShowTable {
                db_path: db_path@,
                table_name: table_name@,
            },
            Command::BindCreate { db_path, table_name } => CommandView::BindCreate {
                db_path: db_path@,
                table_name: table_name@,
            },
            Command::BindAdd { db_path, binding_id, row_id } => CommandView::BindAdd {
                db_path: db_path@,
                binding_id: *binding_id,
                row_id: *row_id,
            },
            Command::BindRemove { db_path, binding_id, row_id } => CommandView::BindRemove {
                db_path: db_path@,
                binding_id: *binding_id,
                row_id: *row_id,
            },
            Command::ShowBinding { db_path, binding_id } => CommandView::ShowBinding {
                db_path: db_path@,
                binding_id: *binding_id,
            },
            Command::Project { db_path, binding_id } => CommandView::Project {
                db_path: db_path@,
                binding_id: *binding_id,
            },
        }
    }
}

/// The name of a data type, as the command line writes it.
pub fn data_type_name(data_type: DataType) -> (r: &'static str)
    ensures
        r@ == crate::value::data_type_name(data_type),
{
    data_type.name()
}

/// The name of a column role, as the command line writes it.
pub fn role_name(role: ColumnRole) -> (r: &'static str)
    ensures
        r@ == crate::schema::role_name(role),
{
    role.name()
}

} // verus!
