use vstd::prelude::*;
use vstd::string::*;

use crate::cli::args::lemma_split_on_len;
use crate::cli::command::CommandView;
use crate::cli::input::{value_error, value_parsed};
use crate::cli::numbers::{digits_value, i64_text_value, is_digits};
use crate::cli::parse::{data_type_of, option_value, parse_spec, role_of};
use crate::schema::{role_name, ColumnRole};
use crate::text::{digit_char, int_text, nat_text};
use crate::value::{data_type_name, value_text, DataType, Value};

verus! {

/// The type name that a column spec gives is read back as the data type of
/// that name: each data type's displayed name parses to that data type.
pub proof fn lemma_data_type_names_parse(t: DataType)
    ensures
        data_type_of(data_type_name(t)) == Ok::<DataType, Seq<char>>(t),
{
    reveal_strlit("text");
    reveal_strlit("int64");
    reveal_strlit("bool");
    assert("text"@[0] != "int64"@[0] && "text"@[0] != "bool"@[0] && "int64"@[0] != "bool"@[0]);
    match t {
        DataType::Text => {},
        DataType::Int64 => {
            assert("int64"@ != "text"@);
        },
        DataType::Bool => {
            assert("bool"@ != "text"@);
            assert("bool"@ != "int64"@);
        },
    }
}

/// The role name that a column spec gives is read back as the role of that
/// name: each role's displayed name parses to that role.
pub proof fn lemma_role_names_parse(r: ColumnRole)
    ensures
        role_of(role_name(r)) == Ok::<ColumnRole, Seq<char>>(r),
{
    reveal_strlit("normal");
    reveal_strlit("semantic");
    assert("normal"@[0] != "semantic"@[0]);
    if r == ColumnRole::Semantic {
        assert("semantic"@ != "normal"@);
    }
}

/// Whatever follows it, a first argument `help`, `--help` or `-h` asks for
/// help.
pub proof fn lemma_help_words_ask_for_help(a: Seq<Seq<char>>)
    requires
        a.len() > 0,
        a[0] == "help"@ || a[0] == "--help"@ || a[0] == "-h"@,
    ensures
        parse_spec(a) == Ok::<CommandView, Seq<char>>(CommandView::Help),
{
}

/// A `create-table` command has a semantic scope exactly when the command
/// line gives a `--scope` option, and a given scope names at least one
/// column.
pub proof fn lemma_create_table_scope_given(
    a: Seq<Seq<char>>,
    db_path: Seq<char>,
    table_name: Seq<char>,
    column_specs: Seq<(Seq<char>, DataType, ColumnRole)>,
    scope: Option<Seq<Seq<char>>>,
)
    requires
        a.len() > 0,
        a[0] == "create-table"@,
        parse_spec(a) == Ok::<CommandView, Seq<char>>(
            CommandView::CreateTable { db_path, table_name, column_specs, scope },
        ),
    ensures
        scope is None <==> option_value(a.drop_first(), "--scope"@) is None,
        scope matches Some(s) ==> s.len() > 0,
{
    reveal_strlit("create-table");
    reveal_strlit("help");
    reveal_strlit("--help");
    reveal_strlit("-h");
    reveal_strlit("init");
    if let Some(v) = option_value(a.drop_first(), "--scope"@) {
        lemma_split_on_len(v, ',');
    }
}

/// A bool or text value read from the command line shows as the very text
/// it was read from, and a bool is read only from `true` or `false`.
pub proof fn lemma_read_value_shows_its_text(t: DataType, raw: Seq<char>, v: Value)
    requires
        t == DataType::Bool || t == DataType::Text,
        value_parsed(t, raw, v),
    ensures
        value_text(v) == raw,
        t == DataType::Bool ==> v is Bool && (raw == "true"@ || raw == "false"@),
        t == DataType::Text ==> v is Text,
{
}

/// The text that a bool value shows is read back as that value.
pub proof fn lemma_bool_text_reads_back(b: bool)
    ensures
        value_error(DataType::Bool, value_text(Value::Bool(b))) is None,
        value_parsed(DataType::Bool, value_text(Value::Bool(b)), Value::Bool(b)),
{
    reveal_strlit("true");
    reveal_strlit("false");
}

/// The decimal text of a number is digits that write that number.
proof fn lemma_nat_text_digits(n: nat)
    ensures
        is_digits(nat_text(n)),
        digits_value(nat_text(n)) == n,
    decreases n,
{
    let d = n % 10;
    assert((digit_char(d) as u32) == 48 + d);
    assert(('0' as u32) == 48 && ('9' as u32) == 57);
    assert('0' <= digit_char(d) <= '9');
    if n < 10 {
        let t = nat_text(n);
        assert(d == n);
        assert(t[0] == digit_char(n));
        assert(t.drop_last() =~= Seq::<char>::empty());
        assert(t.last() == digit_char(n));
        assert(digits_value(t.drop_last()) == 0);
        assert(((t.last() as u32) - 48) as nat == n);
        assert(digits_value(t) == digits_value(t.drop_last()) * 10 + ((t.last() as u32) - 48) as nat);
    } else {
        lemma_nat_text_digits(n / 10);
        let p = nat_text(n / 10);
        let t = p.push(digit_char(d));
        assert(t.drop_last() =~= p);
        assert forall|i: int| 0 <= i < t.len() implies '0' <= #[trigger] t[i] <= '9' by {
            if i < p.len() {
                assert(t[i] == p[i]);
            } else {
                assert(t[i] == digit_char(d));
            }
        }
        assert(t.last() == digit_char(d));
        assert(((t.last() as u32) - 48) as nat == d);
        assert(digits_value(t) == digits_value(p) * 10 + ((t.last() as u32) - 48) as nat);
        assert(n == (n / 10) * 10 + d);
    }
}

/// Every 64-bit integer's decimal text reads back as that integer, so an
/// int64 value read from the command line is the number its text writes.
pub proof fn lemma_int64_text_reads_back(n: i64)
    ensures
        i64_text_value(int_text(n as int)) == Some(n),
        value_error(DataType::Int64, value_text(Value::Int64(n))) is None,
        value_parsed(DataType::Int64, value_text(Value::Int64(n)), Value::Int64(n)),
{
    if n < 0 {
        let m = (-(n as int)) as nat;
        lemma_nat_text_digits(m);
        let s = seq!['-'] + nat_text(m);
        assert(s[0] == '-');
        assert(s.drop_first() =~= nat_text(m));
    } else {
        lemma_nat_text_digits(n as nat);
        let s = nat_text(n as nat);
        assert('0' <= s[0] <= '9');
    }
}

} // verus!
