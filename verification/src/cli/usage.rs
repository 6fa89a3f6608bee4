use vstd::prelude::*;
use vstd::string::*;

verus! {

/// The usage text of the command-line interface.
pub open spec fn usage_spec() -> Seq<char> {
    USAGE@
}

/// The usage text: each command with its options, then the type and role
/// names.
pub const USAGE: &'static str = "Usage:
  agentdb init --db PATH
  agentdb create-table --db PATH --table NAME --column NAME:TYPE:ROLE [--column ...] [--scope COL1,COL2]
  agentdb persist --db PATH --table NAME --set KEY=VALUE [--set ...]
  agentdb show-table --db PATH --table NAME
  agentdb bind-create --db PATH --table NAME
  agentdb bind-add --db PATH --binding ID --row ID
  agentdb bind-remove --db PATH --binding ID --row ID
  agentdb show-binding --db PATH --binding ID
  agentdb project --db PATH --binding ID

Type names:
  text | int64 | bool

Role names:
  normal | semantic
";

pub fn usage_text() -> (r: &'static str)
    ensures
        r@ == usage_spec(),
{
    USAGE
}

/// `message`, a blank line, then the usage text.
pub open spec fn with_usage_text(message: Seq<char>) -> Seq<char> {
    message + "\n\n"@ + usage_spec()
}

/// An error of the command line, with the message to show.
#[derive(Debug, Clone)]
pub struct CliError {
    pub message: String,
}

impl CliError {
    pub fn new(message: &str) -> (r: Self)
        ensures
            r.message@ == message@,
    {
        CliError { message: String::from_str(message) }
    }

    /// An error whose message is followed by the usage text.
    pub fn with_usage(message: &str) -> (r: Self)
        ensures
            r.message@ == with_usage_text(message@),
    {
        let mut text = String::from_str(message);
        text.append("\n\n");
        text.append(usage_text());
        CliError { message: text }
    }

    pub fn message(&self) -> (r: &str)
        ensures
            r@ == self.message@,
    {
        self.message.as_str()
    }
}

} // verus!
