//! Decoding a parsed request into one of the commands a server answers:
//! `ECHO`, `SET`, `GET` and `PING`, each in upper or lower case.
use crate::convert::{mismatch, RESPValueConversionError};
use crate::value::{view_values, RESPDataType, RESPValue, SpecValue};
use vstd::prelude::*;

verus! {

/// A decoded request.
pub enum Command {
    /// Reply with the message.
    Echo(String),
    /// Store the value under the key.
    Store(String, String),
    /// Look the key up.
    Get(String),
    Ping,
}

/// Why a request names no command.
pub enum CommandError {
    /// The request is not an array of bulk strings.
    NotACommand(RESPValueConversionError),
    /// The request is a null or empty array.
    EmptyCommand,
    /// The command name is the null string.
    NullCommandName,
    /// `ECHO` without a message.
    NoEchoMessage,
    /// `SET` without a key or a value.
    MissingSetArgument,
    /// `GET` without a key.
    MissingGetKey,
    /// A name that is none of the commands.
    UnknownCommand(String),
}

pub enum SpecCommand {
    Echo(Seq<char>),
    Store(Seq<char>, Seq<char>),
    Get(Seq<char>),
    Ping,
}

pub enum SpecCommandError {
    NotACommand(RESPValueConversionError),
    EmptyCommand,
    NullCommandName,
    NoEchoMessage,
    MissingSetArgument,
    MissingGetKey,
    UnknownCommand(Seq<char>),
}

impl View for Command {
    type V = SpecCommand;

    open spec fn view(&self) -> SpecCommand {
        match self {
            Command::Echo(m) => SpecCommand::Echo(m@),
            Command::Store(k, v) => SpecCommand::Store(k@, v@),
            Command::Get(k) => SpecCommand::Get(k@),
            Command::Ping => SpecCommand::Ping,
        }
    }
}

impl View for CommandError {
    type V = SpecCommandError;

    open spec fn view(&self) -> SpecCommandError {
        match self {
            CommandError::NotACommand(e) => SpecCommandError::NotACommand(*e),
            CommandError::EmptyCommand => SpecCommandError::EmptyCommand,
            CommandError::NullCommandName => SpecCommandError::NullCommandName,
            CommandError::NoEchoMessage => SpecCommandError::NoEchoMessage,
            CommandError::MissingSetArgument => SpecCommandError::MissingSetArgument,
            CommandError::MissingGetKey => SpecCommandError::MissingGetKey,
            CommandError::UnknownCommand(n) => SpecCommandError::UnknownCommand(n@),
        }
    }
}

pub open spec fn command_result_view(r: Result<Command, CommandError>) -> Result<
    SpecCommand,
    SpecCommandError,
> {
    match r {
        Ok(c) => Ok(c@),
        Err(e) => Err(e@),
    }
}

/// An argument as text, `None` for the null string or a value of another shape.
pub open spec fn arg_view(v: SpecValue) -> Option<Seq<char>> {
    match v {
        SpecValue::BulkString(Some(s)) => Some(s),
        _ => None,
    }
}

/// The first position at or after `i` that holds no bulk string.
pub open spec fn first_non_bulk(vs: Seq<SpecValue>, i: int) -> int
    decreases vs.len() - i,
{
    if i < 0 || i >= vs.len() {
        vs.len() as int
    } else if !(vs[i] is BulkString) {
        i
    } else {
        first_non_bulk(vs, i + 1)
    }
}

/// Whether `name` is the command word, in upper or in lower case.
pub open spec fn names(name: Seq<char>, upper: Seq<char>, lower: Seq<char>) -> bool {
    name == upper || name == lower
}

/// The command that a name and its arguments ask for.
pub open spec fn spec_dispatch(name: Seq<char>, args: Seq<Option<Seq<char>>>) -> Result<
    SpecCommand,
    SpecCommandError,
> {
    if names(name, "ECHO"@, "echo"@) {
        if args.len() == 0 {
            Err(SpecCommandError::NoEchoMessage)
        } else {
            Ok(
                SpecCommand::Echo(
                    match args[0] {
                        Some(m) => m,
                        None => Seq::empty(),
                    },
                ),
            )
        }
    } else if names(name, "SET"@, "set"@) {
        if args.len() >= 2 && args[0] is Some && args[1] is Some {
            Ok(SpecCommand::Store(args[0]->0, args[1]->0))
        } else {
            Err(SpecCommandError::MissingSetArgument)
        }
    } else if names(name, "GET"@, "get"@) {
        if args.len() >= 1 && args[0] is Some {
            Ok(SpecCommand::Get(args[0]->0))
        } else {
            Err(SpecCommandError::MissingGetKey)
        }
    } else if names(name, "PING"@, "ping"@) {
        Ok(SpecCommand::Ping)
    } else {
        Err(SpecCommandError::UnknownCommand(name))
    }
}

/// The command a request asks for: an array of bulk strings whose first
/// element names the command and whose others are its arguments.
pub open spec fn spec_decode(request: SpecValue) -> Result<SpecCommand, SpecCommandError> {
    match request {
        SpecValue::Array(None) => Err(SpecCommandError::EmptyCommand),
        SpecValue::Array(Some(vs)) => if first_non_bulk(vs, 0) < vs.len() {
            Err(
                SpecCommandError::NotACommand(
                    mismatch(RESPDataType::BulkString, vs[first_non_bulk(vs, 0)]),
                ),
            )
        } else if vs.len() == 0 {
            Err(SpecCommandError::EmptyCommand)
        } else {
            match vs[0] {
                SpecValue::BulkString(Some(n)) => spec_dispatch(
                    n,
                    vs.drop_first().map_values(|v: SpecValue| arg_view(v)),
                ),
                _ => Err(SpecCommandError::NullCommandName),
            }
        },
        _ => Err(SpecCommandError::NotACommand(mismatch(RESPDataType::Array, request))),
    }
}

/// Whether `name` spells `word`.
fn name_is(name: &String, word: &str) -> (r: bool)
    ensures
        r == (name@ == word@),
{
    let w = word.to_owned();
    *name == w
}

/// The argument at `i` as owned text.
fn arg_text(args: &Vec<RESPValue>, i: usize) -> (r: Option<String>)
    requires
        i < args@.len(),
    ensures
        match r {
            Some(s) => arg_view(args@[i as int]@) == Some(s@),
            None => arg_view(args@[i as int]@) is None,
        },
{
    match &args[i] {
        RESPValue::BulkString(Some(s)) => Some(s.clone()),
        _ => None,
    }
}

/// Decodes a parsed request into a command.
pub fn decode_command(request: &RESPValue) -> (r: Result<Command, CommandError>)
    ensures
        command_result_view(r) == spec_decode(request@),
{
    let args = match request {
        RESPValue::Array(Some(vs)) => vs,
        RESPValue::Array(None) => {
            return Err(CommandError::EmptyCommand);
        },
        _ => {
            return Err(
                CommandError::NotACommand(
                    RESPValueConversionError::DataTypeMismatch(
                        RESPDataType::Array,
                        request.data_type(),
                    ),
                ),
            );
        },
    };
    let ghost vs = view_values(args@);
    assert(request@ == SpecValue::Array(Some(vs)));
    let mut i: usize = 0;
    while i < args.len()
        invariant
            i <= args@.len(),
            vs == view_values(args@),
            request@ == SpecValue::Array(Some(vs)),
            forall|j: int| 0 <= j < i ==> #[trigger] vs[j] is BulkString,
            first_non_bulk(vs, 0) == first_non_bulk(vs, i as int),
        decreases args@.len() - i,
    {
        match &args[i] {
            RESPValue::BulkString(_) => {},
            other => {
                assert(first_non_bulk(vs, i as int) == i);
                assert(vs[i as int] == args@[i as int]@);
                return Err(
                    CommandError::NotACommand(
                        RESPValueConversionError::DataTypeMismatch(
                            RESPDataType::BulkString,
                            other.data_type(),
                        ),
                    ),
                );
            },
        }
        i = i + 1;
    }
    assert(first_non_bulk(vs, i as int) == vs.len());
    if args.len() == 0 {
        return Err(CommandError::EmptyCommand);
    }
    let name = match arg_text(args, 0) {
        Some(n) => n,
        None => {
            return Err(CommandError::NullCommandName);
        },
    };
    let ghost rest = vs.drop_first().map_values(|v: SpecValue| arg_view(v));
    proof {
        reveal_strlit("ECHO");
        reveal_strlit("echo");
        reveal_strlit("SET");
        reveal_strlit("set");
        reveal_strlit("GET");
        reveal_strlit("get");
        reveal_strlit("PING");
        reveal_strlit("ping");
        assert(spec_decode(request@) == spec_dispatch(name@, rest));
    }
    let n = args.len();
    if name_is(&name, "ECHO") || name_is(&name, "echo") {
        if n < 2 {
            return Err(CommandError::NoEchoMessage);
        }
        let m = match arg_text(args, 1) {
            Some(m) => m,
            None => String::new(),
        };
        assert(rest[0] == arg_view(args@[1]@));
        return Ok(Command::Echo(m));
    }
    if name_is(&name, "SET") || name_is(&name, "set") {
        if n < 3 {
            return Err(CommandError::MissingSetArgument);
        }
        assert(rest[0] == arg_view(args@[1]@));
        assert(rest[1] == arg_view(args@[2]@));
        let k = match arg_text(args, 1) {
            Some(k) => k,
            None => {
                return Err(CommandError::MissingSetArgument);
            },
        };
        let v = match arg_text(args, 2) {
            Some(v) => v,
            None => {
                return Err(CommandError::MissingSetArgument);
            },
        };
        return Ok(Command::Store(k, v));
    }
    if name_is(&name, "GET") || name_is(&name, "get") {
        if n < 2 {
            return Err(CommandError::MissingGetKey);
        }
        assert(rest[0] == arg_view(args@[1]@));
        let k = match arg_text(args, 1) {
            Some(k) => k,
            None => {
                return Err(CommandError::MissingGetKey);
            },
        };
        return Ok(Command::Get(k));
    }
    if name_is(&name, "PING") || name_is(&name, "ping") {
        return Ok(Command::Ping);
    }
    Err(CommandError::UnknownCommand(name))
}

} // verus!
