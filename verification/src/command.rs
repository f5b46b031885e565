//! From a decoded request to a typed command.

use vstd::prelude::*;
use crate::resp::{integer_of, lemma_views, string_of, views, Value, RESP};
use crate::text::{ascii, bytes_of, eq_ignore_case, lower, same_word};

verus! {

/// What a `SET` may ask for besides the key and the value.
#[derive(Debug, PartialEq, Eq)]
pub struct SetOption {
    /// After how many milliseconds the entry ends, if it ends at all.
    pub expire: Option<u64>,
}

/// A request, once its verb and its arguments are known.
#[derive(Debug, PartialEq, Eq)]
pub enum Command {
    /// `PING`: asks for a sign of life.
    Ping,
    /// `COMMAND`: asks for the names of the commands.
    Commands,
    /// `ECHO`: asks for its argument back.
    Echo(Vec<u8>),
    /// A request that is none of the others, kept as it came.
    Unknown(RESP),
    /// `SET`: writes a value under a key, to end after a while if it says so.
    SetKey { key: Vec<u8>, value: Vec<u8>, set_option: SetOption },
    /// `GET`: asks for the value under a key.
    Get(Vec<u8>),
}

/// A command as contracts speak of it.
pub enum CommandView {
    Ping,
    Commands,
    Echo(Seq<u8>),
    Unknown(Value),
    SetKey { key: Seq<u8>, value: Seq<u8>, expire: Option<u64> },
    Get(Seq<u8>),
}

impl View for Command {
    type V = CommandView;

    open spec fn view(&self) -> CommandView {
        match self {
            Command::Ping => CommandView::Ping,
            Command::Commands => CommandView::Commands,
            Command::Echo(s) => CommandView::Echo(s@),
            Command::Unknown(r) => CommandView::Unknown(r@),
            Command::SetKey { key, value, set_option } => CommandView::SetKey {
                key: key@,
                value: value@,
                expire: set_option.expire,
            },
            Command::Get(key) => CommandView::Get(key@),
        }
    }
}

/// The expiry that the elements of a `SET` ask for: the fifth element, where
/// the fourth is the word `PX` and the fifth is a number that is not
/// negative. Anything else in those places asks for nothing.
pub open spec fn spec_expire(items: Seq<Value>) -> Option<u64> {
    if items.len() >= 5 && string_of(items[3]) is Some && same_word(
        string_of(items[3])->0,
        bytes_of("PX"@),
    ) && integer_of(items[4]) is Some && integer_of(items[4])->0 >= 0 {
        Some(integer_of(items[4])->0 as u64)
    } else {
        None
    }
}

/// The command that `v` asks for, where it asks for one.
///
/// A request is an array whose first element is a simple or bulk string, the
/// verb, read without regard to case. `PING` and `COMMAND` stand alone.
/// `ECHO` and `GET` take one simple or bulk string. `SET` takes two, the key
/// and the value, and whatever follows them is looked at only for an expiry.
pub open spec fn spec_parse(v: Value) -> Option<CommandView> {
    if v is Array && v->Array_0.len() >= 1 && string_of(v->Array_0[0]) is Some {
        let items = v->Array_0;
        let verb = string_of(items[0])->0;
        if same_word(verb, bytes_of("PING"@)) {
            if items.len() == 1 {
                Some(CommandView::Ping)
            } else {
                None
            }
        } else if same_word(verb, bytes_of("COMMAND"@)) {
            if items.len() == 1 {
                Some(CommandView::Commands)
            } else {
                None
            }
        } else if same_word(verb, bytes_of("ECHO"@)) {
            if items.len() == 2 && string_of(items[1]) is Some {
                Some(CommandView::Echo(string_of(items[1])->0))
            } else {
                None
            }
        } else if same_word(verb, bytes_of("SET"@)) {
            if items.len() >= 3 && string_of(items[1]) is Some && string_of(items[2]) is Some {
                Some(
                    CommandView::SetKey {
                        key: string_of(items[1])->0,
                        value: string_of(items[2])->0,
                        expire: spec_expire(items),
                    },
                )
            } else {
                None
            }
        } else if same_word(verb, bytes_of("GET"@)) {
            if items.len() == 2 && string_of(items[1]) is Some {
                Some(CommandView::Get(string_of(items[1])->0))
            } else {
                None
            }
        } else {
            None
        }
    } else {
        None
    }
}

/// The command that `v` stands for: the one it asks for, or `Unknown` with
/// `v` itself.
pub open spec fn spec_command(v: Value) -> CommandView {
    match spec_parse(v) {
        Some(c) => c,
        None => CommandView::Unknown(v),
    }
}

/// The reply to `COMMAND`: the verbs that the parser knows, each as a
/// simple string.
pub open spec fn spec_supported() -> Value {
    Value::Array(
        seq![
            Value::SimpleString(bytes_of("COMMAND"@)),
            Value::SimpleString(bytes_of("PING"@)),
            Value::SimpleString(bytes_of("ECHO"@)),
            Value::SimpleString(bytes_of("SET"@)),
            Value::SimpleString(bytes_of("GET"@)),
        ],
    )
}

/// A copy of `s`.
fn copy_bytes(s: &Vec<u8>) -> (out: Vec<u8>)
    ensures
        out@ == s@,
{
    vstd::slice::slice_to_vec(s.as_slice())
}

/// The expiry that the elements of a `SET` ask for.
fn expire_of(args: &Vec<RESP>) -> (out: Option<u64>)
    ensures
        out == spec_expire(views(args@)),
{
    proof {
        lemma_views(args@);
        reveal_strlit("PX");
    }
    if args.len() >= 5 {
        if let Some(flag) = args[3].get_string() {
            if eq_ignore_case(flag.as_slice(), ascii("PX")) {
                if let Some(ms) = args[4].get_integer() {
                    if ms >= 0 {
                        return Some(ms as u64);
                    }
                }
            }
        }
    }
    None
}

impl Command {
    /// The command that `resp` asks for, where it asks for one.
    pub fn from_resp_internal(resp: &RESP) -> (out: Option<Command>)
        ensures
            match out {
                Some(c) => spec_parse(resp@) == Some(c@),
                None => spec_parse(resp@) is None,
            },
    {
        proof {
            reveal_strlit("PING");
            reveal_strlit("COMMAND");
            reveal_strlit("ECHO");
            reveal_strlit("SET");
            reveal_strlit("GET");
        }
        if let RESP::Array(args) = resp {
            proof {
                lemma_views(args@);
            }
            let len = args.len();
            if len == 0 {
                return None;
            }
            let op = match args[0].get_string() {
                Some(s) => s,
                None => {
                    return None;
                },
            };
            if eq_ignore_case(op.as_slice(), ascii("PING")) {
                if len == 1 {
                    Some(Command::Ping)
                } else {
                    None
                }
            } else if eq_ignore_case(op.as_slice(), ascii("COMMAND")) {
                if len == 1 {
                    Some(Command::Commands)
                } else {
                    None
                }
            } else if eq_ignore_case(op.as_slice(), ascii("ECHO")) {
                if len == 2 {
                    match args[1].get_string() {
                        Some(s) => Some(Command::Echo(copy_bytes(s))),
                        None => None,
                    }
                } else {
                    None
                }
            } else if eq_ignore_case(op.as_slice(), ascii("SET")) {
                if len >= 3 {
                    let key = match args[1].get_string() {
                        Some(s) => s,
                        None => {
                            return None;
                        },
                    };
                    let value = match args[2].get_string() {
                        Some(s) => s,
                        None => {
                            return None;
                        },
                    };
                    let expire = expire_of(args);
                    Some(
                        Command::SetKey {
                            key: copy_bytes(key),
                            value: copy_bytes(value),
                            set_option: SetOption { expire: expire },
                        },
                    )
                } else {
                    None
                }
            } else if eq_ignore_case(op.as_slice(), ascii("GET")) {
                if len == 2 {
                    match args[1].get_string() {
                        Some(s) => Some(Command::Get(copy_bytes(s))),
                        None => None,
                    }
                } else {
                    None
                }
            } else {
                None
            }
        } else {
            None
        }
    }

    /// The command that `resp` stands for: the one it asks for, or `Unknown`
    /// with a copy of `resp`.
    pub fn from_resp(resp: &RESP) -> (out: Command)
        ensures
            out@ == spec_command(resp@),
    {
        match Command::from_resp_internal(resp) {
            Some(c) => c,
            None => Command::Unknown(resp.clone()),
        }
    }

    /// The reply to `COMMAND`: the verbs that the parser knows, as an array
    /// of simple strings.
    pub fn supported_commands() -> (out: RESP)
        ensures
            out@ == spec_supported(),
    {
        proof {
            reveal_strlit("COMMAND");
            reveal_strlit("PING");
            reveal_strlit("ECHO");
            reveal_strlit("SET");
            reveal_strlit("GET");
        }
        let mut names: Vec<RESP> = Vec::new();
        names.push(RESP::SimpleString(vstd::slice::slice_to_vec(ascii("COMMAND"))));
        names.push(RESP::SimpleString(vstd::slice::slice_to_vec(ascii("PING"))));
        names.push(RESP::SimpleString(vstd::slice::slice_to_vec(ascii("ECHO"))));
        names.push(RESP::SimpleString(vstd::slice::slice_to_vec(ascii("SET"))));
        names.push(RESP::SimpleString(vstd::slice::slice_to_vec(ascii("GET"))));
        proof {
            lemma_views(names@);
            assert(views(names@) =~= spec_supported()->Array_0);
        }
        RESP::Array(names)
    }
}

/// `ECHO` with no argument, or with two or more, is a request like any
/// other that the parser does not know: it becomes `Unknown`, with the
/// request itself.
pub proof fn lemma_echo_arity(items: Seq<Value>)
    requires
        items.len() >= 1,
        string_of(items[0]) is Some,
        same_word(string_of(items[0])->0, bytes_of("ECHO"@)),
        items.len() != 2,
    ensures
        spec_command(Value::Array(items)) == CommandView::Unknown(Value::Array(items)),
{
    reveal_strlit("ECHO");
    reveal_strlit("PING");
    reveal_strlit("COMMAND");
    let verb = string_of(items[0])->0;
    assert(lower(verb[0]) == lower(bytes_of("ECHO"@)[0]));
}

} // verus!
