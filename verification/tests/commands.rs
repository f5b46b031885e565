use redis_core::command::{Command, SetOption};
use redis_core::resp::RESP;

fn simple(s: &str) -> RESP {
    RESP::SimpleString(s.as_bytes().to_vec())
}

fn bulk(s: &str) -> RESP {
    RESP::BulkString(s.as_bytes().to_vec())
}

fn request(words: &[&str]) -> RESP {
    RESP::Array(words.iter().map(|w| bulk(w)).collect())
}

fn unknown(words: &[&str]) -> Command {
    Command::Unknown(request(words))
}

fn set(key: &str, value: &str, expire: Option<u64>) -> Command {
    Command::SetKey {
        key: key.as_bytes().to_vec(),
        value: value.as_bytes().to_vec(),
        set_option: SetOption { expire },
    }
}

#[test]
fn ping_is_parsed() {
    assert_eq!(Command::from_resp(&request(&["PING"])), Command::Ping);
    assert_eq!(Command::from_resp_internal(&request(&["PING"])), Some(Command::Ping));
}

#[test]
fn command_is_parsed() {
    assert_eq!(Command::from_resp(&request(&["COMMAND"])), Command::Commands);
}

#[test]
fn echo_is_parsed() {
    assert_eq!(
        Command::from_resp(&request(&["ECHO", "hello"])),
        Command::Echo(b"hello".to_vec())
    );
}

#[test]
fn get_is_parsed() {
    assert_eq!(Command::from_resp(&request(&["GET", "k"])), Command::Get(b"k".to_vec()));
}

#[test]
fn set_is_parsed() {
    assert_eq!(Command::from_resp(&request(&["SET", "k", "v"])), set("k", "v", None));
}

#[test]
fn verbs_are_read_without_regard_to_case() {
    assert_eq!(Command::from_resp(&request(&["ping"])), Command::Ping);
    assert_eq!(Command::from_resp(&request(&["PiNg"])), Command::Ping);
    assert_eq!(Command::from_resp(&request(&["command"])), Command::Commands);
    assert_eq!(Command::from_resp(&request(&["echo", "x"])), Command::Echo(b"x".to_vec()));
    assert_eq!(Command::from_resp(&request(&["gEt", "x"])), Command::Get(b"x".to_vec()));
    assert_eq!(Command::from_resp(&request(&["set", "k", "v"])), set("k", "v", None));
}

#[test]
fn arguments_keep_their_case() {
    assert_eq!(Command::from_resp(&request(&["echo", "HeLLo"])), Command::Echo(b"HeLLo".to_vec()));
}

#[test]
fn simple_strings_serve_as_words_too() {
    let value = RESP::Array(vec![simple("GET"), simple("k")]);
    assert_eq!(Command::from_resp(&value), Command::Get(b"k".to_vec()));
}

#[test]
fn an_unrecognized_verb_is_unknown() {
    assert_eq!(Command::from_resp(&request(&["FOO"])), unknown(&["FOO"]));
    assert_eq!(Command::from_resp_internal(&request(&["FOO"])), None);
    assert_eq!(Command::from_resp(&request(&["COMMANDS"])), unknown(&["COMMANDS"]));
    assert_eq!(Command::from_resp(&request(&["PINGS"])), unknown(&["PINGS"]));
    assert_eq!(Command::from_resp(&request(&[""])), unknown(&[""]));
}

#[test]
fn echo_with_no_argument_is_unknown() {
    assert_eq!(Command::from_resp(&request(&["ECHO"])), unknown(&["ECHO"]));
}

#[test]
fn echo_with_two_or_more_arguments_is_unknown() {
    assert_eq!(Command::from_resp(&request(&["ECHO", "a", "b"])), unknown(&["ECHO", "a", "b"]));
    assert_eq!(
        Command::from_resp(&request(&["echo", "a", "b", "c"])),
        unknown(&["echo", "a", "b", "c"])
    );
}

#[test]
fn ping_and_command_stand_alone() {
    assert_eq!(Command::from_resp(&request(&["PING", "x"])), unknown(&["PING", "x"]));
    assert_eq!(Command::from_resp(&request(&["COMMAND", "DOCS"])), unknown(&["COMMAND", "DOCS"]));
}

#[test]
fn get_takes_one_argument() {
    assert_eq!(Command::from_resp(&request(&["GET"])), unknown(&["GET"]));
    assert_eq!(Command::from_resp(&request(&["GET", "a", "b"])), unknown(&["GET", "a", "b"]));
}

#[test]
fn set_takes_a_key_and_a_value() {
    assert_eq!(Command::from_resp(&request(&["SET"])), unknown(&["SET"]));
    assert_eq!(Command::from_resp(&request(&["SET", "k"])), unknown(&["SET", "k"]));
}

#[test]
fn set_with_px_has_an_expiry() {
    assert_eq!(
        Command::from_resp(&request(&["SET", "k", "v", "PX", "10"])),
        set("k", "v", Some(10))
    );
    assert_eq!(
        Command::from_resp(&request(&["set", "k", "v", "px", "0"])),
        set("k", "v", Some(0))
    );
    assert_eq!(
        Command::from_resp(&request(&["SET", "k", "v", "Px", "9223372036854775807"])),
        set("k", "v", Some(9223372036854775807))
    );
}

#[test]
fn set_takes_the_milliseconds_as_an_integer_too() {
    let value =
        RESP::Array(vec![bulk("SET"), bulk("k"), bulk("v"), bulk("PX"), RESP::Integer(250)]);
    assert_eq!(Command::from_resp(&value), set("k", "v", Some(250)));
}

#[test]
fn set_ignores_an_option_that_it_cannot_read() {
    assert_eq!(Command::from_resp(&request(&["SET", "k", "v", "PX"])), set("k", "v", None));
    assert_eq!(Command::from_resp(&request(&["SET", "k", "v", "PX", "soon"])), set("k", "v", None));
    assert_eq!(Command::from_resp(&request(&["SET", "k", "v", "PX", "-5"])), set("k", "v", None));
    assert_eq!(Command::from_resp(&request(&["SET", "k", "v", "PX", "010"])), set("k", "v", None));
    assert_eq!(Command::from_resp(&request(&["SET", "k", "v", "EX", "10"])), set("k", "v", None));
    assert_eq!(Command::from_resp(&request(&["SET", "k", "v", "NX"])), set("k", "v", None));
    assert_eq!(
        Command::from_resp(&request(&["SET", "k", "v", "PX", "9223372036854775808"])),
        set("k", "v", None)
    );
    let nested = RESP::Array(vec![
        bulk("SET"),
        bulk("k"),
        bulk("v"),
        RESP::Integer(1),
        bulk("10"),
    ]);
    assert_eq!(Command::from_resp(&nested), set("k", "v", None));
}

#[test]
fn set_looks_at_nothing_behind_the_option() {
    assert_eq!(
        Command::from_resp(&request(&["SET", "k", "v", "PX", "10", "NX", "x"])),
        set("k", "v", Some(10))
    );
}

#[test]
fn what_is_no_array_of_words_is_unknown() {
    for value in [
        simple("PING"),
        bulk("PING"),
        RESP::Integer(1),
        RESP::Nil,
        RESP::Error(b"PING".to_vec()),
        RESP::Array(vec![]),
        RESP::Array(vec![RESP::Integer(1)]),
        RESP::Array(vec![RESP::Array(vec![bulk("PING")])]),
        RESP::Array(vec![bulk("ECHO"), RESP::Integer(1)]),
        RESP::Array(vec![bulk("GET"), RESP::Nil]),
        RESP::Array(vec![bulk("SET"), RESP::Integer(1), bulk("v")]),
        RESP::Array(vec![bulk("SET"), bulk("k"), RESP::Array(vec![])]),
    ] {
        assert_eq!(Command::from_resp_internal(&value), None);
        assert_eq!(Command::from_resp(&value), Command::Unknown(value.clone()));
    }
}

#[test]
fn supported_commands_are_listed() {
    assert_eq!(
        Command::supported_commands(),
        RESP::Array(vec![
            simple("COMMAND"),
            simple("PING"),
            simple("ECHO"),
            simple("SET"),
            simple("GET"),
        ])
    );
}
