//! From a command to its reply, and the engine that every connection shares.

use vstd::prelude::*;
use vstd::rwlock::{RwLock, RwLockPredicate};
use std::time::{Duration, Instant};
use crate::command::{spec_command, spec_supported, Command, CommandView};
use crate::resp::{crlf_at, spec_decode_complete, spec_encode, DecodeError, Value, RESP, CR};
use crate::round_trip::is_wire_value;
use crate::store::{deadline, read, swept, Entry, Store};
use crate::text::{ascii, bytes_of, lemma_quoted_printable, push_all, quote, quoted};

verus! {

/// The reply to a request that the parser does not know: an error that
/// names the request, written as it is on the wire, between quotes.
pub open spec fn spec_unknown_reply(request: Value) -> Value {
    Value::Error(bytes_of("No such command: "@) + quoted(spec_encode(request)))
}

/// The reply to `command` on the map `m` at the time `now`.
pub open spec fn spec_reply(m: Map<Seq<u8>, Entry>, command: CommandView, now: u64) -> Value {
    match command {
        CommandView::Ping => Value::SimpleString(bytes_of("PONG"@)),
        CommandView::Commands => spec_supported(),
        CommandView::Echo(s) => Value::BulkString(s),
        CommandView::Unknown(request) => spec_unknown_reply(request),
        CommandView::SetKey { .. } => Value::SimpleString(bytes_of("OK"@)),
        CommandView::Get(key) => match read(m, key, now) {
            Some(data) => Value::BulkString(data),
            None => Value::Nil,
        },
    }
}

/// What `command` at the time `now` makes of the map `m`.
pub open spec fn spec_effect(m: Map<Seq<u8>, Entry>, command: CommandView, now: u64) -> Map<
    Seq<u8>,
    Entry,
> {
    match command {
        CommandView::SetKey { key, value, expire } => m.insert(
            key,
            Entry { data: value, expire: deadline(now, expire) },
        ),
        CommandView::Get(key) => swept(m, key, now),
        _ => m,
    }
}

/// Carries out `command` on `store` at the time `now`, and returns the
/// reply.
pub fn process(command: Command, store: &mut Store, now: u64) -> (out: RESP)
    ensures
        out@ == spec_reply(old(store)@, command@, now),
        final(store)@ == spec_effect(old(store)@, command@, now),
{
    match command {
        Command::Ping => {
            proof {
                reveal_strlit("PONG");
            }
            RESP::SimpleString(vstd::slice::slice_to_vec(ascii("PONG")))
        },
        Command::Commands => Command::supported_commands(),
        Command::Echo(s) => RESP::BulkString(s),
        Command::Unknown(request) => {
            proof {
                reveal_strlit("No such command: ");
            }
            let mut message = vstd::slice::slice_to_vec(ascii("No such command: "));
            let wire = request.to_string();
            let name = quote(wire.as_slice());
            push_all(&mut message, name.as_slice());
            RESP::Error(message)
        },
        Command::SetKey { key, value, set_option } => {
            proof {
                reveal_strlit("OK");
            }
            store.set(key, value, set_option.expire, now);
            RESP::SimpleString(vstd::slice::slice_to_vec(ascii("OK")))
        },
        Command::Get(key) => {
            match store.get(key.as_slice(), now) {
                Some(data) => RESP::BulkString(data),
                None => RESP::Nil,
            }
        },
    }
}

/// `GET` of a key that the map does not hold is answered with the absent
/// value, and leaves the map as it is.
pub proof fn lemma_get_absent(m: Map<Seq<u8>, Entry>, key: Seq<u8>, now: u64)
    requires
        !m.dom().contains(key),
    ensures
        spec_reply(m, CommandView::Get(key), now) == Value::Nil,
        spec_effect(m, CommandView::Get(key), now) == m,
{
}

/// `SET` without an expiry, then `GET` of the same key at any later or
/// earlier time: the answer is the value that was set.
pub proof fn lemma_set_then_get(
    m: Map<Seq<u8>, Entry>,
    key: Seq<u8>,
    value: Seq<u8>,
    set_at: u64,
    get_at: u64,
)
    ensures
        spec_reply(
            spec_effect(m, CommandView::SetKey { key, value, expire: None }, set_at),
            CommandView::Get(key),
            get_at,
        ) == Value::BulkString(value),
{
}

/// `SET` with an expiry, then `GET` of the same key: up to the last
/// millisecond of the entry the answer is the value that was set; after it
/// the answer is the absent value, and the entry is gone from the map.
pub proof fn lemma_set_expires(
    m: Map<Seq<u8>, Entry>,
    key: Seq<u8>,
    value: Seq<u8>,
    ms: u64,
    set_at: u64,
    get_at: u64,
)
    ensures
        ({
            let written = spec_effect(
                m,
                CommandView::SetKey { key, value, expire: Some(ms) },
                set_at,
            );
            if get_at > set_at + ms {
                &&& spec_reply(written, CommandView::Get(key), get_at) == Value::Nil
                &&& !spec_effect(written, CommandView::Get(key), get_at).dom().contains(key)
            } else {
                &&& spec_reply(written, CommandView::Get(key), get_at) == Value::BulkString(value)
                &&& spec_effect(written, CommandView::Get(key), get_at) == written
            }
        }),
{
}

/// A request that the parser does not know is answered with an error, and
/// the error is one line: it holds no CRLF, so it is a value that decodes
/// from its own encoding. The map is left as it is, and a `PING` after it
/// is answered with `PONG` as ever.
pub proof fn lemma_unknown_then_ping(m: Map<Seq<u8>, Entry>, request: Value, now: u64, later: u64)
    ensures
        spec_reply(m, CommandView::Unknown(request), now) is Error,
        is_wire_value(spec_reply(m, CommandView::Unknown(request), now)),
        spec_effect(m, CommandView::Unknown(request), now) == m,
        spec_reply(
            spec_effect(m, CommandView::Unknown(request), now),
            CommandView::Ping,
            later,
        ) == Value::SimpleString(bytes_of("PONG"@)),
{
    reveal_strlit("No such command: ");
    let head = bytes_of("No such command: "@);
    let name = quoted(spec_encode(request));
    let line = head + name;
    lemma_quoted_printable(spec_encode(request));
    assert forall|i: int| !crlf_at(line, i) by {
        if 0 <= i && i + 1 < line.len() {
            if i < head.len() {
                assert(line[i] == head[i]);
                assert(head[i] != CR);
            } else {
                assert(line[i] == name[i - head.len()]);
            }
        }
    }
}

/// `std::time::Instant`, a reading of the system's monotonic clock. It is
/// carried from where it is taken to where it is asked how long ago that
/// was; nothing inside it is looked at.
#[verifier::external_type_specification]
#[verifier::external_body]
pub struct ExInstant(Instant);

/// `Instant::now`: the present reading of the clock. Nothing is claimed of
/// the reading.
pub assume_specification[ Instant::now ]() -> (t: Instant);

/// `Instant::elapsed`: the time that has passed since the instant was
/// taken. Nothing is claimed of it.
pub assume_specification[ Instant::elapsed ](t: &Instant) -> (d: Duration);

/// `Duration::as_millis`: the whole milliseconds of a duration. Nothing is
/// claimed of their number.
pub assume_specification[ Duration::as_millis ](d: &Duration) -> (ms: u128);

/// What the commands of `steps`, each at its time and one after the other,
/// make of the map `m`.
pub open spec fn spec_run(m: Map<Seq<u8>, Entry>, steps: Seq<(CommandView, u64)>) -> Map<
    Seq<u8>,
    Entry,
>
    decreases steps.len(),
{
    if steps.len() == 0 {
        m
    } else {
        spec_effect(spec_run(m, steps.drop_last()), steps.last().0, steps.last().1)
    }
}

/// Whether `m` is what some commands, at some times, make of the map
/// `from`.
pub open spec fn made_of(from: Map<Seq<u8>, Entry>, m: Map<Seq<u8>, Entry>) -> bool {
    exists|steps: Seq<(CommandView, u64)>| spec_run(from, steps) == m
}

/// A map is made of itself, by no command at all.
pub proof fn lemma_made_of_itself(m: Map<Seq<u8>, Entry>)
    ensures
        made_of(m, m),
{
    assert(spec_run(m, Seq::<(CommandView, u64)>::empty()) == m);
}

/// What one more command makes of a map that was made of `from` is made of
/// `from` too.
pub proof fn lemma_made_of_one_more(
    from: Map<Seq<u8>, Entry>,
    m: Map<Seq<u8>, Entry>,
    command: CommandView,
    now: u64,
)
    requires
        made_of(from, m),
    ensures
        made_of(from, spec_effect(m, command, now)),
{
    let steps = choose|steps: Seq<(CommandView, u64)>| spec_run(from, steps) == m;
    let longer = steps.push((command, now));
    assert(longer.drop_last() =~= steps);
    assert(spec_run(from, longer) == spec_effect(m, command, now));
}

/// The number of 64 bits that a clock shows after `ms` milliseconds: `ms`
/// itself, or the largest such number where `ms` is larger.
pub open spec fn spec_clock(ms: u128) -> u64 {
    if ms > u64::MAX {
        u64::MAX
    } else {
        ms as u64
    }
}

/// What the clock shows after `ms` milliseconds.
pub fn clock_of(ms: u128) -> (out: u64)
    ensures
        out == spec_clock(ms),
{
    if ms > 0xffff_ffff_ffff_ffff {
        0xffff_ffff_ffff_ffff
    } else {
        ms as u64
    }
}

/// The condition under which a store may be put behind the lock: its map
/// is one that commands made of the map that the engine began with.
struct MadeOf {
    start: Map<Seq<u8>, Entry>,
}

impl RwLockPredicate<Store> for MadeOf {
    closed spec fn inv(self, store: Store) -> bool {
        made_of(self.start, store@)
    }
}

/// The engine that the connections share: one map behind one lock, and the
/// instant from which its clock counts.
pub struct RedisEngine {
    db: RwLock<Store, MadeOf>,
    started: Instant,
}

impl RedisEngine {
    /// The map that the engine began with. Whatever map is behind the lock
    /// later, commands made it of this one.
    pub closed spec fn began_with(&self) -> Map<Seq<u8>, Entry> {
        self.db.pred().start
    }

    /// An engine that begins with the empty map, and whose clock starts now.
    pub fn new() -> (out: RedisEngine)
        ensures
            out.began_with() == Map::<Seq<u8>, Entry>::empty(),
    {
        let store = Store::new();
        let ghost start = store@;
        proof {
            lemma_made_of_itself(start);
        }
        RedisEngine { db: RwLock::new(store, Ghost(MadeOf { start })), started: Instant::now() }
    }

    /// The time on the engine's clock: the milliseconds that have passed
    /// since the engine was made, as `clock_of` shows them.
    fn now(&self) -> (out: u64) {
        clock_of(self.started.elapsed().as_millis())
    }

    /// Carries out `command` on the shared map at the present time, and
    /// returns the reply.
    ///
    /// The lock is held from the reading of the clock to the end of the
    /// command, and for no longer. Which map the command finds depends on
    /// what the other connections did before, and the time on the clock: the
    /// reply is the one that `process` gives at some time on some map that
    /// commands made of the map the engine began with. The map that the
    /// command leaves behind the lock is such a map again.
    pub fn process_command(&self, command: Command) -> (out: RESP)
        ensures
            exists|m: Map<Seq<u8>, Entry>, now: u64|
                made_of(self.began_with(), m) && out@ == spec_reply(m, command@, now),
    {
        let ghost asked = command@;
        let (mut store, handle) = self.db.acquire_write();
        let now = self.now();
        let ghost before = store@;
        let out = process(command, &mut store, now);
        proof {
            lemma_made_of_one_more(self.began_with(), before, asked, now);
        }
        handle.release_write(store);
        assert(made_of(self.began_with(), before) && out@ == spec_reply(before, asked, now));
        out
    }

    /// Answers one request as it came off the wire: decodes it, carries out
    /// the command that it stands for, and encodes the reply.
    ///
    /// A buffer that is not exactly one value is not answered, and the map
    /// is not touched: the error says why it was not decoded. Any other
    /// buffer is answered, a request that the parser does not know with an
    /// error reply like any other reply.
    pub fn answer(&self, input: &[u8]) -> (out: Result<Vec<u8>, DecodeError>)
        ensures
            match out {
                Ok(bytes) => spec_decode_complete(input@) is Ok && exists|
                    m: Map<Seq<u8>, Entry>,
                    now: u64,
                |
                    made_of(self.began_with(), m) && bytes@ == spec_encode(
                        spec_reply(m, spec_command(spec_decode_complete(input@)->Ok_0), now),
                    ),
                Err(e) => spec_decode_complete(input@) == Err::<Value, _>(e),
            },
    {
        let request = match RESP::from_str(input) {
            Ok(request) => request,
            Err(e) => {
                return Err(e);
            },
        };
        let command = Command::from_resp(&request);
        let ghost asked = command@;
        let reply = self.process_command(command);
        let bytes = reply.to_string();
        proof {
            let (m, now) = choose|m: Map<Seq<u8>, Entry>, now: u64|
                made_of(self.began_with(), m) && reply@ == spec_reply(m, asked, now);
            assert(made_of(self.began_with(), m) && bytes@ == spec_encode(
                spec_reply(m, spec_command(request@), now),
            ));
        }
        Ok(bytes)
    }
}

} // verus!
