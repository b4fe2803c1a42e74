//! The request logic of the server: what each request does to the server's
//! data and subscriber lists, and which bytes it answers. The connection
//! loop that reads requests and writes the answers stands outside.

use vstd::prelude::*;
use vstd::utf8::{encode_utf8, valid_utf8, decode_utf8_encode_utf8, partial_valid_utf8_extend_ascii_block, is_leading_byte_width_1};
use crate::text::{ZERO, CR, LF, decimal, push_decimal, utf8_to_string, lemma_decimal_digits};
use crate::value::{Value, RedisValue, value_of, values_of, lemma_values_of_index};
use crate::de::{STAR, COLON};
use crate::ser::{bulk_bytes, simple_bytes, null_bytes, serialize_bulk_str, serialize_str, serialize_null};
use crate::store::Table;

verus! {

/// The model of the server: its key/value data, and for each channel the
/// subscribers registered on it, in order of registration.
pub struct State {
    pub data: Map<Seq<char>, Seq<char>>,
    pub subscribers: Map<Seq<char>, Seq<u64>>,
}

/// What the connection does after a request.
pub enum Reaction {
    /// Nothing is written; the next request is read.
    Continue,
    /// The bytes are written; the next request is read.
    Reply(Seq<u8>),
    /// The connection was registered as a subscriber: the bytes are written,
    /// then published messages are forwarded to it.
    Subscribed(Seq<u8>),
    /// The text is handed to the subscribers listed, in order; then the
    /// bytes are written and the next request is read.
    Publish(Seq<u64>, Seq<char>, Seq<u8>),
    /// The connection ends.
    Close,
}

/// What the connection does after a request (see [`Reaction`]).
#[derive(Debug)]
pub enum Action {
    Continue,
    Reply(Vec<u8>),
    Subscribed(Vec<u8>),
    Publish(Vec<u64>, String, Vec<u8>),
    Close,
}

impl Action {
    pub open spec fn view(self) -> Reaction {
        match self {
            Action::Continue => Reaction::Continue,
            Action::Reply(b) => Reaction::Reply(b@),
            Action::Subscribed(b) => Reaction::Subscribed(b@),
            Action::Publish(ids, text, b) => Reaction::Publish(ids@, text@, b@),
            Action::Close => Reaction::Close,
        }
    }
}

/// The string at position `i` of a request, if there is one there.
pub open spec fn str_arg(items: Seq<Value>, i: int) -> Option<Seq<char>> {
    if 0 <= i < items.len() {
        match items[i] {
            Value::Str(c) => Some(c),
            _ => None,
        }
    } else {
        None
    }
}

/// The subscribers after `id` subscribes to `channel`.
pub open spec fn with_subscriber(subs: Map<Seq<char>, Seq<u64>>, channel: Seq<char>, id: u64) -> Map<Seq<char>, Seq<u64>> {
    subs.insert(
        channel,
        (if subs.dom().contains(channel) {
            subs[channel]
        } else {
            Seq::empty()
        }).push(id),
    )
}

/// The confirmation of a subscription: an array of three, `"subscribe"`, the
/// channel and the integer 1.
pub open spec fn subscribe_reply(channel: Seq<char>) -> Seq<u8> {
    seq![STAR, (ZERO + 3) as u8, CR, LF] + bulk_bytes("subscribe"@) + bulk_bytes(channel) + seq![
        COLON,
        (ZERO + 1) as u8,
        CR,
        LF,
    ]
}

/// The answer to `GET key`: the value as a line-terminated string, or null.
pub open spec fn get_reply(data: Map<Seq<char>, Seq<char>>, key: Seq<char>) -> Seq<u8> {
    if data.dom().contains(key) {
        simple_bytes(data[key])
    } else {
        null_bytes()
    }
}

/// A byte with its ASCII upper-case letter made lower case.
pub open spec fn ascii_lower(b: u8) -> u8 {
    if 65 <= b <= 90 {
        (b + 32) as u8
    } else {
        b
    }
}

/// The two byte strings are equal but for the case of ASCII letters.
pub open spec fn same_word(a: Seq<u8>, b: Seq<u8>) -> bool {
    a.len() == b.len() && forall|i: int| 0 <= i < a.len() ==> #[trigger] ascii_lower(a[i]) == ascii_lower(b[i])
}

/// The command word `command` names the command `name`, in any case of its
/// ASCII letters, as command names go in redis.
pub open spec fn names(command: Seq<char>, name: Seq<u8>) -> bool {
    same_word(encode_utf8(command), name)
}

/// The bytes of `subscribe`.
pub open spec fn word_subscribe() -> Seq<u8> {
    seq![115, 117, 98, 115, 99, 114, 105, 98, 101]
}

/// The bytes of `GET`.
pub open spec fn word_get() -> Seq<u8> {
    seq![71, 69, 84]
}

/// The bytes of `SET`.
pub open spec fn word_set() -> Seq<u8> {
    seq![83, 69, 84]
}

/// The bytes of `PUBLISH`.
pub open spec fn word_publish() -> Seq<u8> {
    seq![80, 85, 66, 76, 73, 83, 72]
}

/// The subscribers of `channel`, in order of registration.
pub open spec fn subscribers_of(subs: Map<Seq<char>, Seq<u64>>, channel: Seq<char>) -> Seq<u64> {
    if subs.dom().contains(channel) {
        subs[channel]
    } else {
        Seq::empty()
    }
}

/// An integer answer: `:`, the decimal numeral, `"\r\n"`.
pub open spec fn integer_reply(n: nat) -> Seq<u8> {
    seq![COLON] + decimal(n) + seq![CR, LF]
}

/// What a request does to the server and which reaction it has, for the
/// connection of subscriber `id`. A request is an array whose first string
/// names the command, in any case: `subscribe channel`, `GET key`,
/// `SET key value` or `PUBLISH channel text`.
pub open spec fn step(st: State, request: Value, id: u64) -> (State, Reaction) {
    match request {
        Value::Array(items) => match str_arg(items, 0) {
            None => (st, Reaction::Close),
            Some(command) => if names(command, word_subscribe()) {
                match str_arg(items, 1) {
                    Some(channel) => (
                        State { subscribers: with_subscriber(st.subscribers, channel, id), ..st },
                        Reaction::Subscribed(subscribe_reply(channel)),
                    ),
                    None => (st, Reaction::Continue),
                }
            } else if names(command, word_get()) {
                match str_arg(items, 1) {
                    Some(key) => (st, Reaction::Reply(get_reply(st.data, key))),
                    None => (st, Reaction::Continue),
                }
            } else if names(command, word_set()) {
                match (str_arg(items, 1), str_arg(items, 2)) {
                    (Some(key), Some(value)) => (
                        State { data: st.data.insert(key, value), ..st },
                        Reaction::Reply(simple_bytes("OK"@)),
                    ),
                    _ => (st, Reaction::Continue),
                }
            } else if names(command, word_publish()) {
                match (str_arg(items, 1), str_arg(items, 2)) {
                    (Some(channel), Some(text)) => {
                        let ids = subscribers_of(st.subscribers, channel);
                        (st, Reaction::Publish(ids, text, integer_reply(ids.len())))
                    },
                    _ => (st, Reaction::Continue),
                }
            } else {
                (st, Reaction::Continue)
            },
        },
        _ => (st, Reaction::Continue),
    }
}

/// The channel that a request subscribes to, if it is a `subscribe` request
/// that names one.
pub open spec fn subscribed_channel(request: Value) -> Option<Seq<char>> {
    match request {
        Value::Array(items) => if str_arg(items, 0) is Some && names(str_arg(items, 0)->Some_0, word_subscribe()) {
            str_arg(items, 1)
        } else {
            None
        },
        _ => None,
    }
}

/// The list of channels after a first subscription to `channel` (if any):
/// a new channel goes last.
pub open spec fn channels_after(
    channels: Seq<Seq<char>>,
    subs: Map<Seq<char>, Seq<u64>>,
    channel: Option<Seq<char>>,
) -> Seq<Seq<char>> {
    match channel {
        Some(c) => if subs.dom().contains(c) {
            channels
        } else {
            channels.push(c)
        },
        None => channels,
    }
}

/// The channel that a request of the key/value variant subscribes to: the
/// string that a table holds under the key `"SUBSCRIBE"`.
pub open spec fn key_value_channel(request: Value) -> Option<Seq<char>> {
    match request {
        Value::Mapping(m) => if m.dom().contains("SUBSCRIBE"@) && m["SUBSCRIBE"@] is Str {
            Some(m["SUBSCRIBE"@]->Str_0)
        } else {
            None
        },
        _ => None,
    }
}

/// What a request of the key/value variant does: a table whose key
/// `"SUBSCRIBE"` holds a string subscribes `id` to the channel it names and
/// is answered; anything else is not answered.
pub open spec fn step_key_value(st: State, request: Value, id: u64) -> (State, Option<Seq<u8>>) {
    match key_value_channel(request) {
        Some(channel) => (
            State { subscribers: with_subscriber(st.subscribers, channel, id), ..st },
            Some(subscribe_reply(channel)),
        ),
        None => (st, None),
    }
}

/// A published message for one channel: an array of three, `"message"`, the
/// channel and the text.
pub open spec fn message_frame(channel: Seq<char>, text: Seq<char>) -> Seq<u8> {
    seq![STAR, (ZERO + 3) as u8, CR, LF] + bulk_bytes("message"@) + bulk_bytes(channel) + bulk_bytes(text)
}

/// One message frame per channel of `channels`, in order.
pub open spec fn message_frames(channels: Seq<Seq<char>>, text: Seq<char>) -> Seq<u8>
    decreases channels.len(),
{
    if channels.len() == 0 {
        Seq::empty()
    } else {
        message_frames(channels.drop_last(), text) + message_frame(channels.last(), text)
    }
}

/// The ASCII bytes of `"Hello "`.
pub open spec fn hello_prefix() -> Seq<u8> {
    seq![72, 101, 108, 108, 111, 32]
}

/// The text that the clock publishes at second `time`: `"Hello "` and the
/// decimal numeral of `time`.
pub open spec fn clock_text(time: nat) -> Seq<u8> {
    hello_prefix() + decimal(time)
}

/// The server: its key/value data and the subscribers of each channel.
pub struct Server {
    data: Table<String>,
    subscribers: Table<Vec<u64>>,
}

fn str_arg_exec(items: &Vec<RedisValue>, i: usize) -> (r: Option<&String>)
    ensures
        match r {
            Some(s) => str_arg(values_of(items@), i as int) == Some(s@),
            None => str_arg(values_of(items@), i as int) is None,
        },
{
    proof {
        lemma_values_of_index(items@);
    }
    if i < items.len() {
        items[i].as_string()
    } else {
        None
    }
}

fn lower_byte(b: u8) -> (r: u8)
    ensures
        r == ascii_lower(b),
{
    if 65 <= b && b <= 90 {
        b + 32
    } else {
        b
    }
}

/// Whether the command word `s` names the command `word`, in any case.
fn is_word(s: &String, word: &[u8]) -> (r: bool)
    ensures
        r == same_word(encode_utf8(s@), word@),
{
    let bytes = s.as_str().as_bytes();
    if bytes.len() != word.len() {
        return false;
    }
    let mut i: usize = 0;
    while i < bytes.len()
        invariant
            bytes@ == encode_utf8(s@),
            bytes@.len() == word@.len(),
            i <= bytes@.len(),
            forall|k: int| 0 <= k < i ==> #[trigger] ascii_lower(bytes@[k]) == ascii_lower(word@[k]),
        decreases bytes@.len() - i,
    {
        if lower_byte(bytes[i]) != lower_byte(word[i]) {
            return false;
        }
        i += 1;
    }
    true
}

/// Appends the confirmation of a subscription to `channel`.
fn push_subscribe_reply(out: &mut Vec<u8>, channel: &String)
    ensures
        final(out)@ == old(out)@ + subscribe_reply(channel@),
{
    out.push(STAR);
    out.push(ZERO + 3);
    out.push(CR);
    out.push(LF);
    serialize_bulk_str(out, "subscribe");
    serialize_bulk_str(out, channel.as_str());
    out.push(COLON);
    out.push(ZERO + 1);
    out.push(CR);
    out.push(LF);
    assert(final(out)@ =~= old(out)@ + subscribe_reply(channel@));
}

/// Bytes that are all ASCII are valid UTF-8.
proof fn lemma_ascii_valid(b: Seq<u8>)
    requires
        forall|i: int| 0 <= i < b.len() ==> #[trigger] b[i] < 128,
    ensures
        valid_utf8(b),
{
    assert(valid_utf8(b.subrange(0, 0))) by {
        assert(b.subrange(0, 0) =~= Seq::<u8>::empty());
    }
    assert forall|i: int| 0 <= 0 <= i < b.len() <= b.len() implies #[trigger] is_leading_byte_width_1(b[i]) by {}
    partial_valid_utf8_extend_ascii_block(b, 0, b.len() as int);
    assert(b.subrange(0, b.len() as int) =~= b);
}

impl Server {
    /// The model of the server.
    pub closed spec fn view(&self) -> State {
        State { data: self.data@, subscribers: self.subscribers@ }
    }

    /// The channels that have subscribers, in the order of their first
    /// subscription.
    pub closed spec fn channels(&self) -> Seq<Seq<char>> {
        self.subscribers.keys()
    }

    pub closed spec fn wf(&self) -> bool {
        self.data.wf() && self.subscribers.wf()
    }

    /// The channels listed are exactly the channels with subscribers, each once.
    pub proof fn lemma_channels(&self)
        requires
            self.wf(),
        ensures
            self.channels().no_duplicates(),
            forall|c: Seq<char>| #[trigger] self@.subscribers.dom().contains(c) <==> self.channels().contains(c),
    {
        self.subscribers.lemma_keys();
    }

    /// A server with no data and no subscribers.
    pub fn new() -> (r: Server)
        ensures
            r.wf(),
            r@.data == Map::<Seq<char>, Seq<char>>::empty(),
            r@.subscribers == Map::<Seq<char>, Seq<u64>>::empty(),
            r.channels() == Seq::<Seq<char>>::empty(),
    {
        Server { data: Table::new(), subscribers: Table::new() }
    }

    /// Handles one request of the connection of subscriber `id`.
    pub fn handle_request(&mut self, request: &RedisValue, id: u64) -> (r: Action)
        requires
            old(self).wf(),
        ensures
            final(self).wf(),
            (final(self)@, r@) == step(old(self)@, value_of(*request), id),
            final(self).channels() == channels_after(
                old(self).channels(),
                old(self)@.subscribers,
                subscribed_channel(value_of(*request)),
            ),
    {
        let items = match request {
            RedisValue::Array(items) => items,
            _ => return Action::Continue,
        };
        let command = match str_arg_exec(items, 0) {
            Some(c) => c,
            None => return Action::Close,
        };
        if is_word(command, &[115, 117, 98, 115, 99, 114, 105, 98, 101]) {
            match str_arg_exec(items, 1) {
                Some(channel) => {
                    self.subscribers.push_to(channel.clone(), id);
                    let mut reply = Vec::new();
                    push_subscribe_reply(&mut reply, channel);
                    Action::Subscribed(reply)
                },
                None => Action::Continue,
            }
        } else if is_word(command, &[71, 69, 84]) {
            match str_arg_exec(items, 1) {
                Some(key) => {
                    let mut reply = Vec::new();
                    match self.data.get(key) {
                        Some(value) => serialize_str(&mut reply, value.as_str()),
                        None => serialize_null(&mut reply),
                    }
                    assert(reply@ =~= get_reply(self@.data, key@));
                    Action::Reply(reply)
                },
                None => Action::Continue,
            }
        } else if is_word(command, &[83, 69, 84]) {
            match (str_arg_exec(items, 1), str_arg_exec(items, 2)) {
                (Some(key), Some(value)) => {
                    self.data.insert(key.clone(), value.clone());
                    let mut reply = Vec::new();
                    serialize_str(&mut reply, "OK");
                    assert(reply@ =~= simple_bytes("OK"@));
                    Action::Reply(reply)
                },
                _ => Action::Continue,
            }
        } else if is_word(command, &[80, 85, 66, 76, 73, 83, 72]) {
            match (str_arg_exec(items, 1), str_arg_exec(items, 2)) {
                (Some(channel), Some(text)) => {
                    let ids = self.subscribers_of(channel);
                    let mut reply = Vec::new();
                    reply.push(COLON);
                    push_decimal(&mut reply, ids.len() as u64);
                    reply.push(CR);
                    reply.push(LF);
                    assert(reply@ =~= integer_reply(ids@.len()));
                    Action::Publish(ids, text.clone(), reply)
                },
                _ => Action::Continue,
            }
        } else {
            Action::Continue
        }
    }

    /// Handles the one request of a connection in the key/value variant of
    /// the protocol: the confirmation to write when it subscribed `id`.
    pub fn handle_key_value_request(&mut self, request: &RedisValue, id: u64) -> (r: Option<Vec<u8>>)
        requires
            old(self).wf(),
        ensures
            final(self).wf(),
            (final(self)@, match r {
                Some(b) => Some(b@),
                None => None::<Seq<u8>>,
            }) == step_key_value(old(self)@, value_of(*request), id),
            final(self).channels() == channels_after(
                old(self).channels(),
                old(self)@.subscribers,
                key_value_channel(value_of(*request)),
            ),
    {
        let key = "SUBSCRIBE".to_owned();
        match request {
            RedisValue::Mapping(_) => {},
            _ => return None,
        }
        let channel = match request.get(&key) {
            Some(RedisValue::Str(channel)) => channel,
            _ => return None,
        };
        self.subscribers.push_to(channel.clone(), id);
        let mut reply = Vec::new();
        push_subscribe_reply(&mut reply, channel);
        Some(reply)
    }

    /// The frames that forward a published text to a subscriber: one per
    /// channel that has subscribers.
    pub fn publish_frames(&self, text: &str) -> (r: Vec<u8>)
        requires
            self.wf(),
        ensures
            r@ == message_frames(self.channels(), text@),
    {
        let n = self.subscribers.len();
        let mut out: Vec<u8> = Vec::new();
        let mut i: usize = 0;
        while i < n
            invariant
                n == self.channels().len(),
                i <= n,
                out@ == message_frames(self.channels().take(i as int), text@),
            decreases n - i,
        {
            let channel = self.subscribers.key_at(i);
            let ghost before = out@;
            out.push(STAR);
            out.push(ZERO + 3);
            out.push(CR);
            out.push(LF);
            serialize_bulk_str(&mut out, "message");
            serialize_bulk_str(&mut out, channel.as_str());
            serialize_bulk_str(&mut out, text);
            assert(out@ =~= before + message_frame(channel@, text@));
            i += 1;
            assert(self.channels().take(i as int).drop_last() =~= self.channels().take(i - 1));
        }
        assert(self.channels().take(n as int) =~= self.channels());
        out
    }

    /// The subscribers of `channel`, in order of registration.
    pub fn subscribers_of(&self, channel: &String) -> (r: Vec<u64>)
        requires
            self.wf(),
        ensures
            r@ == (if self@.subscribers.dom().contains(channel@) {
                self@.subscribers[channel@]
            } else {
                Seq::empty()
            }),
    {
        match self.subscribers.get(channel) {
            Some(ids) => ids.clone(),
            None => Vec::new(),
        }
    }

    /// One tick of the clock at second `time`: the subscribers of the channel
    /// named `"channel"` and the text to send each of them.
    pub fn clock(&self, time: u64) -> (r: (Vec<u64>, String))
        requires
            self.wf(),
        ensures
            r.0@ == (if self@.subscribers.dom().contains("channel"@) {
                self@.subscribers["channel"@]
            } else {
                Seq::empty()
            }),
            encode_utf8(r.1@) == clock_text(time as nat),
    {
        let ids = self.subscribers_of(&"channel".to_owned());
        (ids, clock_message(time))
    }
}

/// The text that the clock publishes at second `time`.
pub fn clock_message(time: u64) -> (r: String)
    ensures
        encode_utf8(r@) == clock_text(time as nat),
{
    let mut bytes: Vec<u8> = Vec::new();
    bytes.push(72);
    bytes.push(101);
    bytes.push(108);
    bytes.push(108);
    bytes.push(111);
    bytes.push(32);
    push_decimal(&mut bytes, time);
    assert(bytes@ =~= clock_text(time as nat));
    proof {
        lemma_decimal_digits(time as nat);
        assert forall|i: int| 0 <= i < bytes@.len() implies #[trigger] bytes@[i] < 128 by {
            if i >= 6 {
                assert(bytes@[i] == decimal(time as nat)[i - 6]);
            }
        }
        lemma_ascii_valid(bytes@);
        decode_utf8_encode_utf8(bytes@);
    }
    match utf8_to_string(bytes.as_slice()) {
        Some(text) => text,
        None => {
            assert(false);
            String::new()
        },
    }
}

} // verus!
