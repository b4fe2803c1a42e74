//! The reader: decoding one protocol value from the front of a byte buffer.
//!
//! A buffer stands for the bytes that a connection has delivered so far.
//! Where the reader would need a byte past the end of the buffer it answers
//! [`DeError::Incomplete`]; a connection that has ended answers the same.

use vstd::prelude::*;
use vstd::utf8::*;
use crate::text::{ZERO, CR, LF, utf8_to_string};
use crate::value::{
    Value, RedisValue, value_of, values_of, entries_view, entries_distinct, entries_well_formed,
    well_formed, all_well_formed, insert_entry, lemma_values_of_push,
};

verus! {

/// ASCII code of `'-'`.
pub const MINUS: u8 = 45;
/// Tag of an integer (`':'`).
pub const COLON: u8 = 58;
/// Tag of a length-prefixed string (`'$'`).
pub const DOLLAR: u8 = 36;
/// Tag of a line-terminated string (`'+'`).
pub const PLUS: u8 = 43;
/// Tag of an array (`'*'`).
pub const STAR: u8 = 42;
/// Tag of a key/value aggregate (`'%'`).
pub const PERCENT: u8 = 37;
/// The most digits that a length field may hold.
pub const MAX_LEN_DIGITS: usize = 16;

/// The three variants of the reader that the programs of this project use.
///
/// - `Client`: lengths may carry `'-'` (a negative length string is null,
///   a negative length array is empty); tags `:` `$` `+` `*` `%`.
/// - `Server`: lengths are unsigned; tags `$` `+` `*` `%`.
/// - `KeyValue`: lengths are unsigned; tags `$` and `*`, where `*` opens an
///   aggregate of key/value pairs whose length counts keys and values.
///
/// In `Client` and `Server`, `%` opens an aggregate whose length counts its
/// key/value pairs, as RESP3 maps do.
#[derive(Clone, Copy, Debug, PartialEq, Eq, Structural)]
pub enum Dialect {
    Client,
    Server,
    KeyValue,
}

/// Why a value could not be read.
#[derive(Clone, Copy, Debug, PartialEq, Eq, Structural)]
pub enum DeError {
    /// A byte past the end of the input was needed.
    Incomplete,
    /// A length field did not end with `"\r\n"`.
    LengthNotCrlf,
    /// A length field held no digit, or a number beyond the length type.
    InvalidLength,
    /// A length-prefixed string was not followed by `"\r\n"`.
    StringNotCrlf,
    /// The bytes of a string were not valid UTF-8.
    InvalidUtf8,
    /// A key of a key/value aggregate was not a string.
    KeyNotString,
    /// The first byte of a value was not a tag of the dialect.
    UnknownTag(u8),
}

/// What reading gives: a result and the position after it, an error, or
/// `TooLong`, a length field of more digits than the reader's digit buffer
/// holds ([`MAX_LEN_DIGITS`]); a program that meets one stops.
pub enum Outcome<T> {
    Done(T, int),
    Fail(DeError),
    TooLong,
}

/// What [`decode`] gives.
#[derive(Debug)]
pub enum Decoded {
    /// A value, and the number of bytes that it took.
    Value(RedisValue, usize),
    /// No value could be read.
    Error(DeError),
    /// A length field held more than [`MAX_LEN_DIGITS`] digits.
    LengthTooLong,
}

impl Decoded {
    pub open spec fn view(self) -> Outcome<Value> {
        match self {
            Decoded::Value(v, n) => Outcome::Done(value_of(v), n as int),
            Decoded::Error(e) => Outcome::Fail(e),
            Decoded::LengthTooLong => Outcome::TooLong,
        }
    }
}

pub open spec fn is_digit(b: u8) -> bool {
    ZERO <= b <= ZERO + 9
}

/// Whether byte `b` continues a length field in dialect `d`.
pub open spec fn in_length_field(d: Dialect, b: u8) -> bool {
    is_digit(b) || (d is Client && b == MINUS)
}

/// The length field that starts at `i`: the index of the first byte after
/// it, its digits, and whether it held a `'-'`.
pub open spec fn len_scan(d: Dialect, s: Seq<u8>, i: int) -> (int, Seq<u8>, bool)
    decreases s.len() - i,
{
    if 0 <= i < s.len() && in_length_field(d, s[i]) {
        let r = len_scan(d, s, i + 1);
        if is_digit(s[i]) {
            (r.0, seq![s[i]] + r.1, r.2)
        } else {
            (r.0, r.1, true)
        }
    } else {
        (i, Seq::empty(), false)
    }
}

/// The number that decimal digits denote.
pub open spec fn digits_value(ds: Seq<u8>) -> nat
    decreases ds.len(),
{
    if ds.len() == 0 {
        0
    } else {
        digits_value(ds.drop_last()) * 10 + (ds.last() - ZERO) as nat
    }
}

/// The greatest length that the length type of the dialect holds.
pub open spec fn len_max(d: Dialect) -> int {
    if d is Client {
        isize::MAX as int
    } else {
        usize::MAX as int
    }
}

/// Reading a length field and its `"\r\n"` at `pos`.
pub open spec fn read_len(d: Dialect, s: Seq<u8>, pos: int) -> Outcome<int> {
    let (end, digits, negative) = len_scan(d, s, pos);
    if digits.len() > MAX_LEN_DIGITS {
        Outcome::TooLong
    } else if end >= s.len() {
        Outcome::Fail(DeError::Incomplete)
    } else if s[end] != CR {
        Outcome::Fail(DeError::LengthNotCrlf)
    } else if end + 1 >= s.len() {
        Outcome::Fail(DeError::Incomplete)
    } else if s[end + 1] != LF {
        Outcome::Fail(DeError::LengthNotCrlf)
    } else if digits.len() == 0 || digits_value(digits) > len_max(d) {
        Outcome::Fail(DeError::InvalidLength)
    } else {
        Outcome::Done(
            if negative {
                -digits_value(digits)
            } else {
                digits_value(digits) as int
            },
            end + 2,
        )
    }
}

/// Reading the `n` bytes of a length-prefixed string at `start`, then `"\r\n"`.
pub open spec fn bulk_string(s: Seq<u8>, start: int, n: int) -> Outcome<Value> {
    let end = start + n;
    if end >= s.len() {
        Outcome::Fail(DeError::Incomplete)
    } else if s[end] != CR {
        Outcome::Fail(DeError::StringNotCrlf)
    } else if end + 1 >= s.len() {
        Outcome::Fail(DeError::Incomplete)
    } else if s[end + 1] != LF {
        Outcome::Fail(DeError::StringNotCrlf)
    } else if !valid_utf8(s.subrange(start, end)) {
        Outcome::Fail(DeError::InvalidUtf8)
    } else {
        Outcome::Done(Value::Str(decode_utf8(s.subrange(start, end))), end + 2)
    }
}

/// The first index at or after `i` where `"\r\n"` starts, or -1.
pub open spec fn find_crlf(s: Seq<u8>, i: int) -> int
    decreases s.len() - i,
{
    if i < 0 || i + 1 >= s.len() {
        -1
    } else if s[i] == CR && s[i + 1] == LF {
        i
    } else {
        find_crlf(s, i + 1)
    }
}

/// Reading a string that ends at the first `"\r\n"` at or after `start`.
pub open spec fn simple_string(s: Seq<u8>, start: int) -> Outcome<Value> {
    let end = find_crlf(s, start);
    if end < 0 {
        Outcome::Fail(DeError::Incomplete)
    } else if !valid_utf8(s.subrange(start, end)) {
        Outcome::Fail(DeError::InvalidUtf8)
    } else {
        Outcome::Done(Value::Str(decode_utf8(s.subrange(start, end))), end + 2)
    }
}

/// How many values an array of length field `n` holds.
pub open spec fn array_count(n: int) -> int {
    if n < 0 {
        0
    } else {
        n
    }
}

/// How many key/value pairs an aggregate of length field `n` holds: `n`
/// for a `%` map; half of `n` in the key/value variant, whose `*` counts
/// keys and values.
pub open spec fn pair_count(d: Dialect, n: int) -> int {
    if n < 0 {
        0
    } else if d is KeyValue {
        n / 2
    } else {
        n
    }
}

/// Reading one value at `pos`.
pub open spec fn decode_from(d: Dialect, s: Seq<u8>, pos: int) -> Outcome<Value>
    decreases s.len() - pos, 0int,
{
    if pos < 0 || pos >= s.len() {
        Outcome::Fail(DeError::Incomplete)
    } else {
        let tag = s[pos];
        if tag == COLON && d is Client {
            match read_len(d, s, pos + 1) {
                Outcome::Done(n, next) => Outcome::Done(Value::Integer(n), next),
                Outcome::Fail(e) => Outcome::Fail(e),
                Outcome::TooLong => Outcome::TooLong,
            }
        } else if tag == DOLLAR {
            match read_len(d, s, pos + 1) {
                Outcome::Done(n, next) => if n < 0 {
                    Outcome::Done(Value::Null, next)
                } else {
                    bulk_string(s, next, n)
                },
                Outcome::Fail(e) => Outcome::Fail(e),
                Outcome::TooLong => Outcome::TooLong,
            }
        } else if tag == PLUS && !(d is KeyValue) {
            simple_string(s, pos + 1)
        } else if tag == STAR && !(d is KeyValue) {
            match read_len(d, s, pos + 1) {
                Outcome::Done(n, next) => if pos < next <= s.len() {
                    decode_items(d, s, next, array_count(n), Seq::empty())
                } else {
                    Outcome::Fail(DeError::Incomplete)
                },
                Outcome::Fail(e) => Outcome::Fail(e),
                Outcome::TooLong => Outcome::TooLong,
            }
        } else if (tag == PERCENT && !(d is KeyValue)) || (tag == STAR && d is KeyValue) {
            match read_len(d, s, pos + 1) {
                Outcome::Done(n, next) => if pos < next <= s.len() {
                    decode_pairs(d, s, next, pair_count(d, n), Map::empty())
                } else {
                    Outcome::Fail(DeError::Incomplete)
                },
                Outcome::Fail(e) => Outcome::Fail(e),
                Outcome::TooLong => Outcome::TooLong,
            }
        } else {
            Outcome::Fail(DeError::UnknownTag(tag))
        }
    }
}

/// Reading `count` more values of an array at `pos`, after those in `acc`.
pub open spec fn decode_items(d: Dialect, s: Seq<u8>, pos: int, count: int, acc: Seq<Value>) -> Outcome<Value>
    decreases s.len() - pos, count + 1,
{
    if count <= 0 {
        Outcome::Done(Value::Array(acc), pos)
    } else {
        match decode_from(d, s, pos) {
            Outcome::Done(v, next) => if pos < next <= s.len() {
                decode_items(d, s, next, count - 1, acc.push(v))
            } else {
                Outcome::Fail(DeError::Incomplete)
            },
            Outcome::Fail(e) => Outcome::Fail(e),
            Outcome::TooLong => Outcome::TooLong,
        }
    }
}

/// Reading `count` more key/value pairs at `pos` into the map `acc`.
pub open spec fn decode_pairs(
    d: Dialect,
    s: Seq<u8>,
    pos: int,
    count: int,
    acc: Map<Seq<char>, Value>,
) -> Outcome<Value>
    decreases s.len() - pos, count + 1,
{
    if count <= 0 {
        Outcome::Done(Value::Mapping(acc), pos)
    } else {
        match decode_from(d, s, pos) {
            Outcome::Done(Value::Str(k), next) => if pos < next <= s.len() {
                match decode_from(d, s, next) {
                    Outcome::Done(v, after) => if next < after <= s.len() {
                        decode_pairs(d, s, after, count - 1, acc.insert(k, v))
                    } else {
                        Outcome::Fail(DeError::Incomplete)
                    },
                    Outcome::Fail(e) => Outcome::Fail(e),
                    Outcome::TooLong => Outcome::TooLong,
                }
            } else {
                Outcome::Fail(DeError::Incomplete)
            },
            Outcome::Done(_, _) => Outcome::Fail(DeError::KeyNotString),
            Outcome::Fail(e) => Outcome::Fail(e),
            Outcome::TooLong => Outcome::TooLong,
        }
    }
}

/// Reading the value at the front of `s`.
pub open spec fn spec_decode(d: Dialect, s: Seq<u8>) -> Outcome<Value> {
    decode_from(d, s, 0)
}

/// What a failed read of a length field makes of the value being read.
pub open spec fn failed<T>(o: Outcome<T>) -> Outcome<Value> {
    match o {
        Outcome::Fail(e) => Outcome::Fail(e),
        _ => Outcome::TooLong,
    }
}

/// Ten to the power `n`.
pub open spec fn pow10(n: nat) -> nat
    decreases n,
{
    if n == 0 {
        1
    } else {
        10 * pow10((n - 1) as nat)
    }
}

proof fn lemma_pow10_bound(n: nat)
    requires
        n <= 16,
    ensures
        pow10(n) <= 10_000_000_000_000_000,
    decreases 16 - n,
{
    reveal_with_fuel(pow10, 17);
    if n < 16 {
        lemma_pow10_bound((n + 1) as nat);
        assert(pow10(n) < pow10((n + 1) as nat));
    }
}

fn is_digit_byte(b: u8) -> (r: bool)
    ensures
        r == is_digit(b),
{
    ZERO <= b && b <= ZERO + 9
}

fn field_byte(d: Dialect, b: u8) -> (r: bool)
    ensures
        r == in_length_field(d, b),
{
    is_digit_byte(b) || (matches!(d, Dialect::Client) && b == MINUS)
}

/// The byte at `pos`, or `Incomplete` past the end of the input.
pub fn read_byte(input: &[u8], pos: usize) -> (r: Result<u8, DeError>)
    ensures
        pos < input@.len() ==> r == Ok::<u8, DeError>(input@[pos as int]),
        pos >= input@.len() ==> r == Err::<u8, DeError>(DeError::Incomplete),
{
    if pos < input.len() {
        Ok(input[pos])
    } else {
        Err(DeError::Incomplete)
    }
}

/// Whether the length field at `pos` holds at most [`MAX_LEN_DIGITS`] digits.
pub fn length_fits(input: &[u8], pos: usize, dialect: Dialect) -> (r: bool)
    requires
        pos <= input@.len(),
    ensures
        r == (len_scan(dialect, input@, pos as int).1.len() <= MAX_LEN_DIGITS),
{
    let ghost s = input@;
    let mut i = pos;
    let mut count: usize = 0;
    let ghost mut acc: Seq<u8> = Seq::empty();
    while i < input.len() && field_byte(dialect, input[i])
        invariant
            s == input@,
            pos <= i <= s.len(),
            count == acc.len(),
            count <= MAX_LEN_DIGITS,
            len_scan(dialect, s, pos as int).1 == acc + len_scan(dialect, s, i as int).1,
        decreases s.len() - i,
    {
        let b = input[i];
        let ghost r = len_scan(dialect, s, i + 1);
        if is_digit_byte(b) {
            assert(acc + len_scan(dialect, s, i as int).1 =~= acc.push(b) + r.1);
            if count == MAX_LEN_DIGITS {
                return false;
            }
            count += 1;
            proof {
                acc = acc.push(b);
            }
        }
        i += 1;
    }
    assert(acc + len_scan(dialect, s, i as int).1 =~= acc);
    true
}

/// The greatest length of the dialect's length type.
fn len_limit(d: Dialect) -> (r: u64)
    ensures
        r as int == len_max(d),
{
    match d {
        Dialect::Client => isize::MAX as u64,
        _ => usize::MAX as u64,
    }
}

/// Reads a length field and its `"\r\n"` at `pos`: the length and the
/// position after the field.
pub fn parse_len(input: &[u8], pos: usize, dialect: Dialect) -> (r: Result<(i64, usize), DeError>)
    requires
        pos <= input@.len(),
        len_scan(dialect, input@, pos as int).1.len() <= MAX_LEN_DIGITS,
    ensures
        match r {
            Ok((n, next)) => read_len(dialect, input@, pos as int) == Outcome::Done(n as int, next as int),
            Err(e) => read_len(dialect, input@, pos as int) == Outcome::<int>::Fail(e),
        },
        r matches Ok((_, next)) ==> pos + 2 <= next <= input@.len(),
{
    let ghost s = input@;
    let mut i = pos;
    let mut value: u64 = 0;
    let mut count: usize = 0;
    let mut negative = false;
    let ghost mut acc: Seq<u8> = Seq::empty();
    while i < input.len() && field_byte(dialect, input[i])
        invariant
            s == input@,
            pos <= i <= s.len(),
            count == acc.len(),
            count <= MAX_LEN_DIGITS,
            len_scan(dialect, s, pos as int).1.len() <= MAX_LEN_DIGITS,
            len_scan(dialect, s, pos as int) == (
                len_scan(dialect, s, i as int).0,
                acc + len_scan(dialect, s, i as int).1,
                negative || len_scan(dialect, s, i as int).2,
            ),
            value == digits_value(acc),
            value < pow10(count as nat),
        decreases s.len() - i,
    {
        let b = input[i];
        let ghost r = len_scan(dialect, s, i + 1);
        if is_digit_byte(b) {
            assert(acc + len_scan(dialect, s, i as int).1 =~= acc.push(b) + r.1);
            assert(count < MAX_LEN_DIGITS);
            proof {
                lemma_pow10_bound((count + 1) as nat);
                assert(acc.push(b).drop_last() =~= acc);
            }
            value = value * 10 + (b - ZERO) as u64;
            count += 1;
            proof {
                acc = acc.push(b);
            }
        } else {
            negative = true;
        }
        i += 1;
    }
    proof {
        lemma_pow10_bound(count as nat);
        assert(acc + len_scan(dialect, s, i as int).1 =~= acc);
    }
    if i >= input.len() {
        return Err(DeError::Incomplete);
    }
    if input[i] != CR {
        return Err(DeError::LengthNotCrlf);
    }
    if i + 1 >= input.len() {
        return Err(DeError::Incomplete);
    }
    if input[i + 1] != LF {
        return Err(DeError::LengthNotCrlf);
    }
    if count == 0 || value > len_limit(dialect) {
        return Err(DeError::InvalidLength);
    }
    let n: i64 = if negative {
        -(value as i64)
    } else {
        value as i64
    };
    Ok((n, i + 2))
}

/// The length field at `start`, or what its failure makes of the value.
fn read_header(input: &[u8], start: usize, dialect: Dialect) -> (r: Result<(i64, usize), Decoded>)
    requires
        start <= input@.len(),
    ensures
        match r {
            Ok((n, next)) => read_len(dialect, input@, start as int) == Outcome::Done(n as int, next as int)
                && start + 2 <= next <= input@.len(),
            Err(x) => !(read_len(dialect, input@, start as int) is Done)
                && x@ == failed(read_len(dialect, input@, start as int)),
        },
{
    if !length_fits(input, start, dialect) {
        return Err(Decoded::LengthTooLong);
    }
    match parse_len(input, start, dialect) {
        Ok((n, next)) => Ok((n, next)),
        Err(e) => Err(Decoded::Error(e)),
    }
}

/// Reads the `n` bytes of a length-prefixed string at `start`, then `"\r\n"`.
fn read_bulk(input: &[u8], start: usize, n: i64) -> (r: Decoded)
    requires
        start <= input@.len(),
        n >= 0,
    ensures
        r@ == bulk_string(input@, start as int, n as int),
        r matches Decoded::Value(v, next) ==> start < next <= input@.len() && well_formed(v),
{
    let avail = input.len() - start;
    if (n as u64) >= (avail as u64) {
        return Decoded::Error(DeError::Incomplete);
    }
    let end = start + (n as usize);
    if input[end] != CR {
        return Decoded::Error(DeError::StringNotCrlf);
    }
    if end + 1 >= input.len() {
        return Decoded::Error(DeError::Incomplete);
    }
    if input[end + 1] != LF {
        return Decoded::Error(DeError::StringNotCrlf);
    }
    match utf8_to_string(&input[start..end]) {
        Some(text) => Decoded::Value(RedisValue::Str(text), end + 2),
        None => Decoded::Error(DeError::InvalidUtf8),
    }
}

/// Reads a string that ends at the first `"\r\n"` at or after `start`.
fn read_simple(input: &[u8], start: usize) -> (r: Decoded)
    requires
        start <= input@.len(),
    ensures
        r@ == simple_string(input@, start as int),
        r matches Decoded::Value(v, next) ==> start < next <= input@.len() && well_formed(v),
{
    let mut j = start;
    while input.len() - j >= 2 && !(input[j] == CR && input[j + 1] == LF)
        invariant
            start <= j <= input@.len(),
            find_crlf(input@, start as int) == find_crlf(input@, j as int),
        decreases input@.len() - j,
    {
        j += 1;
    }
    if input.len() - j < 2 {
        return Decoded::Error(DeError::Incomplete);
    }
    match utf8_to_string(&input[start..j]) {
        Some(text) => Decoded::Value(RedisValue::Str(text), j + 2),
        None => Decoded::Error(DeError::InvalidUtf8),
    }
}

/// Reads one value at `pos`.
fn decode_at(input: &[u8], pos: usize, dialect: Dialect) -> (r: Decoded)
    requires
        pos <= input@.len(),
    ensures
        r@ == decode_from(dialect, input@, pos as int),
        r matches Decoded::Value(v, next) ==> pos < next <= input@.len() && well_formed(v),
    decreases input@.len() - pos,
{
    let ghost s = input@;
    let tag = match read_byte(input, pos) {
        Ok(b) => b,
        Err(e) => return Decoded::Error(e),
    };
    let len = input.len();
    assert(pos < len);
    let is_client = matches!(dialect, Dialect::Client);
    let is_key_value = matches!(dialect, Dialect::KeyValue);
    if tag == COLON && is_client {
        match read_header(input, pos + 1, dialect) {
            Ok((n, next)) => Decoded::Value(RedisValue::Integer(n), next),
            Err(x) => x,
        }
    } else if tag == DOLLAR {
        match read_header(input, pos + 1, dialect) {
            Ok((n, next)) => if n < 0 {
                Decoded::Value(RedisValue::Null, next)
            } else {
                read_bulk(input, next, n)
            },
            Err(x) => x,
        }
    } else if tag == PLUS && !is_key_value {
        read_simple(input, pos + 1)
    } else if tag == STAR && !is_key_value {
        let (n, next) = match read_header(input, pos + 1, dialect) {
            Ok(h) => h,
            Err(x) => return x,
        };
        let count: u64 = if n < 0 {
            0
        } else {
            n as u64
        };
        let mut items: Vec<RedisValue> = Vec::new();
        let mut p = next;
        let mut i: u64 = 0;
        while i < count
            invariant
                s == input@,
                pos < next <= p <= s.len(),
                i <= count,
                all_well_formed(items@),
                decode_from(dialect, s, pos as int) == decode_items(dialect, s, p as int, (count - i) as int, values_of(items@)),
            decreases count - i,
        {
            match decode_at(input, p, dialect) {
                Decoded::Value(v, q) => {
                    proof {
                        lemma_values_of_push(items@, v);
                    }
                    items.push(v);
                    p = q;
                    i += 1;
                },
                Decoded::Error(e) => return Decoded::Error(e),
                Decoded::LengthTooLong => return Decoded::LengthTooLong,
            }
        }
        Decoded::Value(RedisValue::Array(items), p)
    } else if (tag == PERCENT && !is_key_value) || (tag == STAR && is_key_value) {
        let (n, next) = match read_header(input, pos + 1, dialect) {
            Ok(h) => h,
            Err(x) => return x,
        };
        let count: u64 = if n < 0 {
            0
        } else if is_key_value {
            (n / 2) as u64
        } else {
            n as u64
        };
        let mut entries: Vec<(String, RedisValue)> = Vec::new();
        let mut p = next;
        let mut i: u64 = 0;
        while i < count
            invariant
                s == input@,
                pos < next <= p <= s.len(),
                i <= count,
                entries_distinct(entries@),
                entries_well_formed(entries@),
                decode_from(dialect, s, pos as int) == decode_pairs(dialect, s, p as int, (count - i) as int, entries_view(entries@)),
            decreases count - i,
        {
            match decode_at(input, p, dialect) {
                Decoded::Value(RedisValue::Str(key), q) => {
                    match decode_at(input, q, dialect) {
                        Decoded::Value(v, after) => {
                            insert_entry(&mut entries, key, v);
                            p = after;
                            i += 1;
                        },
                        Decoded::Error(e) => return Decoded::Error(e),
                        Decoded::LengthTooLong => return Decoded::LengthTooLong,
                    }
                },
                Decoded::Value(_, _) => return Decoded::Error(DeError::KeyNotString),
                Decoded::Error(e) => return Decoded::Error(e),
                Decoded::LengthTooLong => return Decoded::LengthTooLong,
            }
        }
        Decoded::Value(RedisValue::Mapping(entries), p)
    } else {
        Decoded::Error(DeError::UnknownTag(tag))
    }
}

/// Reads the value at the front of `input`: the value and the number of
/// bytes that it took, or why there is none.
pub fn decode(input: &[u8], dialect: Dialect) -> (r: Decoded)
    ensures
        r@ == spec_decode(dialect, input@),
        r matches Decoded::Value(v, n) ==> 0 < n <= input@.len() && well_formed(v),
{
    decode_at(input, 0, dialect)
}

/// Reads the value at the front of `input`, where no length field holds more
/// than [`MAX_LEN_DIGITS`] digits.
pub fn deserialize(input: &[u8], dialect: Dialect) -> (r: Result<(RedisValue, usize), DeError>)
    requires
        !(spec_decode(dialect, input@) is TooLong),
    ensures
        match r {
            Ok((v, n)) => spec_decode(dialect, input@) == Outcome::Done(value_of(v), n as int)
                && 0 < n <= input@.len() && well_formed(v),
            Err(e) => spec_decode(dialect, input@) == Outcome::<Value>::Fail(e),
        },
{
    match decode(input, dialect) {
        Decoded::Value(v, n) => Ok((v, n)),
        Decoded::Error(e) => Err(e),
        Decoded::LengthTooLong => Err(DeError::Incomplete),
    }
}

} // verus!
