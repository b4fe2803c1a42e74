//! The writer: the bytes of strings, null, arrays of strings and tables of
//! strings. Each function appends to `out`, the bytes to be sent.

use vstd::prelude::*;
use vstd::utf8::encode_utf8;
use crate::text::{ZERO, CR, LF, crlf, decimal, push_decimal, push_bytes};
use crate::de::{Dialect, DOLLAR, PLUS, STAR, PERCENT, MINUS};
use crate::store::Table;

verus! {

/// A length-prefixed string: `$`, the byte length, `"\r\n"`, the bytes, `"\r\n"`.
pub open spec fn bulk_bytes(c: Seq<char>) -> Seq<u8> {
    seq![DOLLAR] + decimal(encode_utf8(c).len()) + crlf() + encode_utf8(c) + crlf()
}

/// A line-terminated string: `+`, the bytes, `"\r\n"`.
pub open spec fn simple_bytes(c: Seq<char>) -> Seq<u8> {
    seq![PLUS] + encode_utf8(c) + crlf()
}

/// The null string, `"$-1\r\n"`.
pub open spec fn null_bytes() -> Seq<u8> {
    seq![DOLLAR, MINUS, (ZERO + 1) as u8, CR, LF]
}

/// The line-terminated strings of `items`, one after the other.
pub open spec fn simple_all(items: Seq<Seq<char>>) -> Seq<u8>
    decreases items.len(),
{
    if items.len() == 0 {
        Seq::empty()
    } else {
        simple_all(items.drop_last()) + simple_bytes(items.last())
    }
}

/// An array of line-terminated strings: `*`, the count, `"\r\n"`, the strings.
pub open spec fn array_bytes(items: Seq<Seq<char>>) -> Seq<u8> {
    seq![STAR] + decimal(items.len()) + crlf() + simple_all(items)
}

/// The tag that opens a table in the given variant of the protocol: `*` in
/// the key/value variant, `%` in the others.
pub open spec fn table_tag(d: Dialect) -> u8 {
    if d is KeyValue {
        STAR
    } else {
        PERCENT
    }
}

/// Each key of `keys` with its value in `m`, as two line-terminated strings.
pub open spec fn pairs_bytes(keys: Seq<Seq<char>>, m: Map<Seq<char>, Seq<char>>) -> Seq<u8>
    decreases keys.len(),
{
    if keys.len() == 0 {
        Seq::empty()
    } else {
        pairs_bytes(keys.drop_last(), m) + simple_bytes(keys.last()) + simple_bytes(m[keys.last()])
    }
}

/// A table: its tag, the number of keys, `"\r\n"`, then each key and its
/// value in the order `keys`.
pub open spec fn table_bytes(d: Dialect, keys: Seq<Seq<char>>, m: Map<Seq<char>, Seq<char>>) -> Seq<u8> {
    seq![table_tag(d)] + decimal(keys.len()) + crlf() + pairs_bytes(keys, m)
}

fn push_crlf(out: &mut Vec<u8>)
    ensures
        final(out)@ == old(out)@ + crlf(),
{
    out.push(CR);
    out.push(LF);
    assert(final(out)@ =~= old(out)@ + crlf());
}

/// Appends `s` as a length-prefixed string.
pub fn serialize_bulk_str(out: &mut Vec<u8>, s: &str)
    ensures
        final(out)@ == old(out)@ + bulk_bytes(s@),
{
    let bytes = s.as_bytes();
    out.push(DOLLAR);
    push_decimal(out, bytes.len() as u64);
    push_crlf(out);
    push_bytes(out, bytes);
    push_crlf(out);
    assert(final(out)@ =~= old(out)@ + bulk_bytes(s@));
}

/// Appends `s` as a line-terminated string.
pub fn serialize_str(out: &mut Vec<u8>, s: &str)
    ensures
        final(out)@ == old(out)@ + simple_bytes(s@),
{
    out.push(PLUS);
    push_bytes(out, s.as_bytes());
    push_crlf(out);
    assert(final(out)@ =~= old(out)@ + simple_bytes(s@));
}

/// Appends the null string.
pub fn serialize_null(out: &mut Vec<u8>)
    ensures
        final(out)@ == old(out)@ + null_bytes(),
{
    out.push(DOLLAR);
    out.push(MINUS);
    out.push(ZERO + 1);
    push_crlf(out);
    assert(final(out)@ =~= old(out)@ + null_bytes());
}

/// Appends `items` as an array of line-terminated strings.
pub fn serialize_array(out: &mut Vec<u8>, items: &[String])
    ensures
        final(out)@ == old(out)@ + array_bytes(items@.map_values(|t: String| t@)),
{
    let ghost views = items@.map_values(|t: String| t@);
    out.push(STAR);
    push_decimal(out, items.len() as u64);
    push_crlf(out);
    let ghost head = out@;
    let mut i: usize = 0;
    while i < items.len()
        invariant
            i <= items@.len(),
            views == items@.map_values(|t: String| t@),
            out@ == head + simple_all(views.take(i as int)),
        decreases items@.len() - i,
    {
        serialize_str(out, items[i].as_str());
        i += 1;
        assert(views.take(i as int).drop_last() =~= views.take(i - 1));
    }
    assert(views.take(i as int) =~= views);
    assert(final(out)@ =~= old(out)@ + array_bytes(views));
}

/// Appends the table `map` with its keys in the order [`Table::keys`].
pub fn serialize_map(out: &mut Vec<u8>, map: &Table<String>, dialect: Dialect)
    requires
        map.wf(),
    ensures
        final(out)@ == old(out)@ + table_bytes(dialect, map.keys(), map@),
{
    let n = map.len();
    let tag = match dialect {
        Dialect::KeyValue => STAR,
        _ => PERCENT,
    };
    out.push(tag);
    push_decimal(out, n as u64);
    push_crlf(out);
    let ghost head = out@;
    proof {
        map.lemma_keys();
    }
    let mut i: usize = 0;
    while i < n
        invariant
            n == map.keys().len(),
            i <= n,
            map.wf(),
            forall|k: Seq<char>| #[trigger] map@.dom().contains(k) <==> map.keys().contains(k),
            out@ == head + pairs_bytes(map.keys().take(i as int), map@),
        decreases n - i,
    {
        let key = map.key_at(i);
        assert(map.keys().contains(key@));
        let value = map.get(key).unwrap();
        serialize_str(out, key.as_str());
        serialize_str(out, value.as_str());
        i += 1;
        assert(map.keys().take(i as int).drop_last() =~= map.keys().take(i - 1));
    }
    assert(map.keys().take(n as int) =~= map.keys());
    assert(final(out)@ =~= old(out)@ + table_bytes(dialect, map.keys(), map@));
}

} // verus!
