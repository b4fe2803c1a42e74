//! Laws of the protocol: what the reader gives back of what the writer wrote.

use vstd::prelude::*;
use vstd::utf8::{encode_utf8, encode_utf8_valid_utf8, encode_utf8_decode_utf8, is_ascii_chars, is_ascii_chars_encode_utf8};
use crate::text::{ZERO, CR, LF, crlf, decimal, lemma_decimal_digits};
use crate::value::Value;
use crate::de::{
    Dialect, Outcome, DeError, decode_from, read_len, len_scan, len_max, digits_value, is_digit,
    in_length_field, pow10, bulk_string, DOLLAR, MAX_LEN_DIGITS,
};
use crate::de::{COLON, PERCENT, spec_decode, decode_items, decode_pairs, find_crlf, simple_string, PLUS, STAR, MINUS};
use crate::ser::{bulk_bytes, simple_bytes, null_bytes, simple_all, array_bytes, table_bytes, pairs_bytes};
use crate::server::{
    State, Reaction, step, str_arg, with_subscriber, subscribe_reply, get_reply, names,
    ascii_lower, word_get, word_set, word_subscribe, word_publish, subscribers_of, integer_reply,
    step_key_value, message_frame, message_frames,
};

verus! {

/// The length field of a numeral followed by a byte outside length fields.
proof fn lemma_len_scan_digits(d: Dialect, s: Seq<u8>, i: int, ds: Seq<u8>)
    requires
        0 <= i,
        i + ds.len() < s.len(),
        s.subrange(i, i + ds.len()) == ds,
        forall|k: int| 0 <= k < ds.len() ==> #[trigger] is_digit(ds[k]),
        !in_length_field(d, s[i + ds.len()]),
    ensures
        len_scan(d, s, i) == (i + ds.len(), ds, false),
    decreases ds.len(),
{
    if ds.len() != 0 {
        assert(s.subrange(i, i + ds.len())[0] == s[i]);
        let rest = ds.drop_first();
        assert(s.subrange(i + 1, i + 1 + rest.len()) =~= rest) by {
            assert forall|k: int| 0 <= k < rest.len() implies s.subrange(i + 1, i + 1 + rest.len())[k] == rest[k] by {
                assert(s.subrange(i, i + ds.len())[k + 1] == s[i + 1 + k]);
            }
        }
        assert forall|k: int| 0 <= k < rest.len() implies #[trigger] is_digit(rest[k]) by {
            assert(is_digit(ds[k + 1]));
        }
        lemma_len_scan_digits(d, s, i + 1, rest);
        assert(seq![s[i]] + rest =~= ds);
    }
}

/// A numeral denotes its number.
proof fn lemma_decimal_value(n: nat)
    ensures
        digits_value(decimal(n)) == n,
    decreases n,
{
    let ds = decimal(n);
    if n >= 10 {
        lemma_decimal_value(n / 10);
        assert(ds.drop_last() =~= decimal(n / 10));
        assert(ds.last() == (ZERO + n % 10) as u8);
        assert((ds.last() - ZERO) as nat == n % 10);
        assert(digits_value(ds) == (n / 10) * 10 + n % 10);
    } else {
        assert(ds.drop_last() =~= Seq::<u8>::empty());
        assert(ds.last() == (ZERO + n) as u8);
        assert(digits_value(ds) == digits_value(ds.drop_last()) * 10 + (ds.last() - ZERO) as nat);
    }
}

/// A number below ten to the power `k` has at most `k` digits.
proof fn lemma_decimal_len(n: nat, k: nat)
    requires
        k >= 1,
        n < pow10(k),
    ensures
        decimal(n).len() <= k,
    decreases n,
{
    if n >= 10 {
        assert(k >= 2) by {
            if k == 1 {
                reveal_with_fuel(pow10, 2);
            }
        }
        assert(pow10(k) == 10 * pow10((k - 1) as nat));
        lemma_decimal_len(n / 10, (k - 1) as nat);
    }
}

/// Reading the length field of a numeral: its number.
proof fn lemma_read_len_numeral(d: Dialect, s: Seq<u8>, i: int, n: nat)
    requires
        0 <= i,
        i + decimal(n).len() + 2 <= s.len(),
        s.subrange(i, i + decimal(n).len() + 2) == decimal(n) + crlf(),
        n < pow10(MAX_LEN_DIGITS as nat),
        n <= len_max(d),
    ensures
        read_len(d, s, i) == Outcome::Done(n as int, i + decimal(n).len() + 2),
{
    let ds = decimal(n);
    lemma_decimal_digits(n);
    lemma_decimal_value(n);
    lemma_decimal_len(n, MAX_LEN_DIGITS as nat);
    let w = s.subrange(i, i + ds.len() + 2);
    assert(s.subrange(i, i + ds.len()) =~= ds) by {
        assert forall|k: int| 0 <= k < ds.len() implies s.subrange(i, i + ds.len())[k] == ds[k] by {
            assert(w[k] == s[i + k]);
            assert(w[k] == (ds + crlf())[k]);
        }
    }
    assert(s[i + ds.len()] == CR) by {
        assert(w[ds.len() as int] == s[i + ds.len()]);
        assert((ds + crlf())[ds.len() as int] == CR);
    }
    assert(s[i + ds.len() + 1] == LF) by {
        assert(w[ds.len() + 1int] == s[i + ds.len() + 1]);
        assert((ds + crlf())[ds.len() + 1int] == LF);
    }
    assert forall|k: int| 0 <= k < ds.len() implies #[trigger] is_digit(ds[k]) by {}
    lemma_len_scan_digits(d, s, i, ds);
}

/// A length-prefixed string written at `p` is read back at `p`.
pub proof fn lemma_bulk_at(d: Dialect, s: Seq<u8>, p: int, c: Seq<char>)
    requires
        0 <= p,
        p + bulk_bytes(c).len() <= s.len(),
        s.subrange(p, p + bulk_bytes(c).len()) == bulk_bytes(c),
        encode_utf8(c).len() < pow10(MAX_LEN_DIGITS as nat),
        encode_utf8(c).len() <= len_max(d),
    ensures
        decode_from(d, s, p) == Outcome::Done(Value::Str(c), p + bulk_bytes(c).len()),
{
    let e = encode_utf8(c);
    let n = e.len();
    let ds = decimal(n);
    let b = bulk_bytes(c);
    let w = s.subrange(p, p + b.len());
    assert(b =~= seq![DOLLAR] + (ds + crlf()) + e + crlf());
    let start = p + 1 + ds.len() + 2;
    assert(s[p] == DOLLAR) by {
        assert(w[0] == s[p]);
    }
    assert(s.subrange(p + 1, p + 1 + ds.len() + 2) =~= ds + crlf()) by {
        assert forall|k: int| 0 <= k < ds.len() + 2 implies s.subrange(p + 1, p + 1 + ds.len() + 2)[k] == (ds + crlf())[k] by {
            assert(w[1 + k] == s[p + 1 + k]);
            assert(b[1 + k] == (ds + crlf())[k]);
        }
    }
    lemma_read_len_numeral(d, s, p + 1, n);
    assert(s.subrange(start, start + n) =~= e) by {
        assert forall|k: int| 0 <= k < n implies s.subrange(start, start + n)[k] == e[k] by {
            assert(w[start - p + k] == s[start + k]);
            assert(b[start - p + k] == e[k]);
        }
    }
    assert(s[start + n] == CR) by {
        assert(w[start - p + n] == s[start + n]);
        assert(b[start - p + n] == CR);
    }
    assert(s[start + n + 1] == LF) by {
        assert(w[start - p + n + 1] == s[start + n + 1]);
        assert(b[start - p + n + 1] == LF);
    }
    encode_utf8_valid_utf8(c);
    encode_utf8_decode_utf8(c);
    assert(bulk_string(s, start, n as int) == Outcome::Done(Value::Str(c), start + n + 2));
}

/// The bytes hold no `"\r\n"`.
pub open spec fn no_crlf(b: Seq<u8>) -> bool {
    forall|i: int| 0 <= i < b.len() - 1 ==> !(#[trigger] b[i] == CR && b[i + 1] == LF)
}

/// The values that a sequence of strings is read back as.
pub open spec fn str_values(items: Seq<Seq<char>>) -> Seq<Value> {
    items.map_values(|c: Seq<char>| Value::Str(c))
}

proof fn lemma_find_crlf_skip(s: Seq<u8>, i: int, j: int)
    requires
        0 <= i <= j,
        forall|k: int| i <= k < j && k + 1 < s.len() ==> !(#[trigger] s[k] == CR && s[k + 1] == LF),
    ensures
        find_crlf(s, i) == find_crlf(s, j),
    decreases j - i,
{
    if i < j && i + 1 < s.len() {
        lemma_find_crlf_skip(s, i + 1, j);
    }
}

/// A line-terminated string written at `p` is read back at `p`.
pub proof fn lemma_simple_at(d: Dialect, s: Seq<u8>, p: int, c: Seq<char>)
    requires
        !(d is KeyValue),
        0 <= p,
        p + simple_bytes(c).len() <= s.len(),
        s.subrange(p, p + simple_bytes(c).len()) == simple_bytes(c),
        no_crlf(encode_utf8(c)),
    ensures
        decode_from(d, s, p) == Outcome::Done(Value::Str(c), p + simple_bytes(c).len()),
{
    let e = encode_utf8(c);
    let x = simple_bytes(c);
    let w = s.subrange(p, p + x.len());
    let j = p + 1 + e.len();
    assert(s[p] == PLUS) by {
        assert(w[0] == s[p]);
    }
    assert forall|k: int| 0 <= k < x.len() implies #[trigger] s[p + k] == x[k] by {
        assert(w[k] == s[p + k]);
    }
    assert forall|k: int| p + 1 <= k < j && k + 1 < s.len() implies !(#[trigger] s[k] == CR && s[k + 1] == LF) by {
        assert(s[p + (k - p)] == x[k - p]);
        assert(s[p + (k + 1 - p)] == x[k + 1 - p]);
        if k + 1 < j {
            assert(x[k - p] == e[k - p - 1]);
            assert(x[k + 1 - p] == e[k - p]);
        } else {
            assert(x[k + 1 - p] == CR);
        }
    }
    lemma_find_crlf_skip(s, p + 1, j);
    assert(s[p + (j - p)] == x[j - p]);
    assert(s[p + (j + 1 - p)] == x[j + 1 - p]);
    assert(find_crlf(s, j) == j);
    assert(s.subrange(p + 1, j) =~= e) by {
        assert forall|k: int| 0 <= k < e.len() implies s.subrange(p + 1, j)[k] == e[k] by {
            assert(s[p + (1 + k)] == x[1 + k]);
        }
    }
    encode_utf8_valid_utf8(c);
    encode_utf8_decode_utf8(c);
    assert(simple_string(s, p + 1) == Outcome::Done(Value::Str(c), j + 2));
}

proof fn lemma_simple_all_front(c: Seq<char>, r: Seq<Seq<char>>)
    ensures
        simple_all(seq![c] + r) == simple_bytes(c) + simple_all(r),
    decreases r.len(),
{
    if r.len() == 0 {
        assert(seq![c] + r =~= seq![c]);
        assert(seq![c].drop_last() =~= Seq::<Seq<char>>::empty());
        assert(simple_all(Seq::<Seq<char>>::empty()) == Seq::<u8>::empty());
        assert(seq![c].last() == c);
        assert(simple_all(seq![c]) =~= simple_bytes(c));
    } else {
        lemma_simple_all_front(c, r.drop_last());
        assert((seq![c] + r).drop_last() =~= seq![c] + r.drop_last());
        assert(simple_all(seq![c] + r) =~= simple_bytes(c) + simple_all(r));
    }
}

/// Line-terminated strings written one after the other at `q` are read back
/// as the remaining values of an array.
proof fn lemma_items_at(d: Dialect, s: Seq<u8>, q: int, items: Seq<Seq<char>>, acc: Seq<Value>)
    requires
        !(d is KeyValue),
        0 <= q,
        q + simple_all(items).len() <= s.len(),
        s.subrange(q, q + simple_all(items).len()) == simple_all(items),
        forall|i: int| 0 <= i < items.len() ==> no_crlf(#[trigger] encode_utf8(items[i])),
    ensures
        decode_items(d, s, q, items.len() as int, acc) == Outcome::Done(
            Value::Array(acc + str_values(items)),
            q + simple_all(items).len(),
        ),
    decreases items.len(),
{
    if items.len() == 0 {
        assert(acc + str_values(items) =~= acc);
    } else {
        let c = items[0];
        let rest = items.drop_first();
        assert(seq![c] + rest =~= items);
        lemma_simple_all_front(c, rest);
        let sb = simple_bytes(c);
        let all = simple_all(items);
        let w = s.subrange(q, q + all.len());
        assert(s.subrange(q, q + sb.len()) =~= sb) by {
            assert forall|k: int| 0 <= k < sb.len() implies s.subrange(q, q + sb.len())[k] == sb[k] by {
                assert(w[k] == s[q + k]);
                assert(all[k] == sb[k]);
            }
        }
        assert(no_crlf(encode_utf8(items[0])));
        lemma_simple_at(d, s, q, c);
        let q2 = q + sb.len();
        let ra = simple_all(rest);
        assert(s.subrange(q2, q2 + ra.len()) =~= ra) by {
            assert forall|k: int| 0 <= k < ra.len() implies s.subrange(q2, q2 + ra.len())[k] == ra[k] by {
                assert(w[sb.len() + k] == s[q2 + k]);
                assert(all[sb.len() + k] == ra[k]);
            }
        }
        assert forall|i: int| 0 <= i < rest.len() implies no_crlf(#[trigger] encode_utf8(rest[i])) by {
            assert(rest[i] == items[i + 1]);
        }
        lemma_items_at(d, s, q2, rest, acc.push(Value::Str(c)));
        assert(acc.push(Value::Str(c)) + str_values(rest) =~= acc + str_values(items));
    }
}

/// Law: a length-prefixed string is read back as the string it holds, in
/// every variant of the protocol, whatever bytes follow it; it takes all of
/// its bytes. (Its byte length must fit a length field of at most sixteen
/// digits, and is at most `isize::MAX`, as every string's is.)
pub proof fn law_bulk_string_roundtrip(d: Dialect, c: Seq<char>, rest: Seq<u8>)
    requires
        encode_utf8(c).len() < pow10(MAX_LEN_DIGITS as nat),
        encode_utf8(c).len() <= isize::MAX,
    ensures
        spec_decode(d, bulk_bytes(c) + rest) == Outcome::Done(Value::Str(c), bulk_bytes(c).len() as int),
{
    let s = bulk_bytes(c) + rest;
    assert(s.subrange(0, bulk_bytes(c).len() as int) =~= bulk_bytes(c));
    assert(isize::MAX <= len_max(d));
    lemma_bulk_at(d, s, 0, c);
}

/// Law: a line-terminated string that holds no `"\r\n"` is read back as that
/// string by the variants that know the tag `+`, whatever bytes follow it.
pub proof fn law_simple_string_roundtrip(d: Dialect, c: Seq<char>, rest: Seq<u8>)
    requires
        !(d is KeyValue),
        no_crlf(encode_utf8(c)),
    ensures
        spec_decode(d, simple_bytes(c) + rest) == Outcome::Done(Value::Str(c), simple_bytes(c).len() as int),
{
    let s = simple_bytes(c) + rest;
    assert(s.subrange(0, simple_bytes(c).len() as int) =~= simple_bytes(c));
    lemma_simple_at(d, s, 0, c);
}

/// Law: the null string is read back as null by the client's reader.
pub proof fn law_null_roundtrip(rest: Seq<u8>)
    ensures
        spec_decode(Dialect::Client, null_bytes() + rest) == Outcome::Done(Value::Null, 5),
{
    let s = null_bytes() + rest;
    assert(s[0] == DOLLAR && s[1] == MINUS && s[2] == ZERO + 1 && s[3] == CR && s[4] == LF);
    reveal_with_fuel(len_scan, 3);
    assert(len_scan(Dialect::Client, s, 1) == (3int, seq![(ZERO + 1) as u8], true));
    assert(seq![(ZERO + 1) as u8].drop_last() =~= Seq::<u8>::empty());
    assert(digits_value(Seq::<u8>::empty()) == 0);
    assert(seq![(ZERO + 1) as u8].last() == ZERO + 1);
    assert(digits_value(seq![(ZERO + 1) as u8]) == 1);
    assert(read_len(Dialect::Client, s, 1) == Outcome::Done(-1int, 5));
}

/// Law: an array of line-terminated strings that hold no `"\r\n"` is read
/// back as the array of those strings by the variants that know the tag `*`
/// as an array, whatever bytes follow it. (Its count must fit a length
/// field of at most sixteen digits, and is at most `isize::MAX`, as every
/// slice's is.)
pub proof fn law_array_roundtrip(d: Dialect, items: Seq<Seq<char>>, rest: Seq<u8>)
    requires
        !(d is KeyValue),
        items.len() < pow10(MAX_LEN_DIGITS as nat),
        items.len() <= isize::MAX,
        forall|i: int| 0 <= i < items.len() ==> no_crlf(#[trigger] encode_utf8(items[i])),
    ensures
        spec_decode(d, array_bytes(items) + rest) == Outcome::Done(
            Value::Array(str_values(items)),
            array_bytes(items).len() as int,
        ),
{
    let x = array_bytes(items);
    let s = x + rest;
    let n = items.len();
    let ds = decimal(n);
    let all = simple_all(items);
    assert(s[0] == STAR);
    assert(s.subrange(1, 1 + ds.len() + 2int) =~= ds + crlf()) by {
        assert forall|k: int| 0 <= k < ds.len() + 2 implies s.subrange(1, 1 + ds.len() + 2int)[k] == (ds + crlf())[k] by {
            assert(s[1 + k] == x[1 + k]);
        }
    }
    assert(isize::MAX <= len_max(d));
    lemma_read_len_numeral(d, s, 1, n);
    let q: int = 1 + ds.len() + 2int;
    assert(s.subrange(q, q + all.len()) =~= all) by {
        assert forall|k: int| 0 <= k < all.len() implies s.subrange(q, q + all.len())[k] == all[k] by {
            assert(s[q + k] == x[q + k]);
        }
    }
    lemma_items_at(d, s, q, items, Seq::empty());
    assert(Seq::<Value>::empty() + str_values(items) =~= str_values(items));
}

proof fn lemma_len_scan_bounds(d: Dialect, s: Seq<u8>, i: int)
    requires
        0 <= i <= s.len(),
    ensures
        i <= len_scan(d, s, i).0 <= s.len(),
    decreases s.len() - i,
{
    if i < s.len() && in_length_field(d, s[i]) {
        lemma_len_scan_bounds(d, s, i + 1);
    }
}

/// Bytes past the end of a length field do not change it; bytes past the end
/// of the input only lengthen a field that reaches that end.
proof fn lemma_len_scan_extend(d: Dialect, s: Seq<u8>, t: Seq<u8>, i: int)
    requires
        0 <= i <= s.len(),
    ensures
        len_scan(d, s, i).0 < s.len() ==> len_scan(d, s + t, i) == len_scan(d, s, i),
        len_scan(d, s + t, i).1.len() >= len_scan(d, s, i).1.len(),
    decreases s.len() - i,
{
    let u = s + t;
    if i < s.len() {
        assert(u[i] == s[i]);
        if in_length_field(d, s[i]) {
            lemma_len_scan_extend(d, s, t, i + 1);
        }
    }
}

proof fn lemma_read_len_extend(d: Dialect, s: Seq<u8>, t: Seq<u8>, i: int)
    requires
        0 <= i <= s.len(),
        read_len(d, s, i) != Outcome::<int>::Fail(DeError::Incomplete),
    ensures
        read_len(d, s + t, i) == read_len(d, s, i),
{
    let u = s + t;
    lemma_len_scan_extend(d, s, t, i);
    lemma_len_scan_bounds(d, s, i);
    let (end, digits, negative) = len_scan(d, s, i);
    if digits.len() <= MAX_LEN_DIGITS {
        assert(end < s.len());
        assert(u[end] == s[end]);
        if s[end] == CR {
            assert(end + 1 < s.len());
            assert(u[end + 1] == s[end + 1]);
        }
    }
}

proof fn lemma_bulk_extend(s: Seq<u8>, t: Seq<u8>, start: int, n: int)
    requires
        0 <= start <= s.len(),
        n >= 0,
        bulk_string(s, start, n) != Outcome::<Value>::Fail(DeError::Incomplete),
    ensures
        bulk_string(s + t, start, n) == bulk_string(s, start, n),
{
    let u = s + t;
    let end = start + n;
    assert(end < s.len());
    assert(u[end] == s[end]);
    if s[end] == CR {
        assert(end + 1 < s.len());
        assert(u[end + 1] == s[end + 1]);
        assert(u.subrange(start, end) =~= s.subrange(start, end));
    }
}

proof fn lemma_find_crlf_extend(s: Seq<u8>, t: Seq<u8>, i: int)
    requires
        0 <= i,
        find_crlf(s, i) >= 0,
    ensures
        find_crlf(s + t, i) == find_crlf(s, i),
        i <= find_crlf(s, i) < s.len() - 1,
    decreases s.len() - i,
{
    let u = s + t;
    assert(u[i] == s[i]);
    assert(u[i + 1] == s[i + 1]);
    if !(s[i] == CR && s[i + 1] == LF) {
        lemma_find_crlf_extend(s, t, i + 1);
    }
}

proof fn lemma_simple_extend(s: Seq<u8>, t: Seq<u8>, start: int)
    requires
        0 <= start <= s.len(),
        simple_string(s, start) != Outcome::<Value>::Fail(DeError::Incomplete),
    ensures
        simple_string(s + t, start) == simple_string(s, start),
{
    lemma_find_crlf_extend(s, t, start);
    let end = find_crlf(s, start);
    assert((s + t).subrange(start, end) =~= s.subrange(start, end));
}

/// A read that did not run out of input gives the same when more bytes follow.
proof fn lemma_decode_extend(d: Dialect, s: Seq<u8>, t: Seq<u8>, pos: int)
    requires
        0 <= pos <= s.len(),
        decode_from(d, s, pos) != Outcome::<Value>::Fail(DeError::Incomplete),
    ensures
        decode_from(d, s + t, pos) == decode_from(d, s, pos),
    decreases s.len() - pos, 0int,
{
    let u = s + t;
    assert(pos < s.len());
    assert(u[pos] == s[pos]);
    let tag = s[pos];
    if tag == COLON && d is Client {
        lemma_read_len_extend(d, s, t, pos + 1);
    } else if tag == DOLLAR {
        lemma_read_len_extend(d, s, t, pos + 1);
        if let Outcome::Done(n, next) = read_len(d, s, pos + 1) {
            lemma_len_scan_bounds(d, s, pos + 1);
            if n >= 0 {
                lemma_bulk_extend(s, t, next, n);
            }
        }
    } else if tag == PLUS && !(d is KeyValue) {
        lemma_simple_extend(s, t, pos + 1);
    } else if tag == STAR && !(d is KeyValue) {
        lemma_read_len_extend(d, s, t, pos + 1);
        if let Outcome::Done(n, next) = read_len(d, s, pos + 1) {
            if pos < next <= s.len() {
                lemma_items_extend(d, s, t, next, crate::de::array_count(n), Seq::empty());
            }
        }
    } else if (tag == PERCENT && !(d is KeyValue)) || (tag == STAR && d is KeyValue) {
        lemma_read_len_extend(d, s, t, pos + 1);
        if let Outcome::Done(n, next) = read_len(d, s, pos + 1) {
            if pos < next <= s.len() {
                lemma_pairs_extend(d, s, t, next, crate::de::pair_count(d, n), Map::empty());
            }
        }
    }
}

proof fn lemma_items_extend(d: Dialect, s: Seq<u8>, t: Seq<u8>, pos: int, count: int, acc: Seq<Value>)
    requires
        0 <= pos <= s.len(),
        decode_items(d, s, pos, count, acc) != Outcome::<Value>::Fail(DeError::Incomplete),
    ensures
        decode_items(d, s + t, pos, count, acc) == decode_items(d, s, pos, count, acc),
    decreases s.len() - pos, count + 1,
{
    if count > 0 {
        let r = decode_from(d, s, pos);
        if r != Outcome::<Value>::Fail(DeError::Incomplete) {
            lemma_decode_extend(d, s, t, pos);
            if let Outcome::Done(v, next) = r {
                if pos < next <= s.len() {
                    lemma_items_extend(d, s, t, next, count - 1, acc.push(v));
                }
            }
        }
    }
}

proof fn lemma_pairs_extend(
    d: Dialect,
    s: Seq<u8>,
    t: Seq<u8>,
    pos: int,
    count: int,
    acc: Map<Seq<char>, Value>,
)
    requires
        0 <= pos <= s.len(),
        decode_pairs(d, s, pos, count, acc) != Outcome::<Value>::Fail(DeError::Incomplete),
    ensures
        decode_pairs(d, s + t, pos, count, acc) == decode_pairs(d, s, pos, count, acc),
    decreases s.len() - pos, count + 1,
{
    if count > 0 {
        let r = decode_from(d, s, pos);
        if r != Outcome::<Value>::Fail(DeError::Incomplete) {
            lemma_decode_extend(d, s, t, pos);
            if let Outcome::Done(Value::Str(k), next) = r {
                if pos < next <= s.len() {
                    let r2 = decode_from(d, s, next);
                    if r2 != Outcome::<Value>::Fail(DeError::Incomplete) {
                        lemma_decode_extend(d, s, t, next);
                        if let Outcome::Done(v, after) = r2 {
                            if next < after <= s.len() {
                                lemma_pairs_extend(d, s, t, after, count - 1, acc.insert(k, v));
                            }
                        }
                    }
                }
            }
        }
    }
}

/// Law: bytes that arrive after a value do not change what is read: a read
/// that did not run out of input gives the same value, or the same error,
/// and takes the same bytes, whatever follows.
pub proof fn law_decided_prefix(d: Dialect, s: Seq<u8>, t: Seq<u8>)
    requires
        spec_decode(d, s) != Outcome::<Value>::Fail(DeError::Incomplete),
    ensures
        spec_decode(d, s + t) == spec_decode(d, s),
{
    lemma_decode_extend(d, s, t, 0);
}

/// A request made of strings.
pub open spec fn command(words: Seq<Seq<char>>) -> Value {
    Value::Array(str_values(words))
}

/// The request names the command `name`, in any case.
pub open spec fn names_command(request: Value, name: Seq<u8>) -> bool {
    request is Array && str_arg(request->Array_0, 0) is Some
        && names(str_arg(request->Array_0, 0)->Some_0, name)
}

/// The request is a `SET` of `key`.
pub open spec fn sets_key(request: Value, key: Seq<char>) -> bool {
    names_command(request, word_set()) && str_arg(request->Array_0, 1) == Some(key)
}

/// The server after the requests, each from the connection paired with it,
/// in order.
pub open spec fn run(st: State, requests: Seq<(Value, u64)>) -> State
    decreases requests.len(),
{
    if requests.len() == 0 {
        st
    } else {
        step(run(st, requests.drop_last()), requests.last().0, requests.last().1).0
    }
}

/// A command word names at most one of the commands.
proof fn lemma_names_exclusive(w: Seq<char>)
    ensures
        names(w, word_get()) ==> !names(w, word_set()) && !names(w, word_subscribe()) && !names(w, word_publish()),
        names(w, word_set()) ==> !names(w, word_subscribe()) && !names(w, word_publish()),
        names(w, word_subscribe()) ==> !names(w, word_publish()),
{
    let e = encode_utf8(w);
    if names(w, word_get()) && names(w, word_set()) {
        assert(ascii_lower(e[0]) == ascii_lower(word_get()[0]));
        assert(ascii_lower(e[0]) == ascii_lower(word_set()[0]));
    }
}

/// The words of a request of strings, one by one.
proof fn lemma_command_args(words: Seq<Seq<char>>)
    ensures
        forall|i: int| 0 <= i < words.len() ==> #[trigger] str_arg(str_values(words), i) == Some(words[i]),
        forall|i: int| !(0 <= i < words.len()) ==> #[trigger] str_arg(str_values(words), i) is None,
{
}

/// A request that is not a `SET` of `key` keeps the value of `key`.
proof fn lemma_step_keeps_key(st: State, request: Value, id: u64, key: Seq<char>)
    requires
        !sets_key(request, key),
    ensures
        step(st, request, id).0.data.dom().contains(key) == st.data.dom().contains(key),
        st.data.dom().contains(key) ==> step(st, request, id).0.data[key] == st.data[key],
{
}

proof fn lemma_run_keeps_key(st: State, requests: Seq<(Value, u64)>, key: Seq<char>)
    requires
        forall|i: int| 0 <= i < requests.len() ==> !sets_key(#[trigger] requests[i].0, key),
    ensures
        run(st, requests).data.dom().contains(key) == st.data.dom().contains(key),
        st.data.dom().contains(key) ==> run(st, requests).data[key] == st.data[key],
    decreases requests.len(),
{
    if requests.len() != 0 {
        let d = requests.drop_last();
        assert forall|i: int| 0 <= i < d.len() implies !sets_key(#[trigger] d[i].0, key) by {
            assert(d[i] == requests[i]);
        }
        lemma_run_keeps_key(st, d, key);
        assert(!sets_key(requests[requests.len() - 1].0, key));
        lemma_step_keeps_key(run(st, d), requests.last().0, requests.last().1, key);
    }
}

/// Law: after `SET key value` (the command in any case), `GET key` answers
/// `value`, whoever asks and whatever requests come in between, as long as
/// none of them sets `key`; the `SET` itself is answered `OK`.
pub proof fn law_get_after_set(
    st: State,
    set_word: Seq<char>,
    get_word: Seq<char>,
    key: Seq<char>,
    value: Seq<char>,
    setter: u64,
    between: Seq<(Value, u64)>,
    getter: u64,
)
    requires
        names(set_word, word_set()),
        names(get_word, word_get()),
        forall|i: int| 0 <= i < between.len() ==> !sets_key(#[trigger] between[i].0, key),
    ensures
        step(st, command(seq![set_word, key, value]), setter).1 == Reaction::Reply(simple_bytes("OK"@)),
        step(
            run(step(st, command(seq![set_word, key, value]), setter).0, between),
            command(seq![get_word, key]),
            getter,
        ).1 == Reaction::Reply(simple_bytes(value)),
{
    lemma_names_exclusive(set_word);
    lemma_names_exclusive(get_word);
    lemma_command_args(seq![set_word, key, value]);
    lemma_command_args(seq![get_word, key]);
    let st1 = step(st, command(seq![set_word, key, value]), setter).0;
    assert(st1.data == st.data.insert(key, value));
    lemma_run_keeps_key(st1, between, key);
}

/// Law: `SET key value` leaves the answer to `GET other` unchanged for every
/// other key.
pub proof fn law_set_keeps_other_keys(
    st: State,
    set_word: Seq<char>,
    get_word: Seq<char>,
    key: Seq<char>,
    value: Seq<char>,
    other: Seq<char>,
    setter: u64,
    getter: u64,
)
    requires
        names(set_word, word_set()),
        names(get_word, word_get()),
        other != key,
    ensures
        step(step(st, command(seq![set_word, key, value]), setter).0, command(seq![get_word, other]), getter).1
            == step(st, command(seq![get_word, other]), getter).1,
{
    lemma_names_exclusive(set_word);
    lemma_names_exclusive(get_word);
    lemma_command_args(seq![set_word, key, value]);
    lemma_command_args(seq![get_word, other]);
    let st2 = step(st, command(seq![set_word, key, value]), setter).0;
    assert(st2.data == st.data.insert(key, value));
    assert(get_reply(st2.data, other) == get_reply(st.data, other));
}

/// Law: a key that was never set is answered null.
pub proof fn law_get_missing(st: State, get_word: Seq<char>, key: Seq<char>, getter: u64)
    requires
        names(get_word, word_get()),
        !st.data.dom().contains(key),
    ensures
        step(st, command(seq![get_word, key]), getter) == (st, Reaction::Reply(null_bytes())),
{
    lemma_names_exclusive(get_word);
    lemma_command_args(seq![get_word, key]);
}

/// Law: `subscribe channel` (the command in any case, `SUBSCRIBE` too)
/// appends the subscriber to the channel's list, keeps every other list and
/// the data, and is confirmed.
pub proof fn law_subscribe_registers(st: State, word: Seq<char>, channel: Seq<char>, id: u64)
    requires
        names(word, word_subscribe()),
    ensures
        step(st, command(seq![word, channel]), id) == (
            State { subscribers: with_subscriber(st.subscribers, channel, id), ..st },
            Reaction::Subscribed(subscribe_reply(channel)),
        ),
        step(st, command(seq![word, channel]), id).0.subscribers[channel].last() == id,
        ({
            let st2 = step(st, command(seq![word, channel]), id).0;
            &&& st2.data == st.data
            &&& st2.subscribers.dom().contains(channel)
            &&& st2.subscribers[channel] == subscribers_of(st.subscribers, channel).push(id)
            &&& forall|other: Seq<char>| other != channel ==> (#[trigger] st2.subscribers.dom().contains(other)
                == st.subscribers.dom().contains(other)) && st2.subscribers[other] == st.subscribers[other]
        }),
{
    lemma_command_args(seq![word, channel]);
}

/// Law: `PUBLISH channel text` (the command in any case) hands the text to
/// the channel's subscribers, in order of registration, answers their
/// number, and leaves the server as it was.
pub proof fn law_publish_reaches_subscribers(st: State, word: Seq<char>, channel: Seq<char>, text: Seq<char>, id: u64)
    requires
        names(word, word_publish()),
    ensures
        step(st, command(seq![word, channel, text]), id) == (
            st,
            Reaction::Publish(
                subscribers_of(st.subscribers, channel),
                text,
                integer_reply(subscribers_of(st.subscribers, channel).len()),
            ),
        ),
{
    lemma_names_exclusive(word);
    lemma_command_args(seq![word, channel, text]);
}

/// Law: after a connection subscribes to a channel, a text published on that
/// channel is handed to it, after the channel's earlier subscribers, and the
/// publisher is answered their number, one more than before.
pub proof fn law_publish_after_subscribe(
    st: State,
    sub_word: Seq<char>,
    pub_word: Seq<char>,
    channel: Seq<char>,
    text: Seq<char>,
    subscriber: u64,
    publisher: u64,
)
    requires
        names(sub_word, word_subscribe()),
        names(pub_word, word_publish()),
    ensures
        ({
            let st1 = step(st, command(seq![sub_word, channel]), subscriber).0;
            let ids = subscribers_of(st.subscribers, channel).push(subscriber);
            step(st1, command(seq![pub_word, channel, text]), publisher).1
                == Reaction::Publish(ids, text, integer_reply(ids.len()))
        }),
{
    law_subscribe_registers(st, sub_word, channel, subscriber);
    let st1 = step(st, command(seq![sub_word, channel]), subscriber).0;
    law_publish_reaches_subscribers(st1, pub_word, channel, text, publisher);
}

/// Law: only `SET` changes the data and only `subscribe` changes the
/// subscribers; every other request leaves the server as it was.
pub proof fn law_only_commands_change_state(st: State, request: Value, id: u64)
    ensures
        step(st, request, id).0.data != st.data ==> names_command(request, word_set()),
        step(st, request, id).0.subscribers != st.subscribers ==> names_command(request, word_subscribe()),
{
}

/// The values that a table of strings is read back as.
pub open spec fn str_map(m: Map<Seq<char>, Seq<char>>) -> Map<Seq<char>, Value> {
    Map::new(|k: Seq<char>| m.dom().contains(k), |k: Seq<char>| Value::Str(m[k]))
}

/// Inserting the keys of `keys`, from the first, with their values in `m`.
pub open spec fn insert_all(acc: Map<Seq<char>, Value>, keys: Seq<Seq<char>>, m: Map<Seq<char>, Seq<char>>) -> Map<Seq<char>, Value>
    decreases keys.len(),
{
    if keys.len() == 0 {
        acc
    } else {
        insert_all(acc.insert(keys[0], Value::Str(m[keys[0]])), keys.drop_first(), m)
    }
}

proof fn lemma_insert_all(acc: Map<Seq<char>, Value>, keys: Seq<Seq<char>>, m: Map<Seq<char>, Seq<char>>, k: Seq<char>)
    ensures
        keys.contains(k) ==> insert_all(acc, keys, m).dom().contains(k) && insert_all(acc, keys, m)[k] == Value::Str(m[k]),
        !keys.contains(k) ==> (insert_all(acc, keys, m).dom().contains(k) == acc.dom().contains(k))
            && (acc.dom().contains(k) ==> insert_all(acc, keys, m)[k] == acc[k]),
    decreases keys.len(),
{
    if keys.len() != 0 {
        let rest = keys.drop_first();
        lemma_insert_all(acc.insert(keys[0], Value::Str(m[keys[0]])), rest, m, k);
        if keys.contains(k) && !rest.contains(k) {
            let i = choose|i: int| 0 <= i < keys.len() && keys[i] == k;
            if i > 0 {
                assert(rest[i - 1] == k);
            }
        }
        if rest.contains(k) {
            let i = choose|i: int| 0 <= i < rest.len() && rest[i] == k;
            assert(keys[i + 1] == k);
        }
    }
}

proof fn lemma_pairs_bytes_front(k: Seq<char>, r: Seq<Seq<char>>, m: Map<Seq<char>, Seq<char>>)
    ensures
        pairs_bytes(seq![k] + r, m) == simple_bytes(k) + simple_bytes(m[k]) + pairs_bytes(r, m),
    decreases r.len(),
{
    if r.len() == 0 {
        assert(seq![k] + r =~= seq![k]);
        assert(seq![k].drop_last() =~= Seq::<Seq<char>>::empty());
        assert(pairs_bytes(Seq::<Seq<char>>::empty(), m) == Seq::<u8>::empty());
        assert(seq![k].last() == k);
        assert(pairs_bytes(seq![k], m) =~= simple_bytes(k) + simple_bytes(m[k]));
    } else {
        lemma_pairs_bytes_front(k, r.drop_last(), m);
        assert((seq![k] + r).drop_last() =~= seq![k] + r.drop_last());
        assert((seq![k] + r).last() == r.last());
        assert(pairs_bytes(seq![k] + r, m) =~= simple_bytes(k) + simple_bytes(m[k]) + pairs_bytes(r, m));
    }
}

/// Keys and values written one after the other at `q` are read back as the
/// remaining pairs of a map.
proof fn lemma_pairs_at(
    d: Dialect,
    s: Seq<u8>,
    q: int,
    keys: Seq<Seq<char>>,
    m: Map<Seq<char>, Seq<char>>,
    acc: Map<Seq<char>, Value>,
)
    requires
        !(d is KeyValue),
        0 <= q,
        q + pairs_bytes(keys, m).len() <= s.len(),
        s.subrange(q, q + pairs_bytes(keys, m).len()) == pairs_bytes(keys, m),
        forall|i: int| 0 <= i < keys.len() ==> no_crlf(#[trigger] encode_utf8(keys[i])),
        forall|i: int| 0 <= i < keys.len() ==> no_crlf(encode_utf8(#[trigger] m[keys[i]])),
    ensures
        decode_pairs(d, s, q, keys.len() as int, acc) == Outcome::Done(
            Value::Mapping(insert_all(acc, keys, m)),
            q + pairs_bytes(keys, m).len(),
        ),
    decreases keys.len(),
{
    if keys.len() != 0 {
        let k = keys[0];
        let rest = keys.drop_first();
        assert(seq![k] + rest =~= keys);
        lemma_pairs_bytes_front(k, rest, m);
        let all = pairs_bytes(keys, m);
        let w = s.subrange(q, q + all.len());
        let kb = simple_bytes(k);
        let vb = simple_bytes(m[k]);
        let rb = pairs_bytes(rest, m);
        assert(all =~= kb + vb + rb);
        assert(s.subrange(q, q + kb.len()) =~= kb) by {
            assert forall|i: int| 0 <= i < kb.len() implies s.subrange(q, q + kb.len())[i] == kb[i] by {
                assert(w[i] == s[q + i]);
                assert(all[i] == kb[i]);
            }
        }
        assert(no_crlf(encode_utf8(keys[0])));
        lemma_simple_at(d, s, q, k);
        let q1 = q + kb.len();
        assert(s.subrange(q1, q1 + vb.len()) =~= vb) by {
            assert forall|i: int| 0 <= i < vb.len() implies s.subrange(q1, q1 + vb.len())[i] == vb[i] by {
                assert(w[kb.len() + i] == s[q1 + i]);
                assert(all[kb.len() + i] == vb[i]);
            }
        }
        assert(no_crlf(encode_utf8(m[keys[0]])));
        lemma_simple_at(d, s, q1, m[k]);
        let q2 = q1 + vb.len();
        assert(s.subrange(q2, q2 + rb.len()) =~= rb) by {
            assert forall|i: int| 0 <= i < rb.len() implies s.subrange(q2, q2 + rb.len())[i] == rb[i] by {
                assert(w[kb.len() + vb.len() + i] == s[q2 + i]);
                assert(all[kb.len() + vb.len() + i] == rb[i]);
            }
        }
        assert forall|i: int| 0 <= i < rest.len() implies no_crlf(#[trigger] encode_utf8(rest[i])) by {
            assert(rest[i] == keys[i + 1]);
        }
        assert forall|i: int| 0 <= i < rest.len() implies no_crlf(encode_utf8(#[trigger] m[rest[i]])) by {
            assert(rest[i] == keys[i + 1]);
        }
        lemma_pairs_at(d, s, q2, rest, m, acc.insert(k, Value::Str(m[k])));
    }
}

/// Law: a table of strings that hold no `"\r\n"` is read back as a mapping
/// of the same keys to the same strings by the variants that know the tag
/// `%`, whatever bytes follow it; `keys` lists the table's keys, each once,
/// as [`crate::store::Table::keys`] does. (Its count must fit a length field
/// of at most sixteen digits, and is at most `isize::MAX`.)
pub proof fn law_table_roundtrip(
    d: Dialect,
    keys: Seq<Seq<char>>,
    m: Map<Seq<char>, Seq<char>>,
    rest: Seq<u8>,
)
    requires
        !(d is KeyValue),
        keys.len() < pow10(MAX_LEN_DIGITS as nat),
        keys.len() <= isize::MAX,
        forall|k: Seq<char>| #[trigger] m.dom().contains(k) <==> keys.contains(k),
        forall|i: int| 0 <= i < keys.len() ==> no_crlf(#[trigger] encode_utf8(keys[i])),
        forall|i: int| 0 <= i < keys.len() ==> no_crlf(encode_utf8(#[trigger] m[keys[i]])),
    ensures
        spec_decode(d, table_bytes(d, keys, m) + rest) == Outcome::Done(
            Value::Mapping(str_map(m)),
            table_bytes(d, keys, m).len() as int,
        ),
{
    let x = table_bytes(d, keys, m);
    let s = x + rest;
    let n = keys.len();
    let ds = decimal(n);
    let all = pairs_bytes(keys, m);
    assert(s[0] == PERCENT);
    assert(s.subrange(1, 1 + ds.len() + 2int) =~= ds + crlf()) by {
        assert forall|k: int| 0 <= k < ds.len() + 2 implies s.subrange(1, 1 + ds.len() + 2int)[k] == (ds + crlf())[k] by {
            assert(s[1 + k] == x[1 + k]);
        }
    }
    assert(isize::MAX <= len_max(d));
    lemma_read_len_numeral(d, s, 1, n);
    let q: int = 1 + ds.len() + 2int;
    assert(s.subrange(q, q + all.len()) =~= all) by {
        assert forall|k: int| 0 <= k < all.len() implies s.subrange(q, q + all.len())[k] == all[k] by {
            assert(s[q + k] == x[q + k]);
        }
    }
    lemma_pairs_at(d, s, q, keys, m, Map::empty());
    assert(insert_all(Map::empty(), keys, m) =~= str_map(m)) by {
        assert forall|k: Seq<char>| #![auto] insert_all(Map::empty(), keys, m).dom().contains(k) <==> str_map(m).dom().contains(k) by {
            lemma_insert_all(Map::empty(), keys, m, k);
        }
        assert forall|k: Seq<char>| #![auto] insert_all(Map::empty(), keys, m).dom().contains(k) implies insert_all(Map::empty(), keys, m)[k] == str_map(m)[k] by {
            lemma_insert_all(Map::empty(), keys, m, k);
        }
    }
}

/// The bytes `x` stand in `s` at position `p`.
pub open spec fn occurs_at(s: Seq<u8>, p: int, x: Seq<u8>) -> bool {
    0 <= p && p + x.len() <= s.len() && s.subrange(p, p + x.len()) == x
}

proof fn lemma_occurs_split(s: Seq<u8>, p: int, x: Seq<u8>, y: Seq<u8>)
    requires
        occurs_at(s, p, x + y),
    ensures
        occurs_at(s, p, x),
        occurs_at(s, p + x.len(), y),
{
    let w = s.subrange(p, p + (x + y).len());
    assert(s.subrange(p, p + x.len()) =~= x) by {
        assert forall|k: int| 0 <= k < x.len() implies s.subrange(p, p + x.len())[k] == x[k] by {
            assert(w[k] == s[p + k]);
            assert((x + y)[k] == x[k]);
        }
    }
    assert(s.subrange(p + x.len(), p + x.len() + y.len()) =~= y) by {
        assert forall|k: int| 0 <= k < y.len() implies s.subrange(p + x.len(), p + x.len() + y.len())[k] == y[k] by {
            assert(w[x.len() + k] == s[p + x.len() + k]);
            assert((x + y)[x.len() + k] == y[k]);
        }
    }
}

proof fn lemma_occurs_front(x: Seq<u8>, rest: Seq<u8>)
    ensures
        occurs_at(x + rest, 0, x),
{
    assert((x + rest).subrange(0, x.len() as int) =~= x);
}

proof fn lemma_pow10_16()
    ensures
        pow10(MAX_LEN_DIGITS as nat) == 10_000_000_000_000_000,
{
    reveal_with_fuel(pow10, 17);
}

proof fn lemma_word_lengths()
    ensures
        encode_utf8("subscribe"@).len() == 9,
        encode_utf8("message"@).len() == 7,
{
    reveal_strlit("subscribe");
    reveal_strlit("message");
    assert(is_ascii_chars("subscribe"@));
    assert(is_ascii_chars("message"@));
    is_ascii_chars_encode_utf8("subscribe"@);
    is_ascii_chars_encode_utf8("message"@);
}

proof fn lemma_items_step(d: Dialect, s: Seq<u8>, pos: int, count: int, acc: Seq<Value>, v: Value, next: int)
    requires
        count > 0,
        decode_from(d, s, pos) == Outcome::Done(v, next),
        pos < next <= s.len(),
    ensures
        decode_items(d, s, pos, count, acc) == decode_items(d, s, next, count - 1, acc.push(v)),
{
}

proof fn lemma_bulk_occurs(d: Dialect, s: Seq<u8>, p: int, c: Seq<char>)
    requires
        occurs_at(s, p, bulk_bytes(c)),
        encode_utf8(c).len() < pow10(MAX_LEN_DIGITS as nat),
        encode_utf8(c).len() <= isize::MAX,
    ensures
        decode_from(d, s, p) == Outcome::Done(Value::Str(c), p + bulk_bytes(c).len()),
        bulk_bytes(c).len() > 0,
{
    assert(isize::MAX <= len_max(d));
    lemma_bulk_at(d, s, p, c);
}

/// An integer answer written at `p` is read back at `p` by the client's reader.
proof fn lemma_integer_at(s: Seq<u8>, p: int, n: nat)
    requires
        occurs_at(s, p, integer_reply(n)),
        n < pow10(MAX_LEN_DIGITS as nat),
        n <= isize::MAX,
    ensures
        decode_from(Dialect::Client, s, p) == Outcome::Done(Value::Integer(n as int), p + integer_reply(n).len()),
{
    assert(integer_reply(n) =~= seq![COLON] + (decimal(n) + crlf()));
    lemma_occurs_split(s, p, seq![COLON], decimal(n) + crlf());
    assert(s[p] == COLON) by {
        assert(s.subrange(p, p + 1)[0] == s[p]);
    }
    lemma_read_len_numeral(Dialect::Client, s, p + 1, n);
}

/// The header of an array of three.
proof fn lemma_header_three(s: Seq<u8>)
    requires
        occurs_at(s, 0, seq![STAR, (ZERO + 3) as u8, CR, LF]),
    ensures
        read_len(Dialect::Client, s, 1) == Outcome::Done(3int, 4),
        s[0] == STAR,
{
    assert(seq![STAR, (ZERO + 3) as u8, CR, LF] =~= seq![STAR] + (decimal(3) + crlf()));
    lemma_occurs_split(s, 0, seq![STAR], decimal(3) + crlf());
    assert(s.subrange(0, 1)[0] == s[0]);
    lemma_pow10_16();
    lemma_read_len_numeral(Dialect::Client, s, 1, 3);
}

/// An array of three whose values are read back one after the other.
proof fn lemma_array_three(s: Seq<u8>, p: int, v1: Value, v2: Value, v3: Value, p2: int, p3: int, p4: int)
    requires
        occurs_at(s, p, seq![STAR, (ZERO + 3) as u8, CR, LF]),
        p + 4 < p2 < p3 < p4 <= s.len(),
        decode_from(Dialect::Client, s, p + 4) == Outcome::Done(v1, p2),
        decode_from(Dialect::Client, s, p2) == Outcome::Done(v2, p3),
        decode_from(Dialect::Client, s, p3) == Outcome::Done(v3, p4),
    ensures
        decode_from(Dialect::Client, s, p) == Outcome::Done(Value::Array(seq![v1, v2, v3]), p4),
{
    let h = seq![STAR, (ZERO + 3) as u8, CR, LF];
    assert(h =~= seq![STAR] + (decimal(3) + crlf()));
    lemma_occurs_split(s, p, seq![STAR], decimal(3) + crlf());
    assert(s.subrange(p, p + 1)[0] == s[p]);
    lemma_pow10_16();
    lemma_read_len_numeral(Dialect::Client, s, p + 1, 3);
    let e = Seq::<Value>::empty();
    lemma_items_step(Dialect::Client, s, p + 4, 3, e, v1, p2);
    lemma_items_step(Dialect::Client, s, p2, 2, e.push(v1), v2, p3);
    lemma_items_step(Dialect::Client, s, p3, 1, e.push(v1).push(v2), v3, p4);
    assert(e.push(v1).push(v2).push(v3) =~= seq![v1, v2, v3]);
}

/// Law: an integer answer is read back by the client's reader as that
/// integer, whatever bytes follow it; it takes all of its bytes.
pub proof fn law_integer_reply_roundtrip(n: nat, rest: Seq<u8>)
    requires
        n < pow10(MAX_LEN_DIGITS as nat),
        n <= isize::MAX,
    ensures
        spec_decode(Dialect::Client, integer_reply(n) + rest) == Outcome::Done(
            Value::Integer(n as int),
            integer_reply(n).len() as int,
        ),
{
    lemma_occurs_front(integer_reply(n), rest);
    lemma_integer_at(integer_reply(n) + rest, 0, n);
}

/// Law: the answer to `PUBLISH channel text` (the command in any case) is
/// read back by the client's reader as the integer number of subscribers that
/// the text is handed to.
pub proof fn law_publish_reply_reads_back(st: State, word: Seq<char>, channel: Seq<char>, text: Seq<char>, id: u64)
    requires
        names(word, word_publish()),
        subscribers_of(st.subscribers, channel).len() < pow10(MAX_LEN_DIGITS as nat),
        subscribers_of(st.subscribers, channel).len() <= isize::MAX,
    ensures
        step(st, command(seq![word, channel, text]), id).1 matches Reaction::Publish(ids, t, reply) && t == text
            && ids == subscribers_of(st.subscribers, channel)
            && spec_decode(Dialect::Client, reply) == Outcome::Done(Value::Integer(ids.len() as int), reply.len() as int),
{
    law_publish_reaches_subscribers(st, word, channel, text, id);
    let n = subscribers_of(st.subscribers, channel).len();
    law_integer_reply_roundtrip(n, Seq::empty());
    assert(integer_reply(n) + Seq::<u8>::empty() =~= integer_reply(n));
}

/// Law: the confirmation of a subscription to `channel` is read back by the
/// client's reader as the array `["subscribe", channel, 1]`, whatever bytes
/// follow it; it takes all of its bytes.
pub proof fn law_subscribe_reply_reads_back(channel: Seq<char>, rest: Seq<u8>)
    requires
        encode_utf8(channel).len() < pow10(MAX_LEN_DIGITS as nat),
        encode_utf8(channel).len() <= isize::MAX,
    ensures
        spec_decode(Dialect::Client, subscribe_reply(channel) + rest) == Outcome::Done(
            Value::Array(seq![Value::Str("subscribe"@), Value::Str(channel), Value::Integer(1)]),
            subscribe_reply(channel).len() as int,
        ),
{
    let h = seq![STAR, (ZERO + 3) as u8, CR, LF];
    let b1 = bulk_bytes("subscribe"@);
    let b2 = bulk_bytes(channel);
    let i1 = integer_reply(1);
    assert(i1 =~= seq![COLON, (ZERO + 1) as u8, CR, LF]);
    let x = subscribe_reply(channel);
    assert(x =~= h + (b1 + (b2 + i1)));
    let s = x + rest;
    lemma_occurs_front(x, rest);
    lemma_occurs_split(s, 0, h, b1 + (b2 + i1));
    lemma_occurs_split(s, 4, b1, b2 + i1);
    let p2: int = 4int + b1.len();
    lemma_occurs_split(s, p2, b2, i1);
    let p3: int = p2 + b2.len();
    let p4: int = p3 + i1.len();
    lemma_word_lengths();
    lemma_pow10_16();
    lemma_bulk_occurs(Dialect::Client, s, 4, "subscribe"@);
    lemma_bulk_occurs(Dialect::Client, s, p2, channel);
    lemma_integer_at(s, p3, 1);
    lemma_array_three(s, 0, Value::Str("subscribe"@), Value::Str(channel), Value::Integer(1), p2, p3, p4);
}

/// The value that a message frame is read back as.
pub open spec fn message_value(channel: Seq<char>, text: Seq<char>) -> Value {
    Value::Array(seq![Value::Str("message"@), Value::Str(channel), Value::Str(text)])
}

/// A message frame written at `p` is read back at `p` by the client's reader.
proof fn lemma_message_frame_at(s: Seq<u8>, p: int, channel: Seq<char>, text: Seq<char>)
    requires
        occurs_at(s, p, message_frame(channel, text)),
        encode_utf8(channel).len() < pow10(MAX_LEN_DIGITS as nat),
        encode_utf8(channel).len() <= isize::MAX,
        encode_utf8(text).len() < pow10(MAX_LEN_DIGITS as nat),
        encode_utf8(text).len() <= isize::MAX,
    ensures
        decode_from(Dialect::Client, s, p) == Outcome::Done(
            message_value(channel, text),
            p + message_frame(channel, text).len(),
        ),
        message_frame(channel, text).len() > 0,
{
    let h = seq![STAR, (ZERO + 3) as u8, CR, LF];
    let b1 = bulk_bytes("message"@);
    let b2 = bulk_bytes(channel);
    let b3 = bulk_bytes(text);
    let x = message_frame(channel, text);
    assert(x =~= h + (b1 + (b2 + b3)));
    lemma_occurs_split(s, p, h, b1 + (b2 + b3));
    lemma_occurs_split(s, p + 4, b1, b2 + b3);
    let p2 = p + 4 + b1.len();
    lemma_occurs_split(s, p2, b2, b3);
    let p3 = p2 + b2.len();
    let p4 = p3 + b3.len();
    lemma_word_lengths();
    lemma_pow10_16();
    lemma_bulk_occurs(Dialect::Client, s, p + 4, "message"@);
    lemma_bulk_occurs(Dialect::Client, s, p2, channel);
    lemma_bulk_occurs(Dialect::Client, s, p3, text);
    lemma_array_three(s, p, Value::Str("message"@), Value::Str(channel), Value::Str(text), p2, p3, p4);
}

/// Law: a message frame is read back by the client's reader as the array
/// `["message", channel, text]`, whatever bytes follow it; it takes all of
/// its bytes.
pub proof fn law_message_frame_reads_back(channel: Seq<char>, text: Seq<char>, rest: Seq<u8>)
    requires
        encode_utf8(channel).len() < pow10(MAX_LEN_DIGITS as nat),
        encode_utf8(channel).len() <= isize::MAX,
        encode_utf8(text).len() < pow10(MAX_LEN_DIGITS as nat),
        encode_utf8(text).len() <= isize::MAX,
    ensures
        spec_decode(Dialect::Client, message_frame(channel, text) + rest) == Outcome::Done(
            message_value(channel, text),
            message_frame(channel, text).len() as int,
        ),
{
    lemma_occurs_front(message_frame(channel, text), rest);
    lemma_message_frame_at(message_frame(channel, text) + rest, 0, channel, text);
}

proof fn lemma_message_frames_front(c: Seq<char>, r: Seq<Seq<char>>, text: Seq<char>)
    ensures
        message_frames(seq![c] + r, text) == message_frame(c, text) + message_frames(r, text),
    decreases r.len(),
{
    if r.len() == 0 {
        assert(seq![c] + r =~= seq![c]);
        assert(seq![c].drop_last() =~= Seq::<Seq<char>>::empty());
        assert(message_frames(Seq::<Seq<char>>::empty(), text) == Seq::<u8>::empty());
        assert(seq![c].last() == c);
        assert(message_frames(seq![c], text) =~= message_frame(c, text));
    } else {
        lemma_message_frames_front(c, r.drop_last(), text);
        assert((seq![c] + r).drop_last() =~= seq![c] + r.drop_last());
        assert((seq![c] + r).last() == r.last());
        assert(message_frames(seq![c] + r, text) =~= message_frame(c, text) + message_frames(r, text));
    }
}

/// The values that the frames of a text for `channels` are read back as.
pub open spec fn message_values(channels: Seq<Seq<char>>, text: Seq<char>) -> Seq<Value> {
    channels.map_values(|c: Seq<char>| message_value(c, text))
}

proof fn lemma_message_frames_at(s: Seq<u8>, p: int, channels: Seq<Seq<char>>, text: Seq<char>, acc: Seq<Value>)
    requires
        occurs_at(s, p, message_frames(channels, text)),
        forall|i: int| 0 <= i < channels.len() ==> encode_utf8(#[trigger] channels[i]).len() < pow10(MAX_LEN_DIGITS as nat)
            && encode_utf8(channels[i]).len() <= isize::MAX,
        encode_utf8(text).len() < pow10(MAX_LEN_DIGITS as nat),
        encode_utf8(text).len() <= isize::MAX,
    ensures
        decode_items(Dialect::Client, s, p, channels.len() as int, acc) == Outcome::Done(
            Value::Array(acc + message_values(channels, text)),
            p + message_frames(channels, text).len(),
        ),
    decreases channels.len(),
{
    if channels.len() == 0 {
        assert(acc + message_values(channels, text) =~= acc);
    } else {
        let c = channels[0];
        let r = channels.drop_first();
        assert(seq![c] + r =~= channels);
        lemma_message_frames_front(c, r, text);
        lemma_occurs_split(s, p, message_frame(c, text), message_frames(r, text));
        lemma_message_frame_at(s, p, c, text);
        let q = p + message_frame(c, text).len();
        lemma_items_step(Dialect::Client, s, p, channels.len() as int, acc, message_value(c, text), q);
        assert forall|i: int| 0 <= i < r.len() implies encode_utf8(#[trigger] r[i]).len() < pow10(MAX_LEN_DIGITS as nat)
            && encode_utf8(r[i]).len() <= isize::MAX by {
            assert(r[i] == channels[i + 1]);
        }
        lemma_message_frames_at(s, q, r, text, acc.push(message_value(c, text)));
        assert(acc.push(message_value(c, text)) + message_values(r, text) =~= acc + message_values(channels, text));
    }
}

/// Law: the frames that forward a text (see [`crate::server::Server::publish_frames`])
/// are read back by the client's reader, one value after another, as one
/// `["message", channel, text]` per channel, in order, taking all the bytes.
pub proof fn law_publish_frames_read_back(channels: Seq<Seq<char>>, text: Seq<char>, rest: Seq<u8>)
    requires
        forall|i: int| 0 <= i < channels.len() ==> encode_utf8(#[trigger] channels[i]).len() < pow10(MAX_LEN_DIGITS as nat)
            && encode_utf8(channels[i]).len() <= isize::MAX,
        encode_utf8(text).len() < pow10(MAX_LEN_DIGITS as nat),
        encode_utf8(text).len() <= isize::MAX,
    ensures
        decode_items(Dialect::Client, message_frames(channels, text) + rest, 0, channels.len() as int, Seq::empty())
            == Outcome::Done(
            Value::Array(message_values(channels, text)),
            message_frames(channels, text).len() as int,
        ),
{
    lemma_occurs_front(message_frames(channels, text), rest);
    lemma_message_frames_at(message_frames(channels, text) + rest, 0, channels, text, Seq::empty());
    assert(Seq::<Value>::empty() + message_values(channels, text) =~= message_values(channels, text));
}

/// Each key with its value, as two length-prefixed strings.
pub open spec fn bulk_pairs_bytes(keys: Seq<Seq<char>>, m: Map<Seq<char>, Seq<char>>) -> Seq<u8>
    decreases keys.len(),
{
    if keys.len() == 0 {
        Seq::empty()
    } else {
        bulk_pairs_bytes(keys.drop_last(), m) + bulk_bytes(keys.last()) + bulk_bytes(m[keys.last()])
    }
}

/// A request of the key/value variant: `*`, the number of keys and values
/// (twice the number of pairs), `"\r\n"`, then each key and its value as
/// length-prefixed strings.
pub open spec fn key_value_request_bytes(keys: Seq<Seq<char>>, m: Map<Seq<char>, Seq<char>>) -> Seq<u8> {
    seq![STAR] + decimal(2 * keys.len()) + crlf() + bulk_pairs_bytes(keys, m)
}

proof fn lemma_bulk_pairs_front(k: Seq<char>, r: Seq<Seq<char>>, m: Map<Seq<char>, Seq<char>>)
    ensures
        bulk_pairs_bytes(seq![k] + r, m) == bulk_bytes(k) + bulk_bytes(m[k]) + bulk_pairs_bytes(r, m),
    decreases r.len(),
{
    if r.len() == 0 {
        assert(seq![k] + r =~= seq![k]);
        assert(seq![k].drop_last() =~= Seq::<Seq<char>>::empty());
        assert(bulk_pairs_bytes(Seq::<Seq<char>>::empty(), m) == Seq::<u8>::empty());
        assert(seq![k].last() == k);
        assert(bulk_pairs_bytes(seq![k], m) =~= bulk_bytes(k) + bulk_bytes(m[k]));
    } else {
        lemma_bulk_pairs_front(k, r.drop_last(), m);
        assert((seq![k] + r).drop_last() =~= seq![k] + r.drop_last());
        assert((seq![k] + r).last() == r.last());
        assert(bulk_pairs_bytes(seq![k] + r, m) =~= bulk_bytes(k) + bulk_bytes(m[k]) + bulk_pairs_bytes(r, m));
    }
}

/// The strings are short enough for a length field.
pub open spec fn fits_field(c: Seq<char>) -> bool {
    encode_utf8(c).len() < pow10(MAX_LEN_DIGITS as nat) && encode_utf8(c).len() <= isize::MAX
}

proof fn lemma_bulk_pairs_at(
    s: Seq<u8>,
    q: int,
    keys: Seq<Seq<char>>,
    m: Map<Seq<char>, Seq<char>>,
    acc: Map<Seq<char>, Value>,
)
    requires
        occurs_at(s, q, bulk_pairs_bytes(keys, m)),
        forall|i: int| 0 <= i < keys.len() ==> fits_field(#[trigger] keys[i]) && fits_field(m[keys[i]]),
    ensures
        decode_pairs(Dialect::KeyValue, s, q, keys.len() as int, acc) == Outcome::Done(
            Value::Mapping(insert_all(acc, keys, m)),
            q + bulk_pairs_bytes(keys, m).len(),
        ),
    decreases keys.len(),
{
    if keys.len() != 0 {
        let k = keys[0];
        let r = keys.drop_first();
        assert(seq![k] + r =~= keys);
        lemma_bulk_pairs_front(k, r, m);
        let kb = bulk_bytes(k);
        let vb = bulk_bytes(m[k]);
        let rb = bulk_pairs_bytes(r, m);
        assert(kb + vb + rb =~= kb + (vb + rb));
        lemma_occurs_split(s, q, kb, vb + rb);
        lemma_occurs_split(s, q + kb.len(), vb, rb);
        assert(fits_field(keys[0]) && fits_field(m[keys[0]]));
        lemma_bulk_occurs(Dialect::KeyValue, s, q, k);
        lemma_bulk_occurs(Dialect::KeyValue, s, q + kb.len(), m[k]);
        assert forall|i: int| 0 <= i < r.len() implies fits_field(#[trigger] r[i]) && fits_field(m[r[i]]) by {
            assert(r[i] == keys[i + 1]);
        }
        lemma_bulk_pairs_at(s, q + kb.len() + vb.len(), r, m, acc.insert(k, Value::Str(m[k])));
    }
}

/// Law: in the key/value variant, a `*` aggregate whose length counts the
/// keys and values of a table of strings (twice its number of pairs), each
/// written as a length-prefixed string, is read back as the mapping of those
/// pairs, whatever bytes follow it; it takes all of its bytes. `keys` lists
/// the table's keys, each once.
pub proof fn law_key_value_request_roundtrip(keys: Seq<Seq<char>>, m: Map<Seq<char>, Seq<char>>, rest: Seq<u8>)
    requires
        2 * keys.len() < pow10(MAX_LEN_DIGITS as nat),
        2 * keys.len() <= isize::MAX,
        keys.no_duplicates(),
        forall|k: Seq<char>| #[trigger] m.dom().contains(k) <==> keys.contains(k),
        forall|i: int| 0 <= i < keys.len() ==> fits_field(#[trigger] keys[i]) && fits_field(m[keys[i]]),
    ensures
        spec_decode(Dialect::KeyValue, key_value_request_bytes(keys, m) + rest) == Outcome::Done(
            Value::Mapping(str_map(m)),
            key_value_request_bytes(keys, m).len() as int,
        ),
{
    let n = 2 * keys.len();
    let x = key_value_request_bytes(keys, m);
    let s = x + rest;
    let ds = decimal(n);
    let all = bulk_pairs_bytes(keys, m);
    assert(x =~= seq![STAR] + (ds + crlf()) + all);
    lemma_occurs_front(x, rest);
    lemma_occurs_split(s, 0, seq![STAR] + (ds + crlf()), all);
    lemma_occurs_split(s, 0, seq![STAR], ds + crlf());
    assert(s.subrange(0, 1)[0] == s[0]);
    assert(isize::MAX <= len_max(Dialect::KeyValue));
    lemma_read_len_numeral(Dialect::KeyValue, s, 1, n);
    assert(crate::de::pair_count(Dialect::KeyValue, n as int) == keys.len());
    let q: int = 1 + ds.len() + 2int;
    lemma_bulk_pairs_at(s, q, keys, m, Map::empty());
    assert(insert_all(Map::empty(), keys, m) =~= str_map(m)) by {
        assert forall|k: Seq<char>| #![auto] insert_all(Map::empty(), keys, m).dom().contains(k) <==> str_map(m).dom().contains(k) by {
            lemma_insert_all(Map::empty(), keys, m, k);
        }
        assert forall|k: Seq<char>| #![auto] insert_all(Map::empty(), keys, m).dom().contains(k) implies insert_all(Map::empty(), keys, m)[k] == str_map(m)[k] by {
            lemma_insert_all(Map::empty(), keys, m, k);
        }
    }
}

/// Law: a request of the key/value variant whose table holds a string
/// `channel` under the key `"SUBSCRIBE"` appends `id` to the list of
/// `channel`, after its earlier subscribers, leaves every other list and the
/// data as they were, and is answered with the confirmation.
pub proof fn law_key_value_subscribe_registers(
    st: State,
    m: Map<Seq<char>, Value>,
    channel: Seq<char>,
    id: u64,
)
    requires
        m.dom().contains("SUBSCRIBE"@),
        m["SUBSCRIBE"@] == Value::Str(channel),
    ensures
        ({
            let (st2, reply) = step_key_value(st, Value::Mapping(m), id);
            &&& reply == Some(subscribe_reply(channel))
            &&& st2.data == st.data
            &&& st2.subscribers.dom().contains(channel)
            &&& st2.subscribers[channel] == subscribers_of(st.subscribers, channel).push(id)
            &&& forall|other: Seq<char>| other != channel ==> (#[trigger] st2.subscribers.dom().contains(other)
                == st.subscribers.dom().contains(other)) && st2.subscribers[other] == st.subscribers[other]
        }),
{
}

} // verus!
