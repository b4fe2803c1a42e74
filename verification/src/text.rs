//! Text helpers shared by the reader and the writer: decimal numerals,
//! UTF-8 validation of received bytes, and byte-string comparison.

use vstd::prelude::*;
use vstd::utf8::*;

verus! {

/// ASCII code of `'0'`.
pub const ZERO: u8 = 48;

/// ASCII code of `'\r'`.
pub const CR: u8 = 13;

/// ASCII code of `'\n'`.
pub const LF: u8 = 10;

/// The two bytes that end every line of the protocol.
pub open spec fn crlf() -> Seq<u8> {
    seq![CR, LF]
}

/// The decimal numeral of `n`, most significant digit first, without leading zeros.
pub open spec fn decimal(n: nat) -> Seq<u8>
    decreases n,
{
    if n < 10 {
        seq![(ZERO + n) as u8]
    } else {
        decimal(n / 10).push((ZERO + n % 10) as u8)
    }
}

/// The numeral is made of decimal digits.
pub proof fn lemma_decimal_digits(n: nat)
    ensures
        decimal(n).len() >= 1,
        forall|i: int| 0 <= i < decimal(n).len() ==> ZERO <= #[trigger] decimal(n)[i] <= ZERO + 9,
    decreases n,
{
    if n >= 10 {
        lemma_decimal_digits(n / 10);
        let d = decimal(n / 10);
        assert forall|i: int| 0 <= i < decimal(n).len() implies ZERO <= #[trigger] decimal(n)[i] <= ZERO + 9 by {
            if i < d.len() {
                assert(decimal(n)[i] == d[i]);
            } else {
                assert(decimal(n)[i] == (ZERO + n % 10) as u8);
            }
        }
    } else {
        assert(decimal(n)[0] == (ZERO + n) as u8);
    }
}

/// Appends the decimal numeral of `n` to `out`.
pub fn push_decimal(out: &mut Vec<u8>, n: u64)
    ensures
        final(out)@ == old(out)@ + decimal(n as nat),
    decreases n,
{
    if n >= 10 {
        push_decimal(out, n / 10);
    }
    let digit: u8 = (n % 10) as u8;
    out.push(ZERO + digit);
    proof {
        if n >= 10 {
            assert(old(out)@ + decimal(n as nat) =~= old(out)@ + decimal((n / 10) as nat) + seq![(ZERO + digit) as u8]);
        } else {
            assert(old(out)@ + decimal(n as nat) =~= old(out)@.push((ZERO + digit) as u8));
        }
    }
}

/// Appends all of `bytes` to `out`.
pub fn push_bytes(out: &mut Vec<u8>, bytes: &[u8])
    ensures
        final(out)@ == old(out)@ + bytes@,
{
    let mut i: usize = 0;
    while i < bytes.len()
        invariant
            i <= bytes@.len(),
            out@ == old(out)@ + bytes@.subrange(0, i as int),
        decreases bytes@.len() - i,
    {
        out.push(bytes[i]);
        i += 1;
        assert(out@ =~= old(out)@ + bytes@.subrange(0, i as int));
    }
    assert(bytes@.subrange(0, i as int) =~= bytes@);
}

/// `String::from_utf8` on a copy of `bytes`. The standard library documents
/// that it fails exactly when the bytes are not well-formed UTF-8 and that it
/// otherwise keeps the bytes as the string's contents; the contract says so
/// with vstd's model of UTF-8: `Some` exactly for valid UTF-8, holding the
/// decoded characters.
#[verifier::external_body]
pub(crate) fn utf8_to_string(bytes: &[u8]) -> (r: Option<String>)
    ensures
        r is Some <==> valid_utf8(bytes@),
        r matches Some(s) ==> s@ == decode_utf8(bytes@),
{
    String::from_utf8(bytes.to_vec()).ok()
}

} // verus!
